use vstd::prelude::*;

use crate::errors::ConvertedError;

verus! {

// ---------------------------------------------------------------------------
// The host's big-integer representation: a sign bit plus unsigned 64-bit
// words, least significant first.
// ---------------------------------------------------------------------------

/// The number written by a sequence of 64-bit words, least significant
/// first.
pub open spec fn words_value(w: Seq<u64>) -> nat
    decreases w.len(),
{
    if w.len() == 0 {
        0
    } else {
        w[0] as nat + words_value(w.skip(1)) * 0x1_0000_0000_0000_0000
    }
}

/// A big integer as the host passes it across the boundary: sign bit and
/// magnitude words.
#[derive(Clone, PartialEq, Eq, Debug)]
pub struct HostBigInt {
    pub sign_bit: bool,
    pub words: Vec<u64>,
}

impl HostBigInt {
    /// The signed number this value represents.
    pub open spec fn value(&self) -> int {
        if self.sign_bit {
            -(words_value(self.words@) as int)
        } else {
            words_value(self.words@) as int
        }
    }

    /// Canonical form: no most-significant zero word, and the sign bit only
    /// on a nonzero magnitude.
    pub open spec fn canonical(&self) -> bool {
        &&& (self.words@.len() == 0 || self.words@.last() != 0)
        &&& (self.sign_bit ==> self.words@.len() > 0)
    }

    /// The canonical big integer of a signed 64-bit number.
    pub fn from_i64(v: i64) -> (r: HostBigInt)
        ensures
            r.value() == v as int,
            r.canonical(),
    {
        let mag: u64 = if v >= 0 {
            v as u64
        } else if v == i64::MIN {
            0x8000_0000_0000_0000
        } else {
            (-v) as u64
        };
        let mut words: Vec<u64> = Vec::new();
        if mag > 0 {
            words.push(mag);
        }
        proof {
            if mag > 0 {
                assert(words@.skip(1) =~= Seq::<u64>::empty());
                assert(words_value(Seq::<u64>::empty()) == 0);
                assert(words_value(words@) == mag as nat);
            } else {
                assert(words_value(words@) == 0);
            }
        }
        HostBigInt { sign_bit: v < 0, words }
    }
}

/// A nonzero word makes the whole number nonzero.
pub proof fn lemma_words_value_pos(w: Seq<u64>, i: int)
    requires
        0 <= i < w.len(),
        w[i] != 0,
    ensures
        words_value(w) >= 1,
    decreases w.len(),
{
    if i == 0 {
    } else {
        lemma_words_value_pos(w.skip(1), i - 1);
    }
}

/// Words after the first weigh at least two to the sixty-fourth.
proof fn lemma_words_value_high(w: Seq<u64>, i: int)
    requires
        1 <= i < w.len(),
        w[i] != 0,
    ensures
        words_value(w) >= 0x1_0000_0000_0000_0000,
{
    lemma_words_value_pos(w.skip(1), i - 1);
}

/// The canonical word form of a number is unique.
pub proof fn lemma_words_canonical_unique(a: Seq<u64>, b: Seq<u64>)
    requires
        a.len() == 0 || a.last() != 0,
        b.len() == 0 || b.last() != 0,
        words_value(a) == words_value(b),
    ensures
        a == b,
    decreases a.len(),
{
    if a.len() == 0 {
        if b.len() > 0 {
            lemma_words_value_pos(b, b.len() - 1);
        }
        assert(a =~= b);
    } else if b.len() == 0 {
        lemma_words_value_pos(a, a.len() - 1);
    } else {
        let ta = a.skip(1);
        let tb = b.skip(1);
        assert(words_value(a) == a[0] + words_value(ta) * 0x1_0000_0000_0000_0000);
        assert(words_value(b) == b[0] + words_value(tb) * 0x1_0000_0000_0000_0000);
        vstd::arithmetic::div_mod::lemma_fundamental_div_mod_converse(
            words_value(a) as int,
            0x1_0000_0000_0000_0000,
            words_value(ta) as int,
            a[0] as int,
        );
        vstd::arithmetic::div_mod::lemma_fundamental_div_mod_converse(
            words_value(b) as int,
            0x1_0000_0000_0000_0000,
            words_value(tb) as int,
            b[0] as int,
        );
        if a.len() > 1 {
            assert(ta.last() != 0);
        }
        if b.len() > 1 {
            assert(tb.last() != 0);
        }
        if a.len() == 1 {
            assert(ta =~= Seq::<u64>::empty());
        }
        if b.len() == 1 {
            assert(tb =~= Seq::<u64>::empty());
        }
        lemma_words_canonical_unique(ta, tb);
        assert forall|i: int| 0 <= i < a.len() implies a[i] == b[i] by {
            if i >= 1 {
                assert(a[i] == ta[i - 1]);
                assert(b[i] == tb[i - 1]);
            }
        }
        assert(a =~= b);
    }
}

/// Two canonical host big integers with the same value are the same.
pub proof fn lemma_canonical_value_unique(a: HostBigInt, b: HostBigInt)
    requires
        a.canonical(),
        b.canonical(),
        a.value() == b.value(),
    ensures
        a.sign_bit == b.sign_bit,
        a.words@ == b.words@,
{
    if a.sign_bit != b.sign_bit {
        let (p, q) = if a.sign_bit {
            (a, b)
        } else {
            (b, a)
        };
        lemma_words_value_pos(p.words@, p.words@.len() - 1);
    }
    lemma_words_canonical_unique(a.words@, b.words@);
}

/// Convert a host big integer to a signed 64-bit number.  Returns the given
/// error exactly when the value does not fit.
pub fn bigint_to_i64(value: &HostBigInt, error_msg: &str) -> (r: Result<i64, ConvertedError>)
    ensures
        match r {
            Ok(v) => v as int == value.value(),
            Err(e) => {
                &&& !(-0x8000_0000_0000_0000 <= value.value() <= 0x7fff_ffff_ffff_ffff)
                &&& e.name_spec() == "Error"@
                &&& e.msg_spec() == error_msg@
            },
        },
{
    let n = value.words.len();
    if n == 0 {
        return Ok(0);
    }
    // Any nonzero word beyond the first puts the magnitude out of range.
    let mut i: usize = 1;
    while i < n
        invariant
            1 <= i <= n,
            n == value.words@.len(),
            forall|k: int| 1 <= k < i ==> value.words@[k] == 0,
        decreases n - i,
    {
        if value.words[i] != 0 {
            proof {
                lemma_words_value_high(value.words@, i as int);
            }
            return Err(ConvertedError::new("Error", error_msg));
        }
        i = i + 1;
    }
    proof {
        lemma_words_value_single(value.words@);
    }
    let w = value.words[0];
    if value.sign_bit {
        if w > 0x8000_0000_0000_0000 {
            return Err(ConvertedError::new("Error", error_msg));
        }
        if w == 0x8000_0000_0000_0000 {
            Ok(i64::MIN)
        } else {
            Ok(-(w as i64))
        }
    } else {
        if w > 0x7fff_ffff_ffff_ffff {
            return Err(ConvertedError::new("Error", error_msg));
        }
        Ok(w as i64)
    }
}

/// When every word past the first is zero, the number is the first word.
proof fn lemma_words_value_single(w: Seq<u64>)
    requires
        w.len() >= 1,
        forall|k: int| 1 <= k < w.len() ==> w[k] == 0,
    ensures
        words_value(w) == w[0],
{
    lemma_words_value_zero(w.skip(1));
}

/// All-zero words write zero.
proof fn lemma_words_value_zero(w: Seq<u64>)
    requires
        forall|k: int| 0 <= k < w.len() ==> w[k] == 0,
    ensures
        words_value(w) == 0,
    decreases w.len(),
{
    if w.len() > 0 {
        lemma_words_value_zero(w.skip(1));
    }
}

// ---------------------------------------------------------------------------
// Big-endian byte strings and their two's-complement reading.
// ---------------------------------------------------------------------------

/// Powers of 256: the weight of a byte position.
pub open spec fn pow256(k: nat) -> nat
    decreases k,
{
    if k == 0 {
        1
    } else {
        256 * pow256((k - 1) as nat)
    }
}

/// The number written by big-endian bytes, read as unsigned.
pub open spec fn be_value(s: Seq<u8>) -> nat
    decreases s.len(),
{
    if s.len() == 0 {
        0
    } else {
        be_value(s.drop_last()) * 256 + s.last() as nat
    }
}

/// The number written by big-endian bytes, read as two's complement of
/// minimal or longer length: empty means zero, a set high bit of the first
/// byte means a negative number.
pub open spec fn twos_complement_value(s: Seq<u8>) -> int {
    if s.len() == 0 {
        0
    } else if s[0] >= 128 {
        be_value(s) - pow256(s.len() as nat)
    } else {
        be_value(s) as int
    }
}

/// The empty byte string and the number written by a single byte.
pub proof fn lemma_be_single(x: u8)
    ensures
        be_value(Seq::<u8>::empty()) == 0,
        be_value(seq![x]) == x as nat,
{
    assert(seq![x].drop_last() =~= Seq::<u8>::empty());
    assert(be_value(Seq::<u8>::empty()) == 0);
}

/// Ring identity: distributing a product over a shifted sum.
proof fn lemma_mul_shift(a: nat, b: nat, c: nat, k: nat)
    ensures
        (a + b * c) * k == a * k + b * (c * k),
{
    assert((a + b * c) * k == a * k + b * (c * k)) by (nonlinear_arith);
}

/// Powers of 256 are positive.
pub proof fn lemma_pow256_pos(k: nat)
    ensures
        pow256(k) >= 1,
    decreases k,
{
    if k > 0 {
        lemma_pow256_pos((k - 1) as nat);
    }
}

/// Powers of 256 multiply by adding exponents.
pub proof fn lemma_pow256_add(a: nat, c: nat)
    ensures
        pow256(a + c) == pow256(a) * pow256(c),
    decreases c,
{
    if c == 0 {
        assert(pow256(a + 0) == pow256(a) * 1) by (nonlinear_arith);
    } else {
        lemma_pow256_add(a, (c - 1) as nat);
        assert(pow256(a + c) == 256 * pow256((a + c - 1) as nat));
        assert(256 * (pow256(a) * pow256((c - 1) as nat)) == pow256(a) * (256 * pow256(
            (c - 1) as nat,
        ))) by (nonlinear_arith);
    }
}

/// Concatenated byte strings write the left part shifted past the right.
pub proof fn lemma_be_append(s: Seq<u8>, t: Seq<u8>)
    ensures
        be_value(s + t) == be_value(s) * pow256(t.len() as nat) + be_value(t),
    decreases t.len(),
{
    if t.len() == 0 {
        assert(s + t =~= s);
        assert(be_value(s) * 1 == be_value(s)) by (nonlinear_arith);
    } else {
        lemma_be_append(s, t.drop_last());
        assert((s + t).drop_last() =~= s + t.drop_last());
        assert((s + t).last() == t.last());
        assert((be_value(s) * pow256((t.len() - 1) as nat)) * 256 == be_value(s) * (256 * pow256(
            (t.len() - 1) as nat,
        ))) by (nonlinear_arith);
    }
}

/// Big-endian bytes write less than the weight just past their end.
pub proof fn lemma_be_bound(s: Seq<u8>)
    ensures
        be_value(s) < pow256(s.len() as nat),
    decreases s.len(),
{
    if s.len() > 0 {
        lemma_be_bound(s.drop_last());
    }
}

/// All-zero bytes write zero.
pub proof fn lemma_be_zero(s: Seq<u8>)
    requires
        forall|k: int| 0 <= k < s.len() ==> s[k] == 0,
    ensures
        be_value(s) == 0,
    decreases s.len(),
{
    if s.len() > 0 {
        lemma_be_zero(s.drop_last());
    }
}

/// Complementing every byte reflects the written number in the range.
proof fn lemma_be_complement(p: Seq<u8>, q: Seq<u8>)
    requires
        p.len() == q.len(),
        forall|k: int| 0 <= k < p.len() ==> q[k] == 255 - #[trigger] p[k],
    ensures
        be_value(q) == pow256(p.len() as nat) - 1 - be_value(p),
    decreases p.len(),
{
    if p.len() > 0 {
        lemma_be_complement(p.drop_last(), q.drop_last());
        lemma_be_bound(p.drop_last());
        assert(q.last() == 255 - p.last());
    }
}

/// The big-endian bytes of `pow256(n) - value(b)` for a nonzero value `b` of
/// the same length `n`.
fn negate_be_bytes(b: &[u8]) -> (r: Vec<u8>)
    requires
        be_value(b@) >= 1,
    ensures
        r@.len() == b@.len(),
        be_value(r@) as int == pow256(b@.len() as nat) - be_value(b@),
{
    let n = b.len();
    // Find the last nonzero byte; one exists because the value is nonzero.
    let mut j: usize = n;
    let mut k: usize = n;
    while k > 0 && j == n
        invariant
            0 <= k <= n,
            n == b@.len(),
            j == n || (0 <= j < n && b@[j as int] != 0 && forall|t: int|
                j < t < n ==> #[trigger] b@[t] == 0),
            j == n ==> forall|t: int| k <= t < n ==> #[trigger] b@[t] == 0,
        decreases k,
    {
        k = k - 1;
        if b[k] != 0 {
            j = k;
        }
    }
    proof {
        if j == n {
            lemma_be_zero(b@);
        }
    }
    let mut out: Vec<u8> = Vec::new();
    let mut i: usize = 0;
    while i < n
        invariant
            0 <= i <= n,
            n == b@.len(),
            0 <= j < n,
            b@[j as int] != 0,
            forall|t: int| j < t < n ==> #[trigger] b@[t] == 0,
            out@.len() == i,
            forall|t: int|
                0 <= t < i && t < j ==> #[trigger] out@[t] == 255 - b@[t],
            i > j ==> out@[j as int] == 256 - b@[j as int],
            forall|t: int| j < t < i ==> #[trigger] out@[t] == 0,
        decreases n - i,
    {
        if i < j {
            out.push(255 - b[i]);
        } else if i == j {
            out.push((255 - b[i]) + 1);
        } else {
            out.push(0);
        }
        i = i + 1;
    }
    proof {
        let bv = b@;
        let ov = out@;
        let nn = n as int;
        let jj = j as int;
        lemma_be_complement(bv.subrange(0, jj), ov.subrange(0, jj));
        // the value of the output up to and including position j
        assert(ov.subrange(0, jj + 1).drop_last() =~= ov.subrange(0, jj));
        assert(bv.subrange(0, jj + 1).drop_last() =~= bv.subrange(0, jj));
        assert(be_value(ov.subrange(0, jj + 1)) == be_value(ov.subrange(0, jj)) * 256 + ov[jj]);
        assert(be_value(bv.subrange(0, jj + 1)) == be_value(bv.subrange(0, jj)) * 256 + bv[jj]);
        assert((pow256(jj as nat) - 1 - be_value(bv.subrange(0, jj))) * 256 == 256 * pow256(
            jj as nat,
        ) - 256 - be_value(bv.subrange(0, jj)) * 256) by (nonlinear_arith);
        assert(be_value(ov.subrange(0, jj + 1)) as int == pow256((jj + 1) as nat) - be_value(
            bv.subrange(0, jj + 1),
        ));
        // zero tails beyond j
        lemma_be_zero(ov.subrange(jj + 1, nn));
        lemma_be_zero(bv.subrange(jj + 1, nn));
        assert(ov =~= ov.subrange(0, jj + 1) + ov.subrange(jj + 1, nn));
        assert(bv =~= bv.subrange(0, jj + 1) + bv.subrange(jj + 1, nn));
        lemma_be_append(ov.subrange(0, jj + 1), ov.subrange(jj + 1, nn));
        lemma_be_append(bv.subrange(0, jj + 1), bv.subrange(jj + 1, nn));
        lemma_pow256_add((jj + 1) as nat, (nn - jj - 1) as nat);
        assert((pow256((jj + 1) as nat) - be_value(bv.subrange(0, jj + 1))) * pow256(
            (nn - jj - 1) as nat,
        ) == pow256((jj + 1) as nat) * pow256((nn - jj - 1) as nat) - be_value(
            bv.subrange(0, jj + 1),
        ) * pow256((nn - jj - 1) as nat)) by (nonlinear_arith);
    }
    out
}

/// The least-significant words gain a new most-significant word.
proof fn lemma_words_value_push(w: Seq<u64>, x: u64)
    ensures
        words_value(w.push(x)) == words_value(w) + x as nat * pow256((8 * w.len()) as nat),
    decreases w.len(),
{
    if w.len() == 0 {
        assert(w.push(x).skip(1) =~= Seq::<u64>::empty());
        assert(words_value(Seq::<u64>::empty()) == 0);
        assert(x as nat * 1 == x as nat) by (nonlinear_arith);
    } else {
        assert(w.push(x).skip(1) =~= w.skip(1).push(x));
        lemma_words_value_push(w.skip(1), x);
        lemma_pow256_add((8 * (w.len() - 1)) as nat, 8);
        assert(pow256(8) == 0x1_0000_0000_0000_0000) by {
            reveal_with_fuel(pow256, 9);
        };
        lemma_mul_shift(
            words_value(w.skip(1)),
            x as nat,
            pow256((8 * (w.len() - 1)) as nat),
            pow256(8),
        );
    }
}

/// Packs big-endian bytes into little-endian 64-bit words, dropping
/// most-significant zero words.
fn words_from_be(b: &[u8]) -> (r: Vec<u64>)
    ensures
        words_value(r@) == be_value(b@),
        r@.len() == 0 || r@.last() != 0,
{
    let n = b.len();
    let mut words: Vec<u64> = Vec::new();
    let mut end: usize = n;
    while end > 0
        invariant
            0 <= end <= n,
            n == b@.len(),
            words_value(words@) == be_value(b@.skip(end as int)),
            end > 0 ==> 8 * words@.len() == n - end,
        decreases end,
    {
        let start: usize = if end >= 8 {
            end - 8
        } else {
            0
        };
        let mut w: u64 = 0;
        let mut i: usize = start;
        proof {
            reveal_with_fuel(pow256, 9);
        }
        while i < end
            invariant
                start <= i <= end <= n,
                n == b@.len(),
                end - start <= 8,
                w as nat == be_value(b@.subrange(start as int, i as int)),
                (w as nat) < pow256((i - start) as nat),
                pow256(8) == 0x1_0000_0000_0000_0000,
                pow256(7) == 0x100_0000_0000_0000,
            decreases end - i,
        {
            proof {
                assert(b@.subrange(start as int, i as int + 1).drop_last() =~= b@.subrange(
                    start as int,
                    i as int,
                ));
                lemma_pow256_pos((i - start) as nat);
                if i - start < 7 {
                    lemma_pow256_le((i - start) as nat, 7);
                }
            }
            w = w * 256 + (b[i] as u64);
            i = i + 1;
        }
        proof {
            let ghost olds = words@;
            lemma_words_value_push(words@, w);
            assert(b@.skip(start as int) =~= b@.subrange(start as int, end as int) + b@.skip(
                end as int,
            ));
            lemma_be_append(b@.subrange(start as int, end as int), b@.skip(end as int));
            if start > 0 {
                assert(8 * olds.len() == n - end);
                assert(end - start == 8);
            }
        }
        words.push(w);
        end = start;
    }
    proof {
        assert(b@.skip(0) =~= b@);
    }
    // Drop most-significant zero words.
    while words.len() > 0 && words[words.len() - 1] == 0
        invariant
            words_value(words@) == be_value(b@),
        decreases words@.len(),
    {
        proof {
            lemma_words_value_drop_zero(words@);
        }
        words.pop();
    }
    words
}

/// Powers of 256 grow with the exponent.
proof fn lemma_pow256_le(a: nat, c: nat)
    requires
        a <= c,
    ensures
        pow256(a) <= pow256(c),
    decreases c,
{
    if a < c {
        lemma_pow256_le(a, (c - 1) as nat);
        lemma_pow256_pos((c - 1) as nat);
    }
}

/// A zero most-significant word adds nothing.
proof fn lemma_words_value_drop_zero(w: Seq<u64>)
    requires
        w.len() > 0,
        w.last() == 0,
    ensures
        words_value(w.drop_last()) == words_value(w),
    decreases w.len(),
{
    if w.len() == 1 {
        assert(w.skip(1) =~= Seq::<u64>::empty());
        assert(w.drop_last() =~= Seq::<u64>::empty());
        assert(words_value(Seq::<u64>::empty()) == 0);
    } else {
        assert(w.skip(1).last() == 0);
        lemma_words_value_drop_zero(w.skip(1));
        assert(w.drop_last().skip(1) =~= w.skip(1).drop_last());
    }
}

/// The `k` big-endian bytes of a number below `pow256(k)`.
fn be_bytes_of(x: u64, k: usize) -> (r: Vec<u8>)
    requires
        (x as nat) < pow256(k as nat),
    ensures
        r@.len() == k as int,
        be_value(r@) == x as nat,
    decreases k,
{
    if k == 0 {
        Vec::new()
    } else {
        proof {
            vstd::arithmetic::div_mod::lemma_fundamental_div_mod(x as int, 256);
            assert((x as int / 256) * 256 <= x as int);
        }
        let mut r = be_bytes_of(x / 256, k - 1);
        let ghost pre = r@;
        r.push((x % 256) as u8);
        proof {
            assert(r@.drop_last() =~= pre);
        }
        r
    }
}

/// Unpacks little-endian 64-bit words into big-endian bytes without leading
/// zero bytes.
fn be_bytes_from_words(w: &Vec<u64>) -> (r: Vec<u8>)
    ensures
        be_value(r@) == words_value(w@),
        r@.len() == 0 || r@[0] != 0,
{
    let n = w.len();
    let mut out: Vec<u8> = Vec::new();
    let mut k: usize = n;
    while k > 0
        invariant
            0 <= k <= n,
            n == w@.len(),
            be_value(out@) == words_value(w@.skip(k as int)),
        decreases k,
    {
        proof {
            reveal_with_fuel(pow256, 9);
        }
        let chunk = be_bytes_of(w[k - 1], 8);
        proof {
            let ghost oldo = out@;
            lemma_be_append(oldo, chunk@);
            assert(w@.skip(k as int - 1)[0] == w@[k - 1]);
            assert(w@.skip(k as int - 1).skip(1) =~= w@.skip(k as int));
        }
        let mut chunk = chunk;
        out.append(&mut chunk);
        k = k - 1;
    }
    proof {
        assert(w@.skip(0) =~= w@);
    }
    // Strip leading zero bytes.
    let mut idx: usize = 0;
    let total = out.len();
    while idx < total && out[idx] == 0
        invariant
            0 <= idx <= total,
            total == out@.len(),
            be_value(out@) == words_value(w@),
            forall|t: int| 0 <= t < idx ==> #[trigger] out@[t] == 0,
        decreases total - idx,
    {
        idx = idx + 1;
    }
    let mut r: Vec<u8> = Vec::new();
    let mut i: usize = idx;
    while i < total
        invariant
            idx <= i <= total,
            total == out@.len(),
            r@ =~= out@.subrange(idx as int, i as int),
        decreases total - i,
    {
        r.push(out[i]);
        proof {
            assert(r@ =~= out@.subrange(idx as int, i as int + 1));
        }
        i = i + 1;
    }
    proof {
        assert(r@ =~= out@.subrange(idx as int, total as int));
        assert(out@ =~= out@.subrange(0, idx as int) + out@.subrange(idx as int, total as int));
        lemma_be_zero(out@.subrange(0, idx as int));
        lemma_be_append(out@.subrange(0, idx as int), out@.subrange(idx as int, total as int));
    }
    r
}

// ---------------------------------------------------------------------------
// The variable-length integer codec.
// ---------------------------------------------------------------------------

/// Decodes big-endian two's-complement bytes into the host's sign-and-words
/// form.  Total: every byte string reads as some number.
pub fn varint_decode(bytes: &[u8]) -> (r: HostBigInt)
    ensures
        r.canonical(),
        r.value() == twos_complement_value(bytes@),
{
    if bytes.len() == 0 {
        return HostBigInt { sign_bit: false, words: Vec::new() };
    }
    if bytes[0] >= 128 {
        proof {
            assert(bytes@ =~= bytes@.subrange(0, 1) + bytes@.skip(1));
            lemma_be_append(bytes@.subrange(0, 1), bytes@.skip(1));
            lemma_pow256_pos(bytes@.skip(1).len() as nat);
            assert(be_value(bytes@.subrange(0, 1)) == bytes@[0] as nat) by {
                lemma_be_single(bytes@[0]);
                assert(bytes@.subrange(0, 1) =~= seq![bytes@[0]]);
            };
            assert(be_value(bytes@.subrange(0, 1)) * pow256(bytes@.skip(1).len() as nat)
                >= 128) by (nonlinear_arith)
                requires
                    be_value(bytes@.subrange(0, 1)) >= 128,
                    pow256(bytes@.skip(1).len() as nat) >= 1,
            ;
            lemma_be_bound(bytes@);
        }
        let mag = negate_be_bytes(bytes);
        let words = words_from_be(&mag);
        proof {
            if words@.len() == 0 {
                assert(words_value(words@) == 0);
            } else {
                lemma_words_value_pos(words@, words@.len() - 1);
            }
        }
        HostBigInt { sign_bit: true, words }
    } else {
        let words = words_from_be(bytes);
        HostBigInt { sign_bit: false, words }
    }
}

/// Encodes the host's sign-and-words form as big-endian two's-complement
/// bytes.
pub fn varint_encode(h: &HostBigInt) -> (r: Vec<u8>)
    requires
        h.canonical(),
    ensures
        r@.len() >= 1,
        twos_complement_value(r@) == h.value(),
{
    let mag = be_bytes_from_words(&h.words);
    if !h.sign_bit {
        if mag.len() == 0 {
            let mut r: Vec<u8> = Vec::new();
            r.push(0);
            proof {
                lemma_be_single(0);
                assert(r@ =~= seq![0u8]);
            }
            r
        } else if mag[0] >= 128 {
            let mut r: Vec<u8> = Vec::new();
            r.push(0);
            let ghost head = r@;
            let mut tail = mag;
            proof {
                lemma_be_single(0);
                assert(head =~= seq![0u8]);
                lemma_be_append(head, tail@);
            }
            r.append(&mut tail);
            r
        } else {
            mag
        }
    } else {
        proof {
            lemma_words_value_pos(h.words@, h.words@.len() - 1);
            if mag@.len() == 0 {
                assert(be_value(mag@) == 0);
            }
        }
        let tc = negate_be_bytes(&mag);
        proof {
            lemma_be_bound(mag@);
        }
        if tc[0] >= 128 {
            tc
        } else {
            let mut r: Vec<u8> = Vec::new();
            r.push(255);
            let ghost head = r@;
            let mut tail = tc;
            proof {
                lemma_be_single(255);
                assert(head =~= seq![255u8]);
                lemma_be_append(head, tail@);
            }
            r.append(&mut tail);
            r
        }
    }
}

// ---------------------------------------------------------------------------
// The decimal codec: a four-byte big-endian exponent prefix followed by the
// two's-complement magnitude bytes.
// ---------------------------------------------------------------------------

/// Reads a four-byte big-endian number.
fn read_be_u32(b: &[u8]) -> (r: u32)
    requires
        b@.len() >= 4,
    ensures
        r as nat == be_value(b@.take(4)),
{
    proof {
        reveal_with_fuel(pow256, 5);
    }
    let mut w: u32 = 0;
    let mut i: usize = 0;
    while i < 4
        invariant
            0 <= i <= 4,
            b@.len() >= 4,
            w as nat == be_value(b@.take(i as int)),
            (w as nat) < pow256(i as nat),
            pow256(4) == 0x1_0000_0000,
        decreases 4 - i,
    {
        proof {
            assert(b@.take(i as int + 1).drop_last() =~= b@.take(i as int));
            lemma_pow256_pos(i as nat);
            lemma_pow256_le(i as nat, 3);
            assert(pow256(3) == 0x100_0000) by {
                reveal_with_fuel(pow256, 5);
            };
        }
        w = w * 256 + (b[i] as u32);
        i = i + 1;
    }
    w
}

/// The first byte of four carries the sign: the number is at least half the
/// four-byte range exactly when the first byte has its high bit set.
proof fn lemma_be4_sign(s: Seq<u8>)
    requires
        s.len() == 4,
    ensures
        (s[0] >= 128) <==> be_value(s) >= 0x8000_0000,
{
    reveal_with_fuel(pow256, 5);
    assert(s =~= seq![s[0]] + s.skip(1));
    lemma_be_single(s[0]);
    lemma_be_append(seq![s[0]], s.skip(1));
    lemma_be_bound(s.skip(1));
    assert(pow256(3) == 0x100_0000);
    assert(be_value(s) == s[0] as nat * pow256(3) + be_value(s.skip(1)));
    assert(s[0] as nat * pow256(3) == s[0] as nat * 0x100_0000) by (nonlinear_arith)
        requires
            pow256(3) == 0x100_0000,
    ;
}

/// Decodes a decimal wire value: a four-byte big-endian exponent, then the
/// magnitude as two's-complement bytes.  Fails exactly on a buffer shorter
/// than the exponent prefix.
pub fn decimal_decode(buf: &[u8]) -> (r: Result<(i32, HostBigInt), crate::errors::CodecError>)
    ensures
        match r {
            Ok((e, h)) => {
                &&& buf@.len() >= 4
                &&& e as int == twos_complement_value(buf@.take(4))
                &&& h.canonical()
                &&& h.value() == twos_complement_value(buf@.skip(4))
            },
            Err(er) => buf@.len() < 4 && er.kind == crate::errors::ErrorKind::Protocol,
        },
{
    if buf.len() < 4 {
        return Err(
            crate::errors::CodecError::new(
                crate::errors::ErrorKind::Protocol,
                "decimal buffer shorter than its exponent prefix",
            ),
        );
    }
    let u = read_be_u32(buf);
    proof {
        lemma_be4_sign(buf@.take(4));
        lemma_be_bound(buf@.take(4));
        reveal_with_fuel(pow256, 5);
    }
    let e: i32 = if u >= 0x8000_0000 {
        ((u as i64) - 0x1_0000_0000) as i32
    } else {
        u as i32
    };
    let rest = vstd::slice::slice_subrange(buf, 4, buf.len());
    let h = varint_decode(rest);
    proof {
        assert(rest@ =~= buf@.skip(4));
    }
    Ok((e, h))
}

/// Encodes an (exponent, magnitude) decimal pair as its wire bytes: the
/// exponent as four big-endian bytes, then the magnitude as two's-complement
/// bytes.
pub fn decimal_encode(exponent: i32, value: &HostBigInt) -> (r: Vec<u8>)
    requires
        value.canonical(),
    ensures
        r@.len() >= 5,
        twos_complement_value(r@.take(4)) == exponent as int,
        twos_complement_value(r@.skip(4)) == value.value(),
{
    proof {
        reveal_with_fuel(pow256, 5);
    }
    let u: u32 = if exponent >= 0 {
        exponent as u32
    } else {
        ((exponent as i64) + 0x1_0000_0000) as u32
    };
    let mut out = be_bytes_of(u as u64, 4);
    let ghost head = out@;
    let mut tail = varint_encode(value);
    let ghost tail0 = tail@;
    proof {
        lemma_be4_sign(head);
    }
    out.append(&mut tail);
    proof {
        assert(out@.take(4) =~= head);
        assert(out@.skip(4) =~= tail0);
    }
    out
}

/// The decimal round trip: whatever buffer the encoder emits for an
/// (exponent, magnitude) pair, any reading of that buffer by the decoder's
/// contract yields the identical pair back.
pub proof fn lemma_decimal_round_trip(
    e: int,
    h: HostBigInt,
    buf: Seq<u8>,
    e2: int,
    h2: HostBigInt,
)
    requires
        h.canonical(),
        twos_complement_value(buf.take(4)) == e,
        twos_complement_value(buf.skip(4)) == h.value(),
        h2.canonical(),
        e2 == twos_complement_value(buf.take(4)),
        h2.value() == twos_complement_value(buf.skip(4)),
    ensures
        e2 == e,
        h2.sign_bit == h.sign_bit,
        h2.words@ == h.words@,
{
    lemma_canonical_value_unique(h2, h);
}

/// The variable-length integer round trip: whatever byte string the encoder
/// emits for a canonical sign-and-words value, any canonical reading of that
/// byte string is the value itself.  With `varint_encode`'s and
/// `varint_decode`'s contracts this says that decoding an encoded value
/// returns it unchanged, in both sign directions.
pub proof fn lemma_varint_round_trip(h: HostBigInt, bytes: Seq<u8>, back: HostBigInt)
    requires
        h.canonical(),
        twos_complement_value(bytes) == h.value(),
        back.canonical(),
        back.value() == twos_complement_value(bytes),
    ensures
        back.sign_bit == h.sign_bit,
        back.words@ == h.words@,
{
    lemma_canonical_value_unique(back, h);
}

} // verus!
