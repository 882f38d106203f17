use vstd::prelude::*;
use vstd::string::StringExecFns;

verus! {

// ---------------------------------------------------------------------------
// Decimal digits as text: specification.
// ---------------------------------------------------------------------------

/// The character of one decimal digit.
pub open spec fn digit_char(d: int) -> char {
    if d == 0 {
        '0'
    } else if d == 1 {
        '1'
    } else if d == 2 {
        '2'
    } else if d == 3 {
        '3'
    } else if d == 4 {
        '4'
    } else if d == 5 {
        '5'
    } else if d == 6 {
        '6'
    } else if d == 7 {
        '7'
    } else if d == 8 {
        '8'
    } else {
        '9'
    }
}

/// The decimal digits of a non-negative number, most significant first,
/// without leading zeros (zero itself prints as one digit).
pub open spec fn dec_digits(n: int) -> Seq<char>
    decreases n,
{
    if n < 10 {
        seq![digit_char(n)]
    } else {
        dec_digits(n / 10).push(digit_char(n % 10))
    }
}

/// A run of zero characters.
pub open spec fn zeros(k: int) -> Seq<char>
    decreases k,
{
    if k <= 0 {
        Seq::empty()
    } else {
        zeros(k - 1).push('0')
    }
}

/// Digits left-padded with zeros to at least `k` characters.
pub open spec fn padded_digits(n: int, k: int) -> Seq<char> {
    zeros(k - dec_digits(n).len()) + dec_digits(n)
}

/// How many digits a number prints with.
pub proof fn lemma_dec_digits_len(n: int)
    requires
        0 <= n,
    ensures
        dec_digits(n).len() >= 1,
        n < 10 ==> dec_digits(n).len() == 1,
        10 <= n < 100 ==> dec_digits(n).len() == 2,
        100 <= n < 1000 ==> dec_digits(n).len() == 3,
        1000 <= n ==> dec_digits(n).len() >= 4,
    decreases n,
{
    if n >= 10 {
        lemma_dec_digits_len(n / 10);
        if n >= 1000 {
            assert(n / 10 >= 100) by {
                vstd::arithmetic::div_mod::lemma_fundamental_div_mod(n, 10);
            };
        }
    }
}

// ---------------------------------------------------------------------------
// Decimal digits as text: executable construction.
// ---------------------------------------------------------------------------

/// Appends one decimal digit character.
pub fn append_digit(s: &mut String, d: u8)
    requires
        d < 10,
    ensures
        final (s)@ == old(s)@ + seq![digit_char(d as int)],
{
    proof {
        reveal_strlit("0");
        reveal_strlit("1");
        reveal_strlit("2");
        reveal_strlit("3");
        reveal_strlit("4");
        reveal_strlit("5");
        reveal_strlit("6");
        reveal_strlit("7");
        reveal_strlit("8");
        reveal_strlit("9");
    }
    match d {
        0 => s.append("0"),
        1 => s.append("1"),
        2 => s.append("2"),
        3 => s.append("3"),
        4 => s.append("4"),
        5 => s.append("5"),
        6 => s.append("6"),
        7 => s.append("7"),
        8 => s.append("8"),
        _ => s.append("9"),
    }
    proof {
        assert(final (s)@ =~= old(s)@ + seq![digit_char(d as int)]);
    }
}

/// Appends the decimal digits of a number, most significant first.
pub fn append_number(s: &mut String, n: u64)
    ensures
        final (s)@ == old(s)@ + dec_digits(n as int),
    decreases n,
{
    if n < 10 {
        append_digit(s, n as u8);
    } else {
        append_number(s, n / 10);
        append_digit(s, (n % 10) as u8);
        proof {
            assert(final (s)@ =~= old(s)@ + dec_digits(n as int));
        }
    }
}

/// Appends `k` zero characters.
pub fn append_zeros(s: &mut String, k: u64)
    ensures
        final (s)@ == old(s)@ + zeros(k as int),
    decreases k,
{
    if k > 0 {
        append_zeros(s, k - 1);
        append_digit(s, 0);
        proof {
            assert(zeros(k as int).drop_last() =~= zeros(k as int - 1));
            assert(final (s)@ =~= old(s)@ + zeros(k as int));
        }
    }
}

/// Appends the decimal digits of a number, zero-padded to at least `k`
/// characters.
pub fn append_padded_number(s: &mut String, n: u64, k: u64)
    requires
        k <= 9,
    ensures
        final (s)@ == old(s)@ + padded_digits(n as int, k as int),
{
    proof {
        lemma_dec_digits_len(n as int);
    }
    let width: u64 = if n < 10 {
        1
    } else if n < 100 {
        2
    } else if n < 1000 {
        3
    } else if n < 10_000 {
        4
    } else if n < 100_000 {
        5
    } else if n < 1_000_000 {
        6
    } else if n < 10_000_000 {
        7
    } else if n < 100_000_000 {
        8
    } else {
        9
    };
    proof {
        if n >= 10_000 {
            assert(dec_digits(n as int).len() >= 4);
        }
        lemma_dec_digits_len_wide(n as int);
    }
    if width < k {
        append_zeros(s, k - width);
    }
    append_number(s, n);
    proof {
        assert(final (s)@ =~= old(s)@ + padded_digits(n as int, k as int));
    }
}

/// Digit counts up to nine digits.
pub proof fn lemma_dec_digits_len_wide(n: int)
    requires
        0 <= n,
    ensures
        1000 <= n < 10_000 ==> dec_digits(n).len() == 4,
        10_000 <= n < 100_000 ==> dec_digits(n).len() == 5,
        100_000 <= n < 1_000_000 ==> dec_digits(n).len() == 6,
        1_000_000 <= n < 10_000_000 ==> dec_digits(n).len() == 7,
        10_000_000 <= n < 100_000_000 ==> dec_digits(n).len() == 8,
        100_000_000 <= n < 1_000_000_000 ==> dec_digits(n).len() == 9,
        1_000_000_000 <= n ==> dec_digits(n).len() >= 10,
    decreases n,
{
    lemma_dec_digits_len(n);
    if n >= 1000 {
        lemma_dec_digits_len(n / 10);
        lemma_dec_digits_len_wide(n / 10);
        vstd::arithmetic::div_mod::lemma_fundamental_div_mod(n, 10);
    }
}

// ---------------------------------------------------------------------------
// Trailing zeros of fractional digits.
// ---------------------------------------------------------------------------

/// The text without its trailing zero characters.
pub open spec fn strip_trailing_zeros(s: Seq<char>) -> Seq<char>
    decreases s.len(),
{
    if s.len() > 0 && s.last() == '0' {
        strip_trailing_zeros(s.drop_last())
    } else {
        s
    }
}

/// Zero runs are all zero characters.
pub proof fn lemma_zeros_index(k: int)
    ensures
        zeros(k).len() == (if k >= 0 { k } else { 0 }),
        forall|i: int| 0 <= i < zeros(k).len() ==> zeros(k)[i] == '0',
    decreases k,
{
    if k > 0 {
        lemma_zeros_index(k - 1);
    }
}

/// Trailing zeros vanish under stripping.
pub proof fn lemma_strip_append_zeros(s: Seq<char>, k: int)
    requires
        k >= 0,
    ensures
        strip_trailing_zeros(s + zeros(k)) == strip_trailing_zeros(s),
    decreases k,
{
    if k == 0 {
        assert(s + zeros(0) =~= s);
    } else {
        lemma_zeros_index(k);
        assert((s + zeros(k)).last() == '0');
        assert((s + zeros(k)).drop_last() =~= s + zeros(k - 1));
        lemma_strip_append_zeros(s, k - 1);
    }
}

/// Multiplying by ten appends a zero digit.
pub proof fn lemma_dec_digits_times10(a: int)
    requires
        a >= 1,
    ensures
        dec_digits(10 * a) == dec_digits(a).push('0'),
{
    vstd::arithmetic::div_mod::lemma_fundamental_div_mod_converse(10 * a, 10, a, 0);
}

/// The last digit of a number's text is its ones digit.
pub proof fn lemma_dec_digits_last(n: int)
    requires
        n >= 0,
    ensures
        dec_digits(n).len() >= 1,
        dec_digits(n).last() == digit_char(n % 10),
{
    lemma_dec_digits_len(n);
    if n < 10 {
        vstd::arithmetic::div_mod::lemma_fundamental_div_mod_converse(n, 10, 0, n);
    }
}

// ---------------------------------------------------------------------------
// Digit text as numbers: specification and executable parsing.
// ---------------------------------------------------------------------------

/// Whether every byte of the text is an ASCII decimal digit.
pub open spec fn is_digits(s: Seq<u8>) -> bool {
    forall|i: int| 0 <= i < s.len() ==> 48 <= #[trigger] s[i] <= 57
}

/// The number written by a run of ASCII digits, leading zeros allowed.
pub open spec fn digits_value(s: Seq<u8>) -> int
    decreases s.len(),
{
    if s.len() == 0 {
        0
    } else {
        digits_value(s.drop_last()) * 10 + (s.last() - 48)
    }
}

/// Digit runs write non-negative numbers.
pub proof fn lemma_digits_value_nonneg(s: Seq<u8>)
    requires
        is_digits(s),
    ensures
        digits_value(s) >= 0,
    decreases s.len(),
{
    if s.len() > 0 {
        lemma_digits_value_nonneg(s.drop_last());
    }
}

/// Reads the number written in `b` between `lo` and `hi`, refusing an empty
/// run, a non-digit byte, and a value above `cap`.
pub fn parse_digits(b: &[u8], lo: usize, hi: usize, cap: u64) -> (r: Option<u64>)
    requires
        lo <= hi <= b@.len(),
        cap <= 1_000_000_000_000_000_000,
    ensures
        ({
            let seg = b@.subrange(lo as int, hi as int);
            match r {
                Some(v) => lo < hi && is_digits(seg) && v == digits_value(seg) && v <= cap,
                None => !(lo < hi && is_digits(seg) && digits_value(seg) <= cap),
            }
        }),
{
    if lo >= hi {
        return None;
    }
    let ghost seg = b@.subrange(lo as int, hi as int);
    let mut acc: u64 = 0;
    let mut i: usize = lo;
    while i < hi
        invariant
            lo <= i <= hi <= b@.len(),
            seg == b@.subrange(lo as int, hi as int),
            is_digits(b@.subrange(lo as int, i as int)),
            acc as int == digits_value(b@.subrange(lo as int, i as int)),
            acc <= cap,
            cap <= 1_000_000_000_000_000_000,
        decreases hi - i,
    {
        let c = b[i];
        if c < 48 || c > 57 {
            proof {
                assert(seg[i - lo] == c);
            }
            return None;
        }
        proof {
            assert(b@.subrange(lo as int, i as int + 1).drop_last() =~= b@.subrange(
                lo as int,
                i as int,
            ));
            lemma_digits_value_nonneg(b@.subrange(lo as int, i as int));
        }
        let next: u64 = acc * 10 + (c - 48) as u64;
        if next > cap {
            proof {
                if is_digits(seg) {
                    assert(seg.take(i + 1 - lo) =~= b@.subrange(lo as int, i as int + 1));
                    lemma_digits_prefix_monotone(seg, i + 1 - lo);
                }
            }
            return None;
        }
        acc = next;
        i = i + 1;
    }
    proof {
        assert(b@.subrange(lo as int, i as int) =~= seg);
    }
    Some(acc)
}

/// Extending a digit run cannot shrink the number it writes.
proof fn lemma_digits_prefix_monotone(s: Seq<u8>, k: int)
    requires
        0 <= k <= s.len(),
        is_digits(s),
    ensures
        digits_value(s) >= digits_value(s.take(k)),
    decreases s.len() - k,
{
    if k == s.len() {
        assert(s.take(k) =~= s);
    } else {
        lemma_digits_prefix_monotone(s, k + 1);
        assert(s.take(k + 1).drop_last() =~= s.take(k));
        lemma_digits_value_nonneg(s.take(k));
    }
}

// ---------------------------------------------------------------------------
// Separated fields.
// ---------------------------------------------------------------------------

/// How many bytes of the text equal the separator.
pub open spec fn sep_count(s: Seq<u8>, sep: u8) -> int
    decreases s.len(),
{
    if s.len() == 0 {
        0
    } else {
        sep_count(s.drop_last(), sep) + if s.last() == sep {
            1int
        } else {
            0int
        }
    }
}

/// Counts the bytes of `b` that equal `sep`.
pub fn count_sep(b: &[u8], sep: u8) -> (r: usize)
    ensures
        r as int == sep_count(b@, sep),
{
    let mut cnt: usize = 0;
    let mut i: usize = 0;
    while i < b.len()
        invariant
            0 <= i <= b@.len(),
            cnt as int == sep_count(b@.take(i as int), sep),
            cnt <= i,
        decreases b@.len() - i,
    {
        proof {
            assert(b@.take(i as int + 1).drop_last() =~= b@.take(i as int));
        }
        if b[i] == sep {
            cnt = cnt + 1;
        }
        i = i + 1;
    }
    proof {
        assert(b@.take(b@.len() as int) =~= b@);
    }
    cnt
}

/// The position of the first separator, or the length if there is none.
pub open spec fn first_sep(s: Seq<u8>, sep: u8) -> int
    decreases s.len(),
{
    if s.len() == 0 {
        0
    } else if s[0] == sep {
        0
    } else {
        1 + first_sep(s.skip(1), sep)
    }
}

/// The first separator is where no earlier byte is a separator.
pub proof fn lemma_first_sep_at(s: Seq<u8>, sep: u8, i: int)
    requires
        0 <= i <= s.len(),
        forall|k: int| 0 <= k < i ==> #[trigger] s[k] != sep,
        i < s.len() ==> s[i] == sep,
    ensures
        first_sep(s, sep) == i,
    decreases i,
{
    if s.len() > 0 && s[0] != sep {
        lemma_first_sep_at(s.skip(1), sep, i - 1);
    }
}

/// The fields of the text between its separators.
pub open spec fn split_on(s: Seq<u8>, sep: u8) -> Seq<Seq<u8>>
    decreases s.len(),
{
    let i = first_sep(s, sep);
    if i < 0 || i >= s.len() {
        seq![s]
    } else {
        seq![s.take(i)] + split_on(s.skip(i + 1), sep)
    }
}

/// There is one more field than separators.
pub proof fn lemma_split_on_len(s: Seq<u8>, sep: u8)
    ensures
        split_on(s, sep).len() == sep_count(s, sep) + 1,
    decreases s.len(),
{
    let i = first_sep(s, sep);
    lemma_first_sep_bounds(s, sep);
    if i == s.len() {
        lemma_sep_count_none(s, sep);
    } else {
        lemma_split_on_len(s.skip(i + 1), sep);
        lemma_sep_count_parts(s, sep, i);
    }
}

/// The first separator lies within the text, and nothing before it is a
/// separator.
pub proof fn lemma_first_sep_bounds(s: Seq<u8>, sep: u8)
    ensures
        0 <= first_sep(s, sep) <= s.len(),
        forall|k: int| 0 <= k < first_sep(s, sep) ==> #[trigger] s[k] != sep,
        first_sep(s, sep) < s.len() ==> s[first_sep(s, sep)] == sep,
    decreases s.len(),
{
    if s.len() > 0 && s[0] != sep {
        lemma_first_sep_bounds(s.skip(1), sep);
        assert forall|k: int| 0 <= k < first_sep(s, sep) implies #[trigger] s[k] != sep by {
            if k >= 1 {
                assert(s[k] == s.skip(1)[k - 1]);
            }
        }
    }
}

/// Separator counts are never negative.
pub proof fn lemma_sep_count_nonneg(s: Seq<u8>, sep: u8)
    ensures
        sep_count(s, sep) >= 0,
    decreases s.len(),
{
    if s.len() > 0 {
        lemma_sep_count_nonneg(s.drop_last(), sep);
    }
}

/// Dropping the first byte drops its contribution to the separator count.
pub proof fn lemma_sep_count_skip1(s: Seq<u8>, sep: u8)
    requires
        s.len() > 0,
    ensures
        sep_count(s, sep) == sep_count(s.skip(1), sep) + if s[0] == sep {
            1int
        } else {
            0int
        },
    decreases s.len(),
{
    if s.len() == 1 {
        assert(s.skip(1) =~= Seq::<u8>::empty());
        assert(s.drop_last() =~= Seq::<u8>::empty());
    } else {
        lemma_sep_count_skip1(s.drop_last(), sep);
        assert(s.skip(1).drop_last() =~= s.drop_last().skip(1));
    }
}

/// The separator count splits around any separator occurrence.
pub proof fn lemma_sep_count_split(s: Seq<u8>, sep: u8, i: int)
    requires
        0 <= i < s.len(),
        s[i] == sep,
    ensures
        sep_count(s, sep) == sep_count(s.take(i), sep) + 1 + sep_count(s.skip(i + 1), sep),
    decreases s.len(),
{
    if i + 1 == s.len() {
        assert(s.drop_last() =~= s.take(i));
        assert(s.skip(i + 1) =~= Seq::<u8>::empty());
    } else {
        assert(s.drop_last()[i] == sep);
        lemma_sep_count_split(s.drop_last(), sep, i);
        assert(s.drop_last().take(i) =~= s.take(i));
        assert(s.drop_last().skip(i + 1) =~= s.skip(i + 1).drop_last());
    }
}

/// Two separator occurrences make the count at least two.
pub proof fn lemma_sep_count_two(s: Seq<u8>, sep: u8, i: int, j: int)
    requires
        0 <= i < j < s.len(),
        s[i] == sep,
        s[j] == sep,
    ensures
        sep_count(s, sep) >= 2,
{
    lemma_sep_count_split(s, sep, j);
    assert(s.take(j)[i] == sep);
    lemma_sep_count_split(s.take(j), sep, i);
    lemma_sep_count_nonneg(s.take(j).take(i), sep);
    lemma_sep_count_nonneg(s.take(j).skip(i + 1), sep);
    lemma_sep_count_nonneg(s.skip(j + 1), sep);
}

/// Three separator occurrences make the count at least three.
pub proof fn lemma_sep_count_three(s: Seq<u8>, sep: u8, i: int, j: int, k: int)
    requires
        0 <= i < j < k < s.len(),
        s[i] == sep,
        s[j] == sep,
        s[k] == sep,
    ensures
        sep_count(s, sep) >= 3,
{
    lemma_sep_count_split(s, sep, k);
    assert(s.take(k)[i] == sep);
    assert(s.take(k)[j] == sep);
    lemma_sep_count_two(s.take(k), sep, i, j);
    lemma_sep_count_nonneg(s.skip(k + 1), sep);
}

/// Powers of ten: the weight of a digit position.
pub open spec fn tens(k: int) -> int
    decreases k,
{
    if k <= 0 {
        1
    } else {
        10 * tens(k - 1)
    }
}

/// A digit run writes less than the weight just past its end.
pub proof fn lemma_digits_value_bound(s: Seq<u8>)
    requires
        is_digits(s),
    ensures
        digits_value(s) < tens(s.len() as int),
    decreases s.len(),
{
    if s.len() > 0 {
        lemma_digits_value_bound(s.drop_last());
    }
}

/// A text with no separator counts zero separators.
pub proof fn lemma_sep_count_none(s: Seq<u8>, sep: u8)
    requires
        forall|k: int| 0 <= k < s.len() ==> #[trigger] s[k] != sep,
    ensures
        sep_count(s, sep) == 0,
    decreases s.len(),
{
    if s.len() > 0 {
        lemma_sep_count_none(s.drop_last(), sep);
    }
}

/// Separator counts add over a split at a separator.
proof fn lemma_sep_count_parts(s: Seq<u8>, sep: u8, i: int)
    requires
        0 <= i < s.len(),
        s[i] == sep,
        forall|k: int| 0 <= k < i ==> #[trigger] s[k] != sep,
    ensures
        sep_count(s, sep) == 1 + sep_count(s.skip(i + 1), sep),
    decreases s.len(),
{
    if i + 1 == s.len() {
        assert(s.drop_last() =~= s.take(i));
        lemma_sep_count_none(s.take(i), sep);
    } else {
        assert(s.drop_last()[i] == sep);
        lemma_sep_count_parts(s.drop_last(), sep, i);
        assert(s.drop_last().skip(i + 1) =~= s.skip(i + 1).drop_last());
    }
}

/// Splitting a text whose only separators are at `d1 < d2` yields exactly
/// the three fields around them.
pub proof fn lemma_split_two(s: Seq<u8>, sep: u8, d1: int, d2: int)
    requires
        0 <= d1 < d2 < s.len(),
        s[d1] == sep,
        s[d2] == sep,
        forall|k: int| 0 <= k < s.len() && #[trigger] s[k] == sep ==> k == d1 || k == d2,
    ensures
        split_on(s, sep) == seq![
            s.subrange(0, d1),
            s.subrange(d1 + 1, d2),
            s.subrange(d2 + 1, s.len() as int),
        ],
{
    lemma_first_sep_at(s, sep, d1);
    let t = s.skip(d1 + 1);
    assert forall|k: int| 0 <= k < d2 - d1 - 1 implies #[trigger] t[k] != sep by {
        assert(t[k] == s[d1 + 1 + k]);
    }
    assert(t[d2 - d1 - 1] == s[d2]);
    lemma_first_sep_at(t, sep, d2 - d1 - 1);
    let u = t.skip(d2 - d1);
    assert forall|k: int| 0 <= k < u.len() implies #[trigger] u[k] != sep by {
        assert(u[k] == s[d2 + 1 + k]);
    }
    lemma_first_sep_at(u, sep, u.len() as int);
    assert(t.take(d2 - d1 - 1) =~= s.subrange(d1 + 1, d2));
    assert(u =~= s.subrange(d2 + 1, s.len() as int));
    assert(s.take(d1) =~= s.subrange(0, d1));
    assert(split_on(u, sep) =~= seq![u]);
    assert(split_on(t, sep) =~= seq![t.take(d2 - d1 - 1)] + split_on(u, sep));
    assert(split_on(s, sep) =~= seq![s.take(d1)] + split_on(t, sep));
    assert(split_on(s, sep) =~= seq![
        s.subrange(0, d1),
        s.subrange(d1 + 1, d2),
        s.subrange(d2 + 1, s.len() as int),
    ]);
}

/// Splitting a text with a single separator at `d1` yields the two fields
/// around it.
pub proof fn lemma_split_one(s: Seq<u8>, sep: u8, d1: int)
    requires
        0 <= d1 < s.len(),
        s[d1] == sep,
        forall|k: int| 0 <= k < s.len() && #[trigger] s[k] == sep ==> k == d1,
    ensures
        split_on(s, sep) == seq![s.subrange(0, d1), s.subrange(d1 + 1, s.len() as int)],
{
    lemma_first_sep_at(s, sep, d1);
    let t = s.skip(d1 + 1);
    assert forall|k: int| 0 <= k < t.len() implies #[trigger] t[k] != sep by {
        assert(t[k] == s[d1 + 1 + k]);
    }
    lemma_first_sep_at(t, sep, t.len() as int);
    assert(t =~= s.subrange(d1 + 1, s.len() as int));
    assert(s.take(d1) =~= s.subrange(0, d1));
    assert(split_on(t, sep) =~= seq![t]);
    assert(split_on(s, sep) =~= seq![s.take(d1)] + split_on(t, sep));
    assert(split_on(s, sep) =~= seq![s.subrange(0, d1), s.subrange(d1 + 1, s.len() as int)]);
}

/// Splitting a text with no separator yields the text as its only field.
pub proof fn lemma_split_none(s: Seq<u8>, sep: u8)
    requires
        forall|k: int| 0 <= k < s.len() ==> #[trigger] s[k] != sep,
    ensures
        split_on(s, sep) == seq![s],
{
    lemma_first_sep_at(s, sep, s.len() as int);
}

/// The position of the first separator at or after `from`, or the length if
/// there is none.
pub fn find_sep(b: &[u8], from: usize, sep: u8) -> (r: usize)
    requires
        from <= b@.len(),
    ensures
        from <= r <= b@.len(),
        forall|k: int| from <= k < r ==> #[trigger] b@[k] != sep,
        r < b@.len() ==> b@[r as int] == sep,
{
    let mut i: usize = from;
    while i < b.len()
        invariant
            from <= i <= b@.len(),
            forall|k: int| from <= k < i ==> #[trigger] b@[k] != sep,
        decreases b@.len() - i,
    {
        if b[i] == sep {
            return i;
        }
        i = i + 1;
    }
    i
}

} // verus!
