use vstd::prelude::*;
use vstd::arithmetic::div_mod::lemma_fundamental_div_mod;
use vstd::string::{StringExecFns, StringSliceAdditionalSpecFns};

use crate::bignum::{bigint_to_i64, HostBigInt};
use crate::errors::ConvertedError;
use crate::text::{
    append_number, append_padded_number, append_zeros, count_sep, dec_digits, digits_value,
    find_sep, is_digits, lemma_dec_digits_last, lemma_dec_digits_len, lemma_dec_digits_len_wide,
    lemma_dec_digits_times10, lemma_sep_count_none, lemma_split_none, lemma_split_one,
    lemma_split_two, lemma_strip_append_zeros, lemma_zeros_index, padded_digits, parse_digits,
    sep_count, split_on, strip_trailing_zeros, tens, zeros,
};

verus! {

/// Nanoseconds in one day.
pub const NANOS_IN_DAY: i64 = 86_400_000_000_000;

/// A time of day in both of its host representations: the nanosecond count
/// since midnight, and the decomposed clock fields.
pub struct LocalTimeWrapper {
    /// The nanosecond count as the host's big integer.
    pub value: HostBigInt,
    pub hour: i64,
    pub minute: i64,
    pub second: i64,
    pub nanosecond: i64,
    /// The nanosecond count since midnight.
    pub ns_value: i64,
}

impl LocalTimeWrapper {
    /// The clock fields decompose the nanosecond count: each field is in its
    /// clock range and recombining them yields the count again.
    pub open spec fn wf(&self) -> bool {
        &&& 0 <= self.ns_value < NANOS_IN_DAY
        &&& 0 <= self.hour < 24
        &&& 0 <= self.minute < 60
        &&& 0 <= self.second < 60
        &&& 0 <= self.nanosecond < 1_000_000_000
        &&& ((self.hour * 60 + self.minute) * 60 + self.second) * 1_000_000_000 + self.nanosecond
            == self.ns_value
        &&& self.value.value() == self.ns_value as int
        &&& self.value.canonical()
    }

    /// Decomposes a nanosecond-of-day count into clock fields.
    pub fn convert_to_object(ns_value: i64) -> (r: Self)
        requires
            0 <= ns_value < NANOS_IN_DAY,
        ensures
            r.wf(),
            r.ns_value == ns_value,
    {
        let total: u64 = ns_value as u64;
        let sec_total: u64 = total / 1_000_000_000;
        let nanosecond: u64 = total % 1_000_000_000;
        let min_total: u64 = sec_total / 60;
        let second: u64 = sec_total % 60;
        let hour: u64 = min_total / 60;
        let minute: u64 = min_total % 60;
        proof {
            lemma_fundamental_div_mod(total as int, 1_000_000_000);
            lemma_fundamental_div_mod(sec_total as int, 60);
            lemma_fundamental_div_mod(min_total as int, 60);
        }
        LocalTimeWrapper {
            value: HostBigInt::from_i64(ns_value),
            hour: hour as i64,
            minute: minute as i64,
            second: second as i64,
            nanosecond: nanosecond as i64,
            ns_value,
        }
    }

    /// The nanosecond count as a host big integer.
    pub fn get_value(&self) -> (r: HostBigInt)
        ensures
            r.sign_bit == self.value.sign_bit,
            r.words@ == self.value.words@,
    {
        HostBigInt { sign_bit: self.value.sign_bit, words: clone_words(&self.value.words) }
    }

    /// Builds a time of day from a host big integer holding the nanosecond
    /// count.  Rejects a count that overflows sixty-four bits or lies
    /// outside the day.
    pub fn new(total_nanoseconds: &HostBigInt) -> (r: Result<LocalTimeWrapper, ConvertedError>)
        ensures
            match r {
                Ok(w) => {
                    &&& w.wf()
                    &&& w.ns_value as int == total_nanoseconds.value()
                },
                Err(_) => !(0 <= total_nanoseconds.value() < NANOS_IN_DAY),
            },
    {
        let ns_value = match bigint_to_i64(total_nanoseconds, "Nanoseconds must not overflow i64") {
            Ok(v) => v,
            Err(e) => {
                return Err(e);
            },
        };
        if ns_value < 0 || ns_value >= NANOS_IN_DAY {
            return Err(
                ConvertedError::new("RangeError", "Nanoseconds out of range for a time of day"),
            );
        }
        Ok(Self::convert_to_object(ns_value))
    }

    /// The driver's time value: the nanosecond count.
    pub fn get_cql_time(&self) -> (r: scylla::value::CqlTime)
        ensures
            r.0 == self.ns_value,
    {
        scylla::value::CqlTime(self.ns_value)
    }

    /// Builds the wrapper from the driver's time value.
    pub fn from_cql_time(time: scylla::value::CqlTime) -> (r: Self)
        requires
            0 <= time.0 < NANOS_IN_DAY,
        ensures
            r.wf(),
            r.ns_value == time.0,
    {
        Self::convert_to_object(time.0)
    }

    /// The canonical text of this time: `HH:MM:SS`, and when the nanosecond
    /// field is nonzero a dot followed by its nine zero-padded digits with
    /// the trailing zeros removed.
    pub open spec fn to_format_spec(&self) -> Seq<char> {
        padded_digits(self.hour as int, 2) + seq![':'] + padded_digits(self.minute as int, 2)
            + seq![':'] + padded_digits(self.second as int, 2) + (if self.nanosecond > 0 {
            seq!['.'] + strip_trailing_zeros(padded_digits(self.nanosecond as int, 9))
        } else {
            Seq::<char>::empty()
        })
    }

    /// Formats the time as text.
    pub fn to_format(&self) -> (r: String)
        requires
            self.wf(),
        ensures
            r@ == self.to_format_spec(),
    {
        let mut s = String::new();
        append_padded_number(&mut s, self.hour as u64, 2);
        append_colon(&mut s);
        append_padded_number(&mut s, self.minute as u64, 2);
        append_colon(&mut s);
        append_padded_number(&mut s, self.second as u64, 2);
        if self.nanosecond > 0 {
            let nanos: u64 = self.nanosecond as u64;
            append_dot(&mut s);
            // Count how many digits the nanosecond field prints with.
            proof {
                lemma_dec_digits_len(nanos as int);
                lemma_dec_digits_len_wide(nanos as int);
            }
            let width: u64 = if nanos < 10 {
                1
            } else if nanos < 100 {
                2
            } else if nanos < 1000 {
                3
            } else if nanos < 10_000 {
                4
            } else if nanos < 100_000 {
                5
            } else if nanos < 1_000_000 {
                6
            } else if nanos < 10_000_000 {
                7
            } else if nanos < 100_000_000 {
                8
            } else {
                9
            };
            append_zeros(&mut s, 9 - width);
            // Remove the trailing zeros from the digits by dividing them
            // away, keeping the equation between the two digit strings.
            let mut nred: u64 = nanos;
            let ghost mut zc: int = 0;
            while nred % 10 == 0
                invariant
                    1 <= nred <= nanos,
                    zc >= 0,
                    dec_digits(nanos as int) == dec_digits(nred as int) + zeros(zc),
                decreases nred,
            {
                proof {
                    lemma_fundamental_div_mod(nred as int, 10);
                    lemma_dec_digits_times10(nred as int / 10);
                    lemma_zeros_index(zc);
                    lemma_zeros_index(zc + 1);
                    assert(dec_digits(nred as int).drop_last() == dec_digits(nred as int / 10));
                    assert(dec_digits(nanos as int) =~= dec_digits(nred as int / 10) + zeros(
                        zc + 1,
                    ));
                    zc = zc + 1;
                }
                nred = nred / 10;
            }
            append_number(&mut s, nred);
            proof {
                lemma_strip_append_zeros(dec_digits(nred as int), zc);
                assert(dec_digits(nred as int) + zeros(zc) =~= dec_digits(nanos as int));
                lemma_dec_digits_last(nred as int);
                assert(strip_trailing_zeros(dec_digits(nred as int)) == dec_digits(nred as int));
                lemma_strip_prefix(zeros(9 - width as int), dec_digits(nred as int));
                lemma_zeros_index(9 - width as int);
                assert(zeros(9 - dec_digits(nanos as int).len()) + dec_digits(nanos as int)
                    =~= padded_digits(nanos as int, 9));
                lemma_strip_append_zeros(
                    zeros(9 - width as int) + dec_digits(nred as int),
                    zc,
                );
                assert((zeros(9 - width as int) + dec_digits(nred as int)) + zeros(zc)
                    =~= padded_digits(nanos as int, 9));
                assert(s@ =~= self.to_format_spec());
            }
        } else {
            proof {
                assert(s@ =~= self.to_format_spec());
            }
        }
        s
    }
}

/// A one- or two-digit clock field.
pub open spec fn seg2_ok(s: Seq<u8>) -> bool {
    1 <= s.len() <= 2 && is_digits(s)
}

/// What the time-text parser accepts and returns for any input: `HH:MM`,
/// `HH:MM:SS` or `HH:MM:SS.F..F` with each clock field one or two digits in
/// its clock range and one to nine fraction digits, giving the nanosecond
/// count; anything else is refused.
pub open spec fn time_from_string_spec(s: Seq<u8>) -> Option<int> {
    let parts = split_on(s, 58);
    if !(parts.len() == 2 || parts.len() == 3) {
        None
    } else if !(seg2_ok(parts[0]) && seg2_ok(parts[1]) && digits_value(parts[0]) <= 23
        && digits_value(parts[1]) <= 59) {
        None
    } else {
        let base = (digits_value(parts[0]) * 60 + digits_value(parts[1])) * 60;
        if parts.len() == 2 {
            Some(base * 1_000_000_000)
        } else {
            let sp = split_on(parts[2], 46);
            if sp.len() == 1 {
                if seg2_ok(sp[0]) && digits_value(sp[0]) <= 59 {
                    Some((base + digits_value(sp[0])) * 1_000_000_000)
                } else {
                    None
                }
            } else if sp.len() == 2 {
                if seg2_ok(sp[0]) && digits_value(sp[0]) <= 59 && 1 <= sp[1].len() <= 9
                    && is_digits(sp[1]) {
                    Some(
                        (base + digits_value(sp[0])) * 1_000_000_000 + digits_value(sp[1]) * tens(
                            9 - sp[1].len(),
                        ),
                    )
                } else {
                    None
                }
            } else {
                None
            }
        }
    }
}

impl LocalTimeWrapper {
    /// Returns the nanosecond count written in clock text.
    #[verifier::rlimit(60)]
    pub fn from_string(value: &str) -> (r: Result<HostBigInt, ConvertedError>)
        ensures
            match r {
                Ok(h) => {
                    &&& time_from_string_spec(value.spec_bytes()) == Some(h.value())
                    &&& h.canonical()
                },
                Err(_) => time_from_string_spec(value.spec_bytes()) is None,
            },
    {
        let b = value.as_bytes();
        let ghost s = value.spec_bytes();
        let n = b.len();
        let c = count_sep(b, 58);
        proof {
            crate::text::lemma_split_on_len(s, 58);
        }
        if c != 1 && c != 2 {
            return Err(time_format_error());
        }
        let c1 = find_sep(b, 0, 58);
        proof {
            if c1 == n {
                lemma_sep_count_none(s, 58);
            }
        }
        let c2 = find_sep(b, c1 + 1, 58);
        proof {
            if c == 1 {
                assert forall|k: int| 0 <= k < n && #[trigger] s[k] == 58 implies k
                    == c1 by {
                    if k != c1 {
                        if k < c1 {
                        } else {
                            crate::text::lemma_sep_count_two(s, 58, c1 as int, k);
                        }
                    }
                }
                lemma_split_one(s, 58, c1 as int);
                assert(c2 == n);
            } else {
                if c2 == n {
                    assert forall|k: int| 0 <= k < n && #[trigger] s[k] == 58 implies k
                        == c1 by {
                        if k != c1 {
                            if k < c1 {
                            } else {
                                crate::text::lemma_sep_count_two(s, 58, c1 as int, k);
                            }
                        }
                    }
                    lemma_split_one(s, 58, c1 as int);
                }
            }
        }
        if c == 2 && c2 >= n {
            return Err(time_format_error());
        }
        proof {
            if c == 2 {
                assert forall|k: int| 0 <= k < n && #[trigger] s[k] == 58 implies k == c1 || k
                    == c2 by {
                    if k != c1 && k != c2 {
                        if k < c1 {
                        } else if k < c2 {
                        } else {
                            crate::text::lemma_sep_count_three(s, 58, c1 as int, c2 as int, k);
                        }
                    }
                }
                lemma_split_two(s, 58, c1 as int, c2 as int);
            }
        }
        // Hours and minutes.
        let mend: usize = if c == 1 {
            n
        } else {
            c2
        };
        if c1 < 1 || c1 > 2 || mend - (c1 + 1) < 1 || mend - (c1 + 1) > 2 {
            return Err(time_format_error());
        }
        let hv = match parse_digits(b, 0, c1, 99) {
            Some(v) => v,
            None => {
                return Err(time_format_error());
            },
        };
        let mv = match parse_digits(b, c1 + 1, mend, 99) {
            Some(v) => v,
            None => {
                return Err(time_format_error());
            },
        };
        if hv > 23 || mv > 59 {
            return Err(time_format_error());
        }
        let base: u64 = (hv * 60 + mv) * 60;
        if c == 1 {
            let ns: u64 = base * 1_000_000_000;
            return Ok(HostBigInt::from_i64(ns as i64));
        }
        // Seconds, with an optional fraction.
        let ghost seg = s.subrange(c2 as int + 1, n as int);
        let e1 = find_sep(b, c2 + 1, 46);
        if e1 >= n {
            proof {
                assert forall|k: int| 0 <= k < seg.len() implies #[trigger] seg[k] != 46 by {
                    assert(seg[k] == s[c2 + 1 + k]);
                }
                lemma_split_none(seg, 46);
            }
            if n - (c2 + 1) < 1 || n - (c2 + 1) > 2 {
                return Err(time_format_error());
            }
            let sv = match parse_digits(b, c2 + 1, n, 99) {
                Some(v) => v,
                None => {
                    return Err(time_format_error());
                },
            };
            if sv > 59 {
                return Err(time_format_error());
            }
            let ns: u64 = (base + sv) * 1_000_000_000;
            return Ok(HostBigInt::from_i64(ns as i64));
        }
        let e2 = find_sep(b, e1 + 1, 46);
        if e2 < n {
            proof {
                assert(seg[e1 - (c2 + 1)] == 46);
                assert(seg[e2 - (c2 + 1)] == 46);
                crate::text::lemma_sep_count_two(seg, 46, e1 - (c2 + 1), e2 - (c2 + 1));
                crate::text::lemma_split_on_len(seg, 46);
            }
            return Err(time_format_error());
        }
        proof {
            assert forall|k: int| 0 <= k < seg.len() && #[trigger] seg[k] == 46 implies k == e1 - (
            c2 + 1) by {
                assert(seg[k] == s[c2 + 1 + k]);
            }
            assert(seg[e1 - (c2 + 1)] == 46);
            lemma_split_one(seg, 46, e1 - (c2 + 1));
            assert(seg.subrange(0, e1 - (c2 + 1)) =~= s.subrange(c2 as int + 1, e1 as int));
            assert(seg.subrange(e1 - (c2 + 1) + 1, seg.len() as int) =~= s.subrange(
                e1 as int + 1,
                n as int,
            ));
        }
        if e1 - (c2 + 1) < 1 || e1 - (c2 + 1) > 2 {
            return Err(time_format_error());
        }
        let sv = match parse_digits(b, c2 + 1, e1, 99) {
            Some(v) => v,
            None => {
                return Err(time_format_error());
            },
        };
        if sv > 59 {
            return Err(time_format_error());
        }
        let flen = n - (e1 + 1);
        if flen < 1 || flen > 9 {
            return Err(time_format_error());
        }
        let fv = match parse_digits(b, e1 + 1, n, 999_999_999) {
            Some(v) => v,
            None => {
                proof {
                    let fs = s.subrange(e1 as int + 1, n as int);
                    if is_digits(fs) {
                        crate::text::lemma_digits_value_bound(fs);
                        assert(tens(9) == 1_000_000_000) by {
                            reveal_with_fuel(tens, 10);
                        };
                        lemma_tens_le(fs.len() as int, 9);
                    }
                }
                return Err(time_format_error());
            },
        };
        proof {
            let fs = s.subrange(e1 as int + 1, n as int);
            crate::text::lemma_digits_value_bound(fs);
            reveal_with_fuel(tens, 10);
        }
        let scale: u64 = match flen {
            1 => 100_000_000,
            2 => 10_000_000,
            3 => 1_000_000,
            4 => 100_000,
            5 => 10_000,
            6 => 1_000,
            7 => 100,
            8 => 10,
            _ => 1,
        };
        let ns: u64 = (base + sv) * 1_000_000_000 + fv * scale;
        Ok(HostBigInt::from_i64(ns as i64))
    }
}

/// Powers of ten are positive.
proof fn lemma_tens_pos(k: int)
    ensures
        tens(k) >= 1,
    decreases k,
{
    if k > 0 {
        lemma_tens_pos(k - 1);
    }
}

/// Powers of ten grow with the exponent.
proof fn lemma_tens_le(a: int, c: int)
    requires
        a <= c,
    ensures
        tens(a) <= tens(c),
    decreases c,
{
    lemma_tens_pos(a);
    if a < c && c > 0 {
        lemma_tens_le(a, c - 1);
        lemma_tens_pos(c - 1);
    }
}

/// The error for malformed clock text.
fn time_format_error() -> (r: ConvertedError)
    ensures
        r.name_spec() == "Error"@,
        r.msg_spec() == "Conversion to String failed"@,
{
    ConvertedError::new("Error", "Conversion to String failed")
}

/// Copies a word vector.
fn clone_words(w: &Vec<u64>) -> (r: Vec<u64>)
    ensures
        r@ == w@,
{
    let mut r: Vec<u64> = Vec::new();
    let mut i: usize = 0;
    while i < w.len()
        invariant
            0 <= i <= w@.len(),
            r@ =~= w@.take(i as int),
        decreases w@.len() - i,
    {
        r.push(w[i]);
        proof {
            assert(r@ =~= w@.take(i as int + 1));
        }
        i = i + 1;
    }
    proof {
        assert(w@.take(w@.len() as int) =~= w@);
    }
    r
}

/// Text ending in a nonzero digit is unchanged by stripping.
proof fn lemma_strip_prefix(p: Seq<char>, s: Seq<char>)
    requires
        s.len() > 0,
        s.last() != '0',
    ensures
        strip_trailing_zeros(p + s) == p + s,
{
    assert((p + s).last() == s.last());
}

/// Appends a colon character.
fn append_colon(s: &mut String)
    ensures
        final (s)@ == old(s)@ + seq![':'],
{
    proof {
        reveal_strlit(":");
    }
    s.append(":");
    proof {
        assert(final (s)@ =~= old(s)@ + seq![':']);
    }
}

/// Appends a dot character.
fn append_dot(s: &mut String)
    ensures
        final (s)@ == old(s)@ + seq!['.'],
{
    proof {
        reveal_strlit(".");
    }
    s.append(".");
    proof {
        assert(final (s)@ =~= old(s)@ + seq!['.']);
    }
}

/// The clock decomposition law: recombining the clock fields of any
/// well-formed time of day returns exactly the nanosecond count it was
/// decomposed from.
pub proof fn lemma_time_round_trip(w: LocalTimeWrapper)
    requires
        w.wf(),
    ensures
        ((w.hour * 60 + w.minute) * 60 + w.second) * 1_000_000_000 + w.nanosecond == w.ns_value,
        w.value.value() == w.ns_value as int,
{
}

} // verus!
