//! Durations as the tracer prints them: plain decimal seconds.
//!
//! A duration text is a run of ASCII digits with at most one `.` in it and at
//! least one digit: `0.000012`, `3`, `.5`, `7.`. No sign, no exponent. The
//! library keeps durations as whole nanoseconds; digits after the ninth
//! decimal place are dropped.

use vstd::prelude::*;
use crate::text::{chars_of, first_index, lemma_first_index_bounds, lemma_first_index_is};

verus! {

/// The largest whole number of seconds that still fits in `u64` nanoseconds
/// when nothing is added to it.
const WHOLE_LIMIT: u64 = 18_446_744_073;

pub open spec fn is_digit(c: char) -> bool {
    '0' <= c && c <= '9'
}

pub open spec fn digit_value(c: char) -> nat {
    (c as int - '0' as int) as nat
}

pub open spec fn all_digits(s: Seq<char>) -> bool {
    forall|i: int| 0 <= i < s.len() ==> is_digit(#[trigger] s[i])
}

/// What stands before the first `.` of a duration text.
pub open spec fn whole_digits(s: Seq<char>) -> Seq<char> {
    s.take(first_index(s, '.'))
}

/// What stands after the first `.` of a duration text.
pub open spec fn fraction_digits(s: Seq<char>) -> Seq<char> {
    if first_index(s, '.') < s.len() {
        s.skip(first_index(s, '.') + 1)
    } else {
        Seq::empty()
    }
}

/// Whether `s` is a non-negative decimal number in plain notation.
pub open spec fn is_decimal(s: Seq<char>) -> bool {
    &&& all_digits(whole_digits(s))
    &&& all_digits(fraction_digits(s))
    &&& whole_digits(s).len() + fraction_digits(s).len() > 0
}

/// The number that a run of digits denotes.
pub open spec fn whole_value(s: Seq<char>) -> nat
    decreases s.len(),
{
    if s.len() == 0 {
        0
    } else {
        whole_value(s.drop_last()) * 10 + digit_value(s.last())
    }
}

/// Nanoseconds in one unit of the fractional digit at position `i`, counted
/// from the decimal point; zero past the ninth digit.
pub open spec fn place_value(i: int) -> nat {
    if i == 0 {
        100_000_000
    } else if i == 1 {
        10_000_000
    } else if i == 2 {
        1_000_000
    } else if i == 3 {
        100_000
    } else if i == 4 {
        10_000
    } else if i == 5 {
        1_000
    } else if i == 6 {
        100
    } else if i == 7 {
        10
    } else if i == 8 {
        1
    } else {
        0
    }
}

/// Nanoseconds that the digits after the decimal point denote.
pub open spec fn fraction_nanos(s: Seq<char>) -> nat
    decreases s.len(),
{
    if s.len() == 0 {
        0
    } else {
        fraction_nanos(s.drop_last()) + digit_value(s.last()) * place_value(s.len() - 1)
    }
}

/// The duration that the text `s` denotes, in nanoseconds.
pub open spec fn duration_nanos(s: Seq<char>) -> nat {
    whole_value(whole_digits(s)) * 1_000_000_000 + fraction_nanos(fraction_digits(s))
}

fn digit_of(c: char) -> (d: Option<u64>)
    ensures
        d is Some <==> is_digit(c),
        d matches Some(v) ==> v == digit_value(c) && v <= 9,
{
    if '0' <= c && c <= '9' {
        Some((c as u32 - '0' as u32) as u64)
    } else {
        None
    }
}

/// Reads `chars[from..to]` as a duration.
///
/// Returns the nanoseconds it denotes when that range is a decimal number
/// whose value fits in a `u64`, and `None` for every other range.
pub fn parse_decimal(chars: &[char], from: usize, to: usize) -> (out: Option<u64>)
    requires
        from <= to <= chars@.len(),
    ensures
        out is Some <==> is_decimal(chars@.subrange(from as int, to as int)) && duration_nanos(
            chars@.subrange(from as int, to as int),
        ) <= u64::MAX,
        out matches Some(v) ==> v == duration_nanos(chars@.subrange(from as int, to as int)),
{
    let ghost s = chars@.subrange(from as int, to as int);
    let mut whole: u64 = 0;
    let mut capped = false;
    let mut i: usize = from;
    while i < to && chars[i] != '.'
        invariant
            from <= i <= to <= chars@.len(),
            s == chars@.subrange(from as int, to as int),
            forall|j: int| 0 <= j < i - from ==> is_digit(#[trigger] s[j]),
            !capped ==> whole == whole_value(s.take(i - from)) && whole <= WHOLE_LIMIT,
            capped ==> whole_value(s.take(i - from)) > WHOLE_LIMIT,
        decreases to - i,
    {
        let ghost k = i - from;
        assert(s[k] == chars@[i as int]);
        assert(s.take(k + 1).drop_last() == s.take(k));
        assert(s.take(k + 1).last() == s[k]);
        match digit_of(chars[i]) {
            None => {
                proof {
                    lemma_first_index_bounds(s, '.');
                    let p = first_index(s, '.');
                    assert(p > k) by {
                        if p < k {
                            assert(is_digit(s[p]));
                        }
                    }
                    assert(whole_digits(s)[k] == s[k]);
                }
                return None;
            },
            Some(d) => {
                if !capped {
                    let next = whole * 10 + d;
                    if next > WHOLE_LIMIT {
                        capped = true;
                    } else {
                        whole = next;
                    }
                }
            },
        }
        i += 1;
    }
    let dot = i;
    let ghost d = dot - from;
    proof {
        assert forall|j: int| 0 <= j < d implies s[j] != '.' by {
            assert(is_digit(s[j]));
        }
        if dot < to {
            assert(s[d] == chars@[dot as int]);
        }
        lemma_first_index_is(s, '.', d);
        assert(whole_digits(s) == s.take(d));
    }
    let mut frac: u64 = 0;
    let mut scale: u64 = 100_000_000;
    if dot < to {
        i = dot + 1;
        let ghost f = s.skip(d + 1);
        assert(fraction_digits(s) == f);
        while i < to
            invariant
                dot < i <= to <= chars@.len(),
                d == dot - from,
                from <= dot,
                s == chars@.subrange(from as int, to as int),
                f == s.skip(d + 1),
                fraction_digits(s) == f,
                forall|j: int| 0 <= j < i - dot - 1 ==> is_digit(#[trigger] f[j]),
                frac == fraction_nanos(f.take(i - dot - 1)),
                scale == place_value(i - dot - 1),
                frac + 10 * scale <= 1_000_000_000,
            decreases to - i,
        {
            let ghost k = i - dot - 1;
            assert(f[k] == chars@[i as int]);
            assert(f.take(k + 1).drop_last() == f.take(k));
            assert(f.take(k + 1).last() == f[k]);
            match digit_of(chars[i]) {
                None => {
                    return None;
                },
                Some(dv) => {
                    assert(dv * scale <= 9 * scale) by (nonlinear_arith)
                        requires
                            dv <= 9,
                    ;
                    frac = frac + dv * scale;
                    scale = scale / 10;
                },
            }
            i += 1;
        }
        assert(f.take(f.len() as int) == f);
        if to - from == 1 {
            return None;
        }
    } else {
        assert(fraction_digits(s).len() == 0);
        if to == from {
            return None;
        }
    }
    assert(is_decimal(s));
    if capped {
        return None;
    }
    let total: u128 = whole as u128 * 1_000_000_000 + frac as u128;
    if total > u64::MAX as u128 {
        None
    } else {
        Some(total as u64)
    }
}

/// Reads `text` as a duration in seconds and gives it in nanoseconds.
///
/// Returns `None` where `text` is no decimal number, or one too large for a
/// `u64` of nanoseconds.
pub fn parse_duration(text: &str) -> (out: Option<u64>)
    ensures
        out is Some <==> is_decimal(text@) && duration_nanos(text@) <= u64::MAX,
        out matches Some(v) ==> v == duration_nanos(text@),
{
    let chars = chars_of(text);
    assert(chars@.subrange(0, chars@.len() as int) == text@);
    parse_decimal(&chars, 0, chars.len())
}

} // verus!
