//! Parsing the numeric field of a record: an optionally signed decimal
//! with at most nine integer digits and at most three fractional digits,
//! read as a count of thousandths.

use vstd::prelude::*;
use vstd::slice::slice_subrange;

use crate::error::AggError;
use crate::scan::find_byte;
use crate::scan::find_spec;
use crate::stats::READING_BOUND;

verus! {

/// The decimal-point byte, `.`.
pub const DOT: u8 = 46;

/// ASCII decimal digit.
pub open spec fn is_digit(b: u8) -> bool {
    48 <= b <= 57
}

/// Every byte of `s` is a decimal digit.
pub open spec fn all_digits(s: Seq<u8>) -> bool {
    forall|i: int| 0 <= i < s.len() ==> is_digit(#[trigger] s[i])
}

/// The number a digit string denotes, most significant digit first.
pub open spec fn digits_val(s: Seq<u8>) -> int
    decreases s.len(),
{
    if s.len() == 0 {
        0
    } else {
        digits_val(s.drop_last()) * 10 + (s.last() - 48)
    }
}

/// Ten to the `n`.
pub open spec fn pow10(n: nat) -> int
    decreases n,
{
    if n == 0 {
        1
    } else {
        10 * pow10((n - 1) as nat)
    }
}

/// A digit string of length `n` denotes a value below `pow10(n)`.
pub proof fn lemma_digits_val_bound(s: Seq<u8>)
    requires
        all_digits(s),
    ensures
        0 <= digits_val(s) < pow10(s.len()),
    decreases s.len(),
{
    if s.len() > 0 {
        assert(all_digits(s.drop_last()));
        lemma_digits_val_bound(s.drop_last());
    }
}

/// `pow10` is positive.
pub proof fn lemma_pow10_pos(n: nat)
    ensures
        pow10(n) >= 1,
    decreases n,
{
    if n > 0 {
        lemma_pow10_pos((n - 1) as nat);
    }
}

/// `pow10` grows with its argument.
pub proof fn lemma_pow10_mono(a: nat, b: nat)
    requires
        a <= b,
    ensures
        pow10(a) <= pow10(b),
    decreases b,
{
    if a < b {
        lemma_pow10_mono(a, (b - 1) as nat);
        lemma_pow10_pos((b - 1) as nat);
    }
}

/// Millis contributed by one fractional digit position.
pub open spec fn frac_scale(n: int) -> int {
    if n == 1 {
        100
    } else if n == 2 {
        10
    } else {
        1
    }
}

/// The value, in thousandths, denoted by an unsigned numeric field, or
/// `None` when the field is not a well-formed number.
pub open spec fn unsigned_val_spec(s: Seq<u8>) -> Option<int> {
    match find_spec(s, DOT) {
        None => if 1 <= s.len() <= 9 && all_digits(s) {
            Some(digits_val(s) * 1000)
        } else {
            None
        },
        Some(p) => {
            let ip = s.subrange(0, p);
            let fp = s.subrange(p + 1, s.len() as int);
            if 1 <= ip.len() <= 9 && all_digits(ip) && 1 <= fp.len() <= 3 && all_digits(fp) {
                Some(digits_val(ip) * 1000 + digits_val(fp) * frac_scale(fp.len() as int))
            } else {
                None
            }
        },
    }
}

/// The value, in thousandths, denoted by a signed numeric field.
pub open spec fn num_val_spec(s: Seq<u8>) -> Option<int> {
    if s.len() > 0 && (s[0] == 43 || s[0] == 45) {
        match unsigned_val_spec(s.subrange(1, s.len() as int)) {
            Some(v) => Some(if s[0] == 45 {
                -v
            } else {
                v
            }),
            None => None,
        }
    } else {
        unsigned_val_spec(s)
    }
}

/// A well-formed numeric field denotes a value within the reading bound.
pub proof fn lemma_num_val_bounded(s: Seq<u8>)
    ensures
        match num_val_spec(s) {
            Some(v) => -READING_BOUND < v < READING_BOUND,
            None => true,
        },
{
    lemma_unsigned_val_bounded(s);
    if s.len() > 0 && (s[0] == 43 || s[0] == 45) {
        lemma_unsigned_val_bounded(s.subrange(1, s.len() as int));
    }
}

proof fn lemma_unsigned_val_bounded(s: Seq<u8>)
    ensures
        match unsigned_val_spec(s) {
            Some(v) => 0 <= v < READING_BOUND,
            None => true,
        },
{
    reveal_with_fuel(pow10, 11);
    match find_spec(s, DOT) {
        None => {
            if 1 <= s.len() <= 9 && all_digits(s) {
                lemma_digits_val_bound(s);
                lemma_pow10_mono(s.len(), 9);
            }
        },
        Some(p) => {
            crate::scan::lemma_find_spec(s, DOT);
            let ip = s.subrange(0, p);
            let fp = s.subrange(p + 1, s.len() as int);
            if 1 <= ip.len() <= 9 && all_digits(ip) && 1 <= fp.len() <= 3 && all_digits(fp) {
                lemma_digits_val_bound(ip);
                lemma_pow10_mono(ip.len(), 9);
                lemma_digits_val_bound(fp);
                let dv = digits_val(fp);
                if fp.len() == 1 {
                    assert(frac_scale(fp.len() as int) == 100);
                    assert(dv < 10);
                    assert(dv * 100 <= 900);
                } else if fp.len() == 2 {
                    assert(frac_scale(fp.len() as int) == 10);
                    assert(dv < 100);
                    assert(dv * 10 <= 990);
                } else {
                    assert(frac_scale(fp.len() as int) == 1);
                    assert(dv < 1000);
                }
            }
        },
    }
}

/// Digit-string value of `s`, or `None` when `s` is empty, longer than
/// nine bytes, or holds a non-digit.
fn parse_digits(s: &[u8]) -> (r: Option<u64>)
    ensures
        match r {
            Some(v) => 1 <= s@.len() <= 9 && all_digits(s@) && v == digits_val(s@) && v
                < 1_000_000_000,
            None => !(1 <= s@.len() <= 9 && all_digits(s@)),
        },
{
    let n = s.len();
    if n == 0 || n > 9 {
        return None;
    }
    let mut acc: u64 = 0;
    let mut i: usize = 0;
    while i < n
        invariant
            0 <= i <= n == s@.len() <= 9,
            all_digits(s@.subrange(0, i as int)),
            acc == digits_val(s@.subrange(0, i as int)),
            acc < 1_000_000_000,
        decreases n - i,
    {
        let b = s[i];
        if b < 48 || b > 57 {
            proof {
                assert(!is_digit(s@[i as int]));
            }
            return None;
        }
        proof {
            let pre = s@.subrange(0, i as int);
            let ext = s@.subrange(0, i + 1);
            assert(ext.drop_last() =~= pre);
            assert(ext.last() == s@[i as int]);
            lemma_digits_val_bound(ext);
            lemma_pow10_mono(ext.len(), 9);
            reveal_with_fuel(pow10, 11);
        }
        acc = acc * 10 + ((b - 48) as u64);
        i = i + 1;
    }
    proof {
        assert(s@.subrange(0, n as int) =~= s@);
    }
    Some(acc)
}

/// Parse the numeric field of a record into thousandths.
pub fn parse_reading(s: &[u8]) -> (r: Result<i64, AggError>)
    ensures
        match r {
            Ok(v) => num_val_spec(s@) == Some(v as int) && -READING_BOUND < v < READING_BOUND,
            Err(e) => e == AggError::ParseError && num_val_spec(s@) is None,
        },
{
    let n = s.len();
    let (neg, start): (bool, usize) = if n > 0 && (s[0] == 43 || s[0] == 45) {
        (s[0] == 45, 1)
    } else {
        (false, 0)
    };
    let body = slice_subrange(s, start, n);
    proof {
        if start == 0 {
            assert(body@ =~= s@);
        }
        lemma_unsigned_val_bounded(body@);
    }
    let m = match parse_unsigned(body) {
        Some(v) => v,
        None => {
            return Err(AggError::ParseError);
        },
    };
    if neg {
        Ok(-(m as i64))
    } else {
        Ok(m as i64)
    }
}

/// Unsigned numeric field to thousandths; `None` when malformed.
fn parse_unsigned(s: &[u8]) -> (r: Option<u64>)
    ensures
        match r {
            Some(v) => unsigned_val_spec(s@) == Some(v as int),
            None => unsigned_val_spec(s@) is None,
        },
{
    proof {
        lemma_unsigned_val_bounded(s@);
    }
    match find_byte(s, DOT) {
        None => {
            proof {
                crate::scan::lemma_find_spec(s@, DOT);
            }
            match parse_digits(s) {
                Some(v) => Some(v * 1000),
                None => None,
            }
        },
        Some(p) => {
            let n = s.len();
            proof {
                crate::scan::lemma_find_spec(s@, DOT);
                assert(p < n);
            }
            let ip = slice_subrange(s, 0, p);
            let fp = slice_subrange(s, p + 1, n);
            let iv = match parse_digits(ip) {
                Some(v) => v,
                None => {
                    return None;
                },
            };
            let fl = fp.len();
            if fl < 1 || fl > 3 {
                return None;
            }
            let fv = match parse_digits(fp) {
                Some(v) => v,
                None => {
                    return None;
                },
            };
            proof {
                lemma_digits_val_bound(fp@);
                lemma_pow10_mono(fp@.len(), 3);
                reveal_with_fuel(pow10, 4);
            }
            let scale: u64 = if fl == 1 {
                100
            } else if fl == 2 {
                10
            } else {
                1
            };
            Some(iv * 1000 + fv * scale)
        },
    }
}

} // verus!
