//! Decimal parsing for the numeric wire fields.
//!
//! A field value is a string of ASCII digits, optionally preceded by `-`
//! for the signed fields.  Parsing is total: anything else, or a value out
//! of range, yields `None` and the field is left alone by the caller.

use vstd::prelude::*;

verus! {

pub open spec fn is_digit(c: char) -> bool {
    48 <= c as u32 && c as u32 <= 57
}

pub open spec fn all_digits(s: Seq<char>) -> bool {
    forall|i: int| 0 <= i < s.len() ==> is_digit(#[trigger] s[i])
}

/// The base-10 value of a digit string (meaningful when `all_digits` holds).
pub open spec fn digits_value(s: Seq<char>) -> int
    decreases s.len(),
{
    if s.len() == 0 {
        0
    } else {
        digits_value(s.drop_last()) * 10 + (s.last() as u32 - 48)
    }
}

/// What a nonnegative decimal string denotes as a `usize`, if anything.
pub open spec fn usize_value_of(s: Seq<char>) -> Option<int> {
    if s.len() > 0 && all_digits(s) && digits_value(s) <= usize::MAX {
        Some(digits_value(s))
    } else {
        None
    }
}

/// What an optionally `-`-signed decimal string denotes as an `i64`, if
/// anything.
pub open spec fn i64_value_of(s: Seq<char>) -> Option<int> {
    if s.len() > 0 && s[0] == '-' {
        let d = s.drop_first();
        if d.len() > 0 && all_digits(d) && -digits_value(d) >= i64::MIN {
            Some(-digits_value(d))
        } else {
            None
        }
    } else if s.len() > 0 && all_digits(s) && digits_value(s) <= i64::MAX {
        Some(digits_value(s))
    } else {
        None
    }
}

proof fn lemma_digits_value_nonneg(s: Seq<char>)
    requires
        all_digits(s),
    ensures
        digits_value(s) >= 0,
    decreases s.len(),
{
    if s.len() > 0 {
        assert(all_digits(s.drop_last()));
        lemma_digits_value_nonneg(s.drop_last());
    }
}

/// Every prefix of a digit string denotes no more than the whole string.
proof fn lemma_digits_value_prefix_le(s: Seq<char>, i: int)
    requires
        all_digits(s),
        0 <= i <= s.len(),
    ensures
        digits_value(s.subrange(0, i)) <= digits_value(s),
    decreases s.len() - i,
{
    if i == s.len() {
        assert(s.subrange(0, i) =~= s);
    } else {
        let shorter = s.subrange(0, i);
        let longer = s.subrange(0, i + 1);
        assert(longer.drop_last() =~= shorter);
        assert(all_digits(shorter));
        lemma_digits_value_nonneg(shorter);
        assert(digits_value(longer) == digits_value(shorter) * 10 + (s[i] as u32 - 48));
        assert(digits_value(shorter) <= digits_value(longer));
        lemma_digits_value_prefix_le(s, i + 1);
    }
}

/// Parses a `usize` from a digit string, exactly as `usize_value_of` says.
pub fn parse_usize(s: &str) -> (r: Option<usize>)
    ensures
        match r {
            Some(v) => usize_value_of(s@) == Some(v as int),
            None => usize_value_of(s@) is None,
        },
{
    let n: usize = s.unicode_len();
    if n == 0 {
        return None;
    }
    let mut acc: usize = 0;
    let mut i: usize = 0;
    while i < n
        invariant
            0 < n == s@.len(),
            i <= n,
            all_digits(s@.subrange(0, i as int)),
            acc == digits_value(s@.subrange(0, i as int)),
        decreases n - i,
    {
        proof {
            assert(s@.subrange(0, (i + 1) as int).drop_last() =~= s@.subrange(0, i as int));
        }
        let c = s.get_char(i);
        let cv = c as u32;
        if cv < 48 || cv > 57 {
            assert(!is_digit(s@[i as int]));
            return None;
        }
        let d: usize = (cv - 48) as usize;
        if acc > (usize::MAX - d) / 10 {
            proof {
                let prefix = s@.subrange(0, (i + 1) as int);
                let m = (usize::MAX - d) as int;
                assert(m == 10 * (m / 10) + m % 10 && 0 <= m % 10 < 10) by {
                    vstd::arithmetic::div_mod::lemma_fundamental_div_mod(m, 10);
                    vstd::arithmetic::div_mod::lemma_mod_bound(m, 10);
                }
                assert(acc * 10 >= (m / 10) * 10 + 10);
                assert(digits_value(prefix) > usize::MAX);
                if all_digits(s@) {
                    lemma_digits_value_prefix_le(s@, i + 1 as int);
                }
            }
            return None;
        }
        proof {
            let m = (usize::MAX - d) as int;
            assert(m == 10 * (m / 10) + m % 10 && 0 <= m % 10 < 10) by {
                vstd::arithmetic::div_mod::lemma_fundamental_div_mod(m, 10);
                vstd::arithmetic::div_mod::lemma_mod_bound(m, 10);
            }
            assert(acc * 10 <= m);
        }
        acc = acc * 10 + d;
        i = i + 1;
    }
    proof {
        assert(s@.subrange(0, n as int) =~= s@);
    }
    Some(acc)
}

/// Parses an `i64` from an optionally signed digit string, exactly as
/// `i64_value_of` says.
pub fn parse_i64(s: &str) -> (r: Option<i64>)
    ensures
        match r {
            Some(v) => i64_value_of(s@) == Some(v as int),
            None => i64_value_of(s@) is None,
        },
{
    let n: usize = s.unicode_len();
    if n == 0 {
        return None;
    }
    let first = s.get_char(0);
    let negative = first == '-';
    let start: usize = if negative {
        1
    } else {
        0
    };
    if start == n {
        return None;
    }
    // Largest magnitude that still fits: one more on the negative side.
    let limit: u64 = if negative {
        9223372036854775808u64
    } else {
        9223372036854775807u64
    };
    let ghost digits = if negative {
        s@.drop_first()
    } else {
        s@
    };
    proof {
        assert(digits =~= s@.subrange(start as int, n as int));
    }
    let mut acc: u64 = 0;
    let mut i: usize = start;
    while i < n
        invariant
            start <= i <= n,
            n == s@.len(),
            start < n,
            negative == (s@[0] == '-'),
            negative ==> start == 1 && limit == 9223372036854775808u64,
            !negative ==> start == 0 && limit == 9223372036854775807u64,
            digits == if negative {
                s@.drop_first()
            } else {
                s@
            },
            digits == s@.subrange(start as int, n as int),
            all_digits(digits.subrange(0, i - start)),
            acc == digits_value(digits.subrange(0, i - start)),
            acc <= limit,
        decreases n - i,
    {
        proof {
            assert(digits.subrange(0, i - start + 1).drop_last() =~= digits.subrange(0, i - start));
            assert(digits.subrange(0, i - start + 1).last() == s@[i as int]);
        }
        let c = s.get_char(i);
        let cv = c as u32;
        if cv < 48 || cv > 57 {
            assert(!is_digit(digits[i - start]));
            return None;
        }
        let d: u64 = (cv - 48) as u64;
        if acc > (limit - d) / 10 {
            proof {
                let prefix = digits.subrange(0, i - start + 1);
                let m = (limit - d) as int;
                assert(m == 10 * (m / 10) + m % 10 && 0 <= m % 10 < 10) by {
                    vstd::arithmetic::div_mod::lemma_fundamental_div_mod(m, 10);
                    vstd::arithmetic::div_mod::lemma_mod_bound(m, 10);
                }
                assert(acc * 10 >= (m / 10) * 10 + 10);
                assert(digits_value(prefix) > limit);
                if all_digits(digits) {
                    lemma_digits_value_prefix_le(digits, i - start + 1);
                }
            }
            return None;
        }
        proof {
            let m = (limit - d) as int;
            assert(m == 10 * (m / 10) + m % 10 && 0 <= m % 10 < 10) by {
                vstd::arithmetic::div_mod::lemma_fundamental_div_mod(m, 10);
                vstd::arithmetic::div_mod::lemma_mod_bound(m, 10);
            }
            assert(acc * 10 <= m);
        }
        acc = acc * 10 + d;
        i = i + 1;
    }
    proof {
        assert(digits.subrange(0, n - start) =~= digits);
    }
    if negative {
        if acc == 9223372036854775808u64 {
            Some(i64::MIN)
        } else {
            Some(-(acc as i64))
        }
    } else {
        Some(acc as i64)
    }
}

} // verus!
