//! Decimal integers read the way `str::parse` reads them: an optional sign (`-` only for a
//! signed type), then one or more ASCII digits, with the value in the type's range.

use vstd::prelude::*;
use crate::text::is_ascii_digit;

verus! {

/// Whether every character of `s` is an ASCII digit.
pub open spec fn all_digits(s: Seq<char>) -> bool {
    forall|i: int| 0 <= i < s.len() ==> is_ascii_digit(#[trigger] s[i])
}

/// The value of the decimal digits `s`.
pub open spec fn digits_value(s: Seq<char>) -> int
    decreases s.len(),
{
    if s.len() == 0 {
        0
    } else {
        10 * digits_value(s.drop_last()) + (s.last() as int - '0' as int)
    }
}

/// The integer `s` spells: an optional `+` (or `-` when `signed`), then at least one digit.
pub open spec fn int_of(s: Seq<char>, signed: bool) -> Option<int> {
    let neg = signed && s.len() > 0 && s[0] == '-';
    let ds = if s.len() > 0 && (s[0] == '+' || neg) {
        s.skip(1)
    } else {
        s
    };
    if ds.len() == 0 || !all_digits(ds) {
        None
    } else if neg {
        Some(-digits_value(ds))
    } else {
        Some(digits_value(ds))
    }
}

proof fn lemma_digits_value_grows(s: Seq<char>, k: int)
    requires
        all_digits(s),
        0 <= k <= s.len(),
    ensures
        0 <= digits_value(s.take(k)) <= digits_value(s),
    decreases s.len() - k,
{
    if k < s.len() {
        lemma_digits_value_grows(s, k + 1);
        let t = s.take(k + 1);
        assert(t.drop_last() =~= s.take(k));
        assert(t.last() == s[k]);
        assert(is_ascii_digit(s[k]));
    } else {
        assert(s.take(k) =~= s);
        lemma_digits_nonneg(s);
    }
}

proof fn lemma_digits_nonneg(s: Seq<char>)
    requires
        all_digits(s),
    ensures
        digits_value(s) >= 0,
    decreases s.len(),
{
    if s.len() > 0 {
        assert(is_ascii_digit(s[s.len() - 1]));
        assert(all_digits(s.drop_last())) by {
            assert forall|i: int| 0 <= i < s.drop_last().len() implies is_ascii_digit(#[trigger] s.drop_last()[i]) by {
                assert(s.drop_last()[i] == s[i]);
            }
        }
        lemma_digits_nonneg(s.drop_last());
    }
}

fn digit_of(c: char) -> (r: u64)
    requires
        is_ascii_digit(c),
    ensures
        r == c as int - '0' as int,
        r < 10,
{
    (c as u32 - '0' as u32) as u64
}

/// The value of `s[from..]` when it is a non-empty run of digits no greater than `limit`.
fn digits_upto(s: &Vec<char>, from: usize, limit: u64) -> (r: Option<u64>)
    requires
        from <= s@.len(),
        9 <= limit,
    ensures
        match r {
            Some(v) => s@.len() > from && all_digits(s@.skip(from as int)) && v == digits_value(s@.skip(from as int))
                && v <= limit,
            None => s@.len() == from || !all_digits(s@.skip(from as int)) || digits_value(s@.skip(from as int))
                > limit,
        },
{
    let ghost ds = s@.skip(from as int);
    if s.len() == from {
        return None;
    }
    let mut acc: u64 = 0;
    let mut i: usize = from;
    while i < s.len()
        invariant
            from <= i <= s@.len(),
            ds == s@.skip(from as int),
            all_digits(ds.take(i - from)),
            acc == digits_value(ds.take(i - from)),
            acc <= limit,
            9 <= limit,
        decreases s.len() - i,
    {
        let c = s[i];
        if !is_ascii_digit_exec(c) {
            assert(ds[i - from] == c);
            return None;
        }
        let d = digit_of(c);
        let ghost t = ds.take(i - from + 1);
        assert(t.drop_last() =~= ds.take(i - from));
        assert(t.last() == c);
        assert(all_digits(t)) by {
            assert forall|j: int| 0 <= j < t.len() implies is_ascii_digit(#[trigger] t[j]) by {
                if j < t.len() - 1 {
                    assert(t[j] == ds.take(i - from)[j]);
                }
            }
        }
        if acc > (limit - d) / 10 {
            proof {
                assert(digits_value(t) == 10 * acc + d);
                assert(10 * acc + d > limit) by (nonlinear_arith)
                    requires
                        acc > (limit - d) / 10,
                        d <= 9,
                        limit >= 0,
                ;
                if all_digits(ds) {
                    lemma_digits_value_grows(ds, i - from + 1);
                }
            }
            return None;
        }
        assert(10 * acc + d <= limit) by (nonlinear_arith)
            requires
                acc <= (limit - d) / 10,
                d <= 9,
                d <= limit,
        ;
        acc = 10 * acc + d;
        i += 1;
    }
    assert(ds.take(s@.len() - from) =~= ds);
    Some(acc)
}

fn is_ascii_digit_exec(c: char) -> (r: bool)
    ensures
        r == is_ascii_digit(c),
{
    '0' <= c && c <= '9'
}

/// `str::parse::<i32>` on the characters `s`.
pub fn parse_i32(s: &Vec<char>) -> (r: Option<i32>)
    ensures
        match int_of(s@, true) {
            Some(v) => if i32::MIN <= v <= i32::MAX {
                r == Some(v as i32)
            } else {
                r is None
            },
            None => r is None,
        },
{
    let neg = s.len() > 0 && s[0] == '-';
    let from: usize = if s.len() > 0 && (s[0] == '+' || neg) { 1 } else { 0 };
    assert(s@.skip(0) =~= s@);
    let limit: u64 = if neg { 0x8000_0000 } else { 0x7fff_ffff };
    match digits_upto(s, from, limit) {
        Some(v) => {
            if neg {
                Some((0 - (v as i64)) as i32)
            } else {
                Some(v as i32)
            }
        },
        None => None,
    }
}

/// `str::parse::<u8>` on the characters `s`.
pub fn parse_u8(s: &Vec<char>) -> (r: Option<u8>)
    ensures
        match int_of(s@, false) {
            Some(v) => if 0 <= v <= 255 {
                r == Some(v as u8)
            } else {
                r is None
            },
            None => r is None,
        },
{
    let from: usize = if s.len() > 0 && s[0] == '+' { 1 } else { 0 };
    assert(s@.skip(0) =~= s@);
    match digits_upto(s, from, 255) {
        Some(v) => Some(v as u8),
        None => None,
    }
}

/// `str::parse::<u64>` on the characters `s`.
pub fn parse_u64(s: &Vec<char>) -> (r: Option<u64>)
    ensures
        match int_of(s@, false) {
            Some(v) => if 0 <= v <= u64::MAX {
                r == Some(v as u64)
            } else {
                r is None
            },
            None => r is None,
        },
{
    let from: usize = if s.len() > 0 && s[0] == '+' { 1 } else { 0 };
    assert(s@.skip(0) =~= s@);
    digits_upto(s, from, u64::MAX)
}

} // verus!
