//! Reading signed decimal integers, as `str::parse::<i32>` does: an optional
//! sign, then one or more ASCII digits, the value in range.
use vstd::prelude::*;

verus! {

/// `c` is an ASCII digit.
pub open spec fn is_digit(c: char) -> bool {
    '0' <= c <= '9'
}

/// The value of a run of digits.
pub open spec fn digits_value(s: Seq<char>) -> int
    decreases s.len(),
{
    if s.len() == 0 {
        0
    } else {
        10 * digits_value(s.drop_last()) + (s.last() as int - '0' as int)
    }
}

/// Every character of `s` is a digit.
pub open spec fn all_digits(s: Seq<char>) -> bool {
    forall|k: int| 0 <= k < s.len() ==> is_digit(#[trigger] s[k])
}

/// The integer `s` spells, when it is an optional `+` or `-` followed by at
/// least one digit and the value fits an `i32`.
pub open spec fn parse_i32(s: Seq<char>) -> Option<i32> {
    let signed = s.len() > 0 && (s[0] == '-' || s[0] == '+');
    let ds = if signed { s.drop_first() } else { s };
    let v = if signed && s[0] == '-' { -digits_value(ds) } else { digits_value(ds) };
    if ds.len() > 0 && all_digits(ds) && i32::MIN <= v <= i32::MAX { Some(v as i32) } else { None }
}

proof fn lemma_digits_grow(s: Seq<char>, k: int)
    requires
        0 <= k < s.len(),
        all_digits(s),
    ensures
        digits_value(s.take(k + 1)) >= digits_value(s.take(k)),
        digits_value(s.take(k)) >= 0,
    decreases k,
{
    assert(s.take(k + 1).drop_last() =~= s.take(k));
    if k > 0 {
        lemma_digits_grow(s, k - 1);
    }
}

proof fn lemma_digits_monotone(s: Seq<char>, k: int, n: int)
    requires
        0 <= k <= n <= s.len(),
        all_digits(s),
    ensures
        digits_value(s.take(n)) >= digits_value(s.take(k)),
    decreases n - k,
{
    if k < n {
        lemma_digits_monotone(s, k, n - 1);
        lemma_digits_grow(s, n - 1);
    }
}

/// Reads `s` as a signed decimal `i32` (see `parse_i32`).
pub fn read_i32(s: &[char]) -> (r: Option<i32>)
    ensures
        r == parse_i32(s@),
{
    let n = s.len();
    let signed = n > 0 && (s[0] == '-' || s[0] == '+');
    let neg = signed && s[0] == '-';
    let start: usize = if signed { 1 } else { 0 };
    let ghost ds = if signed { s@.drop_first() } else { s@ };
    if start >= n {
        return None;
    }
    let mut acc: i64 = 0;
    let mut k: usize = start;
    while k < n
        invariant
            start <= k <= n,
            n == s@.len(),
            start == (if signed { 1int } else { 0 }),
            ds == s@.skip(start as int),
            signed == (s@.len() > 0 && (s@[0] == '-' || s@[0] == '+')),
            ds == (if signed { s@.drop_first() } else { s@ }),
            neg == (signed && s@[0] == '-'),
            forall|j: int| 0 <= j < k - start ==> is_digit(#[trigger] ds[j]),
            acc == digits_value(ds.take(k - start)),
            0 <= acc <= 0x8000_0000,
        decreases n - k,
    {
        let c = s[k];
        if !('0' <= c && c <= '9') {
            proof {
                assert(ds[k - start] == c);
                assert(!is_digit(ds[(k - start) as int]));
                assert(!all_digits(ds));
                assert(parse_i32(s@) is None);
            }
            return None;
        }
        let ghost j = k - start;
        proof {
            assert(ds.take(j + 1).drop_last() =~= ds.take(j));
            assert(ds.take(j + 1).last() == c);
            assert(ds[j] == c);
        }
        let d = (c as u32 - '0' as u32) as i64;
        acc = acc * 10 + d;
        proof {
            assert(acc == digits_value(ds.take(j + 1)));
        }
        if acc > 0x8000_0000 {
            proof {
                if all_digits(ds) {
                    lemma_digits_monotone(ds, j + 1, ds.len() as int);
                    assert(ds.take(ds.len() as int) =~= ds);
                    assert(digits_value(ds) > 0x8000_0000);
                }
            }
            return None;
        }
        k += 1;
    }
    proof {
        assert(ds.take(n - start) =~= ds);
        assert(all_digits(ds));
    }
    if neg {
        Some((0 - acc) as i32)
    } else {
        if acc > 0x7fff_ffff {
            return None;
        }
        Some(acc as i32)
    }
}

/// The unsigned integer `s` spells, when it is an optional `+` followed by
/// at least one digit and the value fits a `usize`.
pub open spec fn parse_usize(s: Seq<char>) -> Option<usize> {
    let ds = if s.len() > 0 && s[0] == '+' { s.drop_first() } else { s };
    if ds.len() > 0 && all_digits(ds) && digits_value(ds) <= usize::MAX { Some(digits_value(ds) as usize) } else { None }
}

/// Reads `s` as an unsigned decimal `usize` (see `parse_usize`).
pub fn read_usize(s: &[char]) -> (r: Option<usize>)
    ensures
        r == parse_usize(s@),
{
    let n = s.len();
    let start: usize = if n > 0 && s[0] == '+' { 1 } else { 0 };
    let ghost ds = if s@.len() > 0 && s@[0] == '+' { s@.drop_first() } else { s@ };
    if start >= n {
        return None;
    }
    let mut acc: u128 = 0;
    let mut k: usize = start;
    while k < n
        invariant
            start <= k <= n,
            n == s@.len(),
            start == (if s@.len() > 0 && s@[0] == '+' { 1int } else { 0 }),
            ds == s@.skip(start as int),
            ds == (if s@.len() > 0 && s@[0] == '+' { s@.drop_first() } else { s@ }),
            forall|j: int| 0 <= j < k - start ==> is_digit(#[trigger] ds[j]),
            acc == digits_value(ds.take(k - start)),
            acc <= usize::MAX,
        decreases n - k,
    {
        let c = s[k];
        if !('0' <= c && c <= '9') {
            proof {
                assert(ds[k - start] == c);
                assert(!all_digits(ds));
            }
            return None;
        }
        let ghost j = k - start;
        proof {
            assert(ds.take(j + 1).drop_last() =~= ds.take(j));
            assert(ds.take(j + 1).last() == c);
            assert(ds[j] == c);
        }
        let d = (c as u32 - '0' as u32) as u128;
        acc = acc * 10 + d;
        proof {
            assert(acc == digits_value(ds.take(j + 1)));
        }
        if acc > usize::MAX as u128 {
            proof {
                if all_digits(ds) {
                    lemma_digits_monotone(ds, j + 1, ds.len() as int);
                    assert(ds.take(ds.len() as int) =~= ds);
                }
            }
            return None;
        }
        k += 1;
    }
    proof {
        assert(ds.take(n - start) =~= ds);
    }
    Some(acc as usize)
}

} // verus!
