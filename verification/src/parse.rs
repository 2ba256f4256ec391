//! Byte scanning and the executable measurement parser.
//!
//! Scanning for delimiters is done by `memchr`, trusted to return the first
//! occurrence; the measurement parser is verified against the grammar in
//! `records`.
use vstd::prelude::*;
use crate::records::{
    is_digit, all_digits, digits_val, find_byte, meas_shape_ok, parse_measurement_spec,
    lemma_find_byte_first, lemma_find_byte_props, DOT, MINUS,
};

verus! {

/// Relies on memchr::memchr: the index of the first occurrence of the needle
/// in the haystack, or nothing when the haystack does not hold it.
pub assume_specification[ memchr::memchr ](needle: u8, haystack: &[u8]) -> (r: Option<
    usize,
>)
    ensures
        match r {
            Some(i) => i < haystack@.len() && haystack@[i as int] == needle && forall|j: int|
                0 <= j < i ==> haystack@[j] != needle,
            None => forall|j: int| 0 <= j < haystack@.len() ==> haystack@[j] != needle,
        },
;

/// The first occurrence of `b` in `s` at or after `from`.
pub fn find_byte_from(s: &[u8], from: usize, b: u8) -> (r: Option<usize>)
    requires
        from <= s@.len(),
    ensures
        match r {
            Some(i) => from <= i < s@.len() && s@[i as int] == b && forall|j: int|
                from <= j < i ==> s@[j] != b,
            None => forall|j: int| from <= j < s@.len() ==> s@[j] != b,
        },
{
    let sub: &[u8] = &s[from..s.len()];
    match memchr::memchr(b, sub) {
        Some(i) => {
            assert(forall|j: int| from <= j < from + i ==> s@[j] == sub@[j - from]);
            Some(from + i)
        },
        None => {
            assert(forall|j: int| from <= j < s@.len() ==> s@[j] == sub@[j - from]);
            None
        },
    }
}

/// A non-digit, non-dot byte after a run of digits rules the field out.
proof fn lemma_shape_fail_nondigit(t: Seq<u8>, p: int)
    requires
        0 <= p < t.len(),
        !is_digit(t[p]),
        t[p] != DOT,
        forall|j: int| 0 <= j < p ==> is_digit(#[trigger] t[j]),
    ensures
        !meas_shape_ok(t),
{
    let d = find_byte(t, DOT);
    lemma_find_byte_props(t, DOT);
    if d >= 0 {
        if d < p {
            assert(is_digit(t[d]));
            assert(false);
        } else {
            assert(d > p);
            if meas_shape_ok(t) {
                assert(t.take(d)[p] == t[p]);
                assert(is_digit(t.take(d)[p]));
                assert(false);
            }
        }
    }
}

/// Parses a measurement field: the value in tenths exactly when the field
/// matches the grammar (`["-"] digit+ ("." digit)?`) and its magnitude fits
/// the fixed-point representation (`MAX_ABS_TENTHS`); `None` otherwise.
pub fn parse_measurement(s: &[u8]) -> (r: Option<i64>)
    ensures
        match r {
            Some(v) => parse_measurement_spec(s@) == Some(v as int),
            None => parse_measurement_spec(s@) is None,
        },
{
    let n: usize = s.len();
    let mut i: usize = 0;
    let mut neg: bool = false;
    if n > 0 && s[0] == MINUS {
        neg = true;
        i = 1;
    }
    let start: usize = i;
    let ghost t = s@.skip(start as int);
    proof {
        if !neg {
            assert(t =~= s@);
        }
        assert(forall|j: int| 0 <= j < t.len() ==> t[j] == s@[start + j]);
    }
    // digit runs are folded exactly while they fit; once the value passes the
    // tracking threshold the accumulator saturates, and the measurement is
    // over the machine limit either way
    let mut acc: u64 = 0;
    while i < n && s[i] >= 48 && s[i] <= 57
        invariant
            start <= i <= n,
            n == s@.len(),
            start <= 1,
            t == s@.skip(start as int),
            forall|j: int| 0 <= j < t.len() ==> t[j] == s@[start + j],
            forall|j: int| start <= j < i ==> is_digit(#[trigger] s@[j]),
            acc <= 1_000_000_000_000_000_000,
            (digits_val(s@.subrange(start as int, i as int)) <= 999_999_999_999_999_999
                && acc == digits_val(s@.subrange(start as int, i as int))) || (digits_val(
                s@.subrange(start as int, i as int),
            ) > 999_999_999_999_999_999 && acc == 1_000_000_000_000_000_000),
        decreases n - i,
    {
        let ghost pre = s@.subrange(start as int, i as int);
        let d: u8 = s[i] - 48;
        let tacc: u64 = acc * 10 + (d as u64);
        acc = if tacc > 1_000_000_000_000_000_000 {
            1_000_000_000_000_000_000
        } else {
            tacc
        };
        i = i + 1;
        proof {
            let pre2 = s@.subrange(start as int, i as int);
            assert(pre2.drop_last() =~= pre);
            assert(pre2.last() == s@[i - 1]);
            assert(digits_val(pre2) == digits_val(pre) * 10 + (d as int));
        }
    }
    let ghost pre = s@.subrange(start as int, i as int);
    if i == start {
        proof {
            if t.len() == 0 {
                lemma_find_byte_props(t, DOT);
            } else {
                assert(t[0] == s@[start as int]);
                if t[0] == DOT {
                    assert(find_byte(t, DOT) == 0);
                } else {
                    lemma_shape_fail_nondigit(t, 0);
                }
            }
        }
        return None;
    }
    if i == n {
        proof {
            assert(pre =~= t);
            lemma_find_byte_props(t, DOT);
            if find_byte(t, DOT) >= 0 {
                assert(is_digit(t[find_byte(t, DOT)]));
                assert(false);
            }
            assert(meas_shape_ok(t));
        }
        let val10: u64 = acc * 10;
        if val10 > 9_223_372_036_854_775_807 {
            return None;
        }
        let v: i64 = val10 as i64;
        if neg {
            return Some(-v);
        }
        return Some(v);
    }
    // a non-digit byte stopped the scan
    if s[i] != DOT {
        proof {
            lemma_shape_fail_nondigit(t, i - start);
        }
        return None;
    }
    proof {
        assert(t[i - start] == DOT);
        assert(forall|j: int| 0 <= j < i - start ==> t[j] != DOT);
        lemma_find_byte_first(t, DOT, i - start);
    }
    if n - i != 2 {
        return None;
    }
    let c: u8 = s[n - 1];
    if !(c >= 48 && c <= 57) {
        proof {
            assert(t.last() == s@[n - 1]);
        }
        return None;
    }
    proof {
        assert(t.take(i - start) =~= pre);
        assert(t.last() == s@[n - 1]);
        assert(meas_shape_ok(t));
    }
    let frac: u8 = c - 48;
    let val10: u64 = acc * 10 + (frac as u64);
    if val10 > 9_223_372_036_854_775_807 {
        return None;
    }
    let v: i64 = val10 as i64;
    if neg {
        Some(-v)
    } else {
        Some(v)
    }
}

} // verus!
