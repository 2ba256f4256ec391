//! The input grammar, as mathematics.
//!
//! A record is one line `station ";" measurement` where the measurement is a
//! signed decimal with at most one fractional digit. `records_of` lists the
//! well-formed records of a byte stream in order; everything the pipeline
//! promises is stated over it.
use vstd::prelude::*;

verus! {

pub const NL: u8 = 10;

pub const SEMI: u8 = 59;

pub const DOT: u8 = 46;

pub const MINUS: u8 = 45;

pub open spec fn is_digit(b: u8) -> bool {
    48 <= b <= 57
}

pub open spec fn digit_val(b: u8) -> int {
    b - 48
}

pub open spec fn all_digits(s: Seq<u8>) -> bool {
    forall|i: int| 0 <= i < s.len() ==> is_digit(#[trigger] s[i])
}

/// The value of a digit string, most significant digit first.
pub open spec fn digits_val(s: Seq<u8>) -> int
    decreases s.len(),
{
    if s.len() == 0 {
        0
    } else {
        digits_val(s.drop_last()) * 10 + digit_val(s.last())
    }
}

pub proof fn lemma_digits_val_nonneg(s: Seq<u8>)
    requires
        all_digits(s),
    ensures
        digits_val(s) >= 0,
    decreases s.len(),
{
    if s.len() > 0 {
        assert(all_digits(s.drop_last()));
        lemma_digits_val_nonneg(s.drop_last());
    }
}

/// The index of the first occurrence of `b` in `s`, or `-1` if there is none.
pub open spec fn find_byte(s: Seq<u8>, b: u8) -> int
    decreases s.len(),
{
    if s.len() == 0 {
        -1
    } else if s[0] == b {
        0
    } else {
        let r = find_byte(s.skip(1), b);
        if r < 0 {
            -1
        } else {
            r + 1
        }
    }
}

pub proof fn lemma_find_byte_props(s: Seq<u8>, b: u8)
    ensures
        -1 <= find_byte(s, b) < s.len(),
        find_byte(s, b) == -1 ==> forall|i: int| 0 <= i < s.len() ==> s[i] != b,
        find_byte(s, b) >= 0 ==> s[find_byte(s, b)] == b,
        find_byte(s, b) >= 0 ==> forall|i: int| 0 <= i < find_byte(s, b) ==> s[i] != b,
    decreases s.len(),
{
    if s.len() == 0 {
    } else if s[0] == b {
    } else {
        lemma_find_byte_props(s.skip(1), b);
        let r = find_byte(s.skip(1), b);
        if r < 0 {
            assert forall|i: int| 0 <= i < s.len() implies s[i] != b by {
                if i > 0 {
                    assert(s.skip(1)[i - 1] == s[i]);
                }
            }
        } else {
            assert(s.skip(1)[r] == s[r + 1]);
            assert forall|i: int| 0 <= i < r + 1 implies s[i] != b by {
                if i > 0 {
                    assert(s.skip(1)[i - 1] == s[i]);
                }
            }
        }
    }
}

/// `find_byte` is pinned down by the first-occurrence description.
pub proof fn lemma_find_byte_first(s: Seq<u8>, b: u8, i: int)
    requires
        0 <= i < s.len(),
        s[i] == b,
        forall|j: int| 0 <= j < i ==> s[j] != b,
    ensures
        find_byte(s, b) == i,
    decreases s.len(),
{
    if i == 0 {
    } else {
        assert(forall|j: int| 0 <= j < s.len() - 1 ==> s.skip(1)[j] == s[j + 1]);
        lemma_find_byte_first(s.skip(1), b, i - 1);
    }
}

/// A hit inside a prefix is unaffected by what follows it.
pub proof fn lemma_find_byte_prefix(a: Seq<u8>, c: Seq<u8>, b: u8)
    requires
        find_byte(a, b) >= 0,
    ensures
        find_byte(a + c, b) == find_byte(a, b),
{
    lemma_find_byte_props(a, b);
    lemma_find_byte_first(a + c, b, find_byte(a, b));
}

/// The measurement grammar: `["-"] digit+ ("." digit)?`, checked on the part
/// after the optional sign.
pub open spec fn meas_shape_ok(t: Seq<u8>) -> bool {
    let d = find_byte(t, DOT);
    if d < 0 {
        t.len() >= 1 && all_digits(t)
    } else {
        1 <= d && d == t.len() - 2 && all_digits(t.take(d)) && is_digit(t.last())
    }
}

/// The magnitude of a shaped measurement, in tenths.
pub open spec fn meas_magnitude(t: Seq<u8>) -> int {
    let d = find_byte(t, DOT);
    if d < 0 {
        digits_val(t) * 10
    } else {
        digits_val(t.take(d)) * 10 + digit_val(t.last())
    }
}

/// What a measurement field means: its value in tenths, or `None` when the
/// field is malformed or its magnitude does not fit the fixed-point
/// representation.
pub open spec fn parse_measurement_spec(s: Seq<u8>) -> Option<int> {
    let neg = s.len() >= 1 && s[0] == MINUS;
    let t = if neg {
        s.skip(1)
    } else {
        s
    };
    if meas_shape_ok(t) && meas_magnitude(t) <= crate::MAX_ABS_TENTHS as int {
        Some(
            if neg {
                -meas_magnitude(t)
            } else {
                meas_magnitude(t)
            },
        )
    } else {
        None
    }
}

pub proof fn lemma_meas_magnitude_nonneg(t: Seq<u8>)
    requires
        meas_shape_ok(t),
    ensures
        meas_magnitude(t) >= 0,
{
    let d = find_byte(t, DOT);
    if d < 0 {
        lemma_digits_val_nonneg(t);
    } else {
        lemma_digits_val_nonneg(t.take(d));
    }
}

/// What one line means: the station bytes before the first `;` and the
/// measurement after it, or `None` for a line the pipeline skips.
pub open spec fn parse_record_spec(line: Seq<u8>) -> Option<(Seq<u8>, int)> {
    let j = find_byte(line, SEMI);
    if j < 0 {
        None
    } else {
        match parse_measurement_spec(line.skip(j + 1)) {
            Some(v) => Some((line.take(j), v)),
            None => None,
        }
    }
}

pub open spec fn rec_seq(r: Option<(Seq<u8>, int)>) -> Seq<(Seq<u8>, int)> {
    match r {
        Some(p) => seq![p],
        None => Seq::empty(),
    }
}

/// The well-formed records of a byte stream, in order. Lines are delimited by
/// `\n`; a final line without a terminator is still a line.
pub open spec fn records_of(s: Seq<u8>) -> Seq<(Seq<u8>, int)>
    decreases s.len(),
{
    if s.len() == 0 {
        Seq::empty()
    } else {
        let i = find_byte(s, NL);
        if 0 <= i && i < s.len() {
            rec_seq(parse_record_spec(s.take(i))) + records_of(s.skip(i + 1))
        } else {
            rec_seq(parse_record_spec(s))
        }
    }
}

/// Records distribute over concatenation at a line boundary: this is what
/// makes chunking at `\n` sound.
pub proof fn lemma_records_concat(a: Seq<u8>, c: Seq<u8>)
    requires
        a.len() == 0 || a.last() == NL,
    ensures
        records_of(a + c) == records_of(a) + records_of(c),
    decreases a.len(),
{
    if a.len() == 0 {
        assert(a + c =~= c);
        assert(records_of(a) + records_of(c) =~= records_of(c));
    } else {
        lemma_find_byte_props(a, NL);
        let i = find_byte(a, NL);
        assert(i >= 0) by {
            if i == -1 {
                assert(a[a.len() - 1] == NL);
            }
        }
        lemma_find_byte_prefix(a, c, NL);
        assert((a + c).take(i) =~= a.take(i));
        assert((a + c).skip(i + 1) =~= a.skip(i + 1) + c);
        if i + 1 < a.len() {
            assert(a.skip(i + 1).last() == a.last());
        }
        lemma_records_concat(a.skip(i + 1), c);
        assert(records_of(a + c) =~= records_of(a) + records_of(c));
    }
}

/// A well-formed record's line holds at least a `;` and one digit.
pub proof fn lemma_parse_record_len(line: Seq<u8>)
    ensures
        parse_record_spec(line) is Some ==> line.len() >= 2,
{
    let j = find_byte(line, SEMI);
    lemma_find_byte_props(line, SEMI);
    if j >= 0 {
        let m = line.skip(j + 1);
        let neg = m.len() >= 1 && m[0] == MINUS;
        let t = if neg {
            m.skip(1)
        } else {
            m
        };
        if meas_shape_ok(t) {
            let d = find_byte(t, DOT);
            lemma_find_byte_props(t, DOT);
            assert(t.len() >= 1);
            assert(m.len() >= 1);
        }
    }
}

/// A byte stream of length `L` holds at most `(L + 1) / 2` records: every
/// record needs two bytes of line and the lines are separated.
pub proof fn lemma_records_bound(s: Seq<u8>)
    ensures
        2 * records_of(s).len() <= s.len() + 1,
    decreases s.len(),
{
    if s.len() == 0 {
    } else {
        lemma_find_byte_props(s, NL);
        let i = find_byte(s, NL);
        if 0 <= i && i < s.len() {
            lemma_parse_record_len(s.take(i));
            lemma_records_bound(s.skip(i + 1));
        } else {
            lemma_parse_record_len(s);
        }
    }
}

/// Every record value the pipeline folds fits the fixed-point representation.
pub open spec fn recs_ok(rs: Seq<(Seq<u8>, int)>) -> bool {
    forall|i: int|
        0 <= i < rs.len() ==> -(crate::MAX_ABS_TENTHS as int) <= (#[trigger] rs[i]).1
            <= crate::MAX_ABS_TENTHS as int
}

pub proof fn lemma_parse_record_ok(line: Seq<u8>)
    ensures
        recs_ok(rec_seq(parse_record_spec(line))),
{
    let j = find_byte(line, SEMI);
    if j >= 0 {
        let m = line.skip(j + 1);
        let neg = m.len() >= 1 && m[0] == MINUS;
        let t = if neg {
            m.skip(1)
        } else {
            m
        };
        if meas_shape_ok(t) {
            lemma_meas_magnitude_nonneg(t);
        }
    }
}

pub proof fn lemma_records_ok(s: Seq<u8>)
    ensures
        recs_ok(records_of(s)),
    decreases s.len(),
{
    if s.len() == 0 {
    } else {
        let i = find_byte(s, NL);
        if 0 <= i && i < s.len() {
            lemma_parse_record_ok(s.take(i));
            lemma_records_ok(s.skip(i + 1));
        } else {
            lemma_parse_record_ok(s);
        }
    }
}

} // verus!
