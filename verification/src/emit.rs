//! Ordered emission: byte-wise lexicographic order on station names, building
//! the sorted entry list, and rendering `station;min;mean;max` lines with one
//! fractional digit.
use vstd::prelude::*;
use vstd::slice::slice_to_vec;
use crate::stats::{SStats, Stats, stats_wf, round_div};
use crate::aggregate::map_wf;
use crate::records::{NL, SEMI, DOT, MINUS};
use crate::table::{
    StationTable, RawStats, table_view, table_model, table_entries, raw_to_stats, unpack,
};

verus! {

/// Strict byte-wise lexicographic order (unsigned compare).
pub open spec fn lex_lt(a: Seq<u8>, b: Seq<u8>) -> bool
    decreases a.len(),
{
    if b.len() == 0 {
        false
    } else if a.len() == 0 {
        true
    } else if a[0] < b[0] {
        true
    } else if a[0] > b[0] {
        false
    } else {
        lex_lt(a.skip(1), b.skip(1))
    }
}

/// Two keys are ordered one way or the other, or equal.
pub proof fn lemma_lex_connex(a: Seq<u8>, b: Seq<u8>)
    ensures
        lex_lt(a, b) || lex_lt(b, a) || a == b,
    decreases a.len(),
{
    if b.len() == 0 || a.len() == 0 {
        if a.len() == b.len() {
            assert(a =~= b);
        }
    } else if a[0] == b[0] {
        lemma_lex_connex(a.skip(1), b.skip(1));
        if !lex_lt(a, b) && !lex_lt(b, a) {
            assert(a.skip(1) == b.skip(1));
            assert forall|i: int| 0 <= i < a.len() implies a[i] == b[i] by {
                if i > 0 {
                    assert(a.skip(1)[i - 1] == a[i]);
                    assert(b.skip(1)[i - 1] == b[i]);
                }
            }
            assert(a =~= b);
        }
    }
}

/// The order is asymmetric, hence irreflexive.
pub proof fn lemma_lex_asym(a: Seq<u8>, b: Seq<u8>)
    ensures
        !(lex_lt(a, b) && lex_lt(b, a)),
        lex_lt(a, b) ==> a != b,
    decreases a.len(),
{
    if a.len() > 0 && b.len() > 0 && a[0] == b[0] {
        lemma_lex_asym(a.skip(1), b.skip(1));
        if a == b {
            assert(a.skip(1) == b.skip(1));
        }
    }
}

/// The order is transitive.
pub proof fn lemma_lex_trans(a: Seq<u8>, b: Seq<u8>, c: Seq<u8>)
    requires
        lex_lt(a, b),
        lex_lt(b, c),
    ensures
        lex_lt(a, c),
    decreases a.len(),
{
    if a.len() > 0 && b.len() > 0 && c.len() > 0 {
        if a[0] == b[0] && b[0] == c[0] {
            lemma_lex_trans(a.skip(1), b.skip(1), c.skip(1));
        }
    }
}

/// Byte-wise comparison of two keys.
pub fn lex_lt_bytes(a: &[u8], b: &[u8]) -> (r: bool)
    ensures
        r == lex_lt(a@, b@),
{
    let an: usize = a.len();
    let bn: usize = b.len();
    let mut i: usize = 0;
    proof {
        assert(a@.skip(0) =~= a@);
        assert(b@.skip(0) =~= b@);
    }
    while i < an && i < bn
        invariant
            i <= an,
            i <= bn,
            an == a@.len(),
            bn == b@.len(),
            lex_lt(a@, b@) == lex_lt(a@.skip(i as int), b@.skip(i as int)),
        decreases an - i,
    {
        let ghost sa = a@.skip(i as int);
        let ghost sb = b@.skip(i as int);
        proof {
            assert(sa[0] == a@[i as int]);
            assert(sb[0] == b@[i as int]);
        }
        if a[i] < b[i] {
            return true;
        }
        if a[i] > b[i] {
            return false;
        }
        i = i + 1;
        proof {
            assert(sa.skip(1) =~= a@.skip(i as int));
            assert(sb.skip(1) =~= b@.skip(i as int));
        }
    }
    proof {
        let sa = a@.skip(i as int);
        let sb = b@.skip(i as int);
        assert(sa.len() == an - i);
        assert(sb.len() == bn - i);
    }
    i < bn
}

/// The view of an entry list: keys and records as mathematics.
pub open spec fn entries_view(es: Seq<(Vec<u8>, Stats)>) -> Seq<(Seq<u8>, SStats)> {
    es.map_values(|e: (Vec<u8>, Stats)| (e.0@, e.1@))
}

/// `es` lists exactly the entries of `m`, strictly increasing by key.
pub open spec fn is_sorted_entries(m: Map<Seq<u8>, SStats>, es: Seq<(Seq<u8>, SStats)>) -> bool {
    &&& forall|i: int, j: int|
        0 <= i < j < es.len() ==> lex_lt((#[trigger] es[i]).0, (#[trigger] es[j]).0)
    &&& forall|i: int|
        0 <= i < es.len() ==> m.dom().contains((#[trigger] es[i]).0) && m[es[i].0] == es[i].1
    &&& forall|k: Seq<u8>|
        #[trigger] m.dom().contains(k) ==> exists|i: int| 0 <= i < es.len() && (#[trigger] es[i]).0
            == k
}

/// Inserts a fresh key at its place in a strictly sorted entry list.
fn insert_sorted(out: &mut Vec<(Vec<u8>, Stats)>, key: Vec<u8>, st: Stats)
    requires
        forall|i: int, j: int|
            0 <= i < j < old(out)@.len() ==> lex_lt(
                (#[trigger] old(out)@[i]).0@,
                (#[trigger] old(out)@[j]).0@,
            ),
        forall|p: int| 0 <= p < old(out)@.len() ==> (#[trigger] old(out)@[p]).0@ != key@,
    ensures
        forall|i: int, j: int|
            0 <= i < j < final(out)@.len() ==> lex_lt(
                (#[trigger] final(out)@[i]).0@,
                (#[trigger] final(out)@[j]).0@,
            ),
        final(out)@.len() == old(out)@.len() + 1,
        forall|p: int|
            #![trigger old(out)@[p]]
            0 <= p < old(out)@.len() ==> exists|q: int|
                0 <= q < final(out)@.len() && #[trigger] final(out)@[q] == old(out)@[p],
        forall|q: int|
            0 <= q < final(out)@.len() ==> (#[trigger] final(out)@[q]).0@ == key@ && final(out)@[q].1 == st || exists|p: int|
                0 <= p < old(out)@.len() && #[trigger] old(out)@[p] == final(out)@[q],
        exists|q: int|
            0 <= q < final(out)@.len() && (#[trigger] final(out)@[q]).0@ == key@ && final(out)@[q].1 == st,
{
    let ghost out0 = out@;
    let ghost k = key@;
    let n: usize = out.len();
    let mut j: usize = 0;
    while j < n && lex_lt_bytes(out[j].0.as_slice(), key.as_slice())
        invariant
            j <= n,
            n == out@.len(),
            out@ == out0,
            k == key@,
            forall|p: int| 0 <= p < j ==> lex_lt((#[trigger] out@[p]).0@, k),
        decreases n - j,
    {
        j = j + 1;
    }
    proof {
        if j < out@.len() {
            lemma_lex_connex(out0[j as int].0@, k);
            assert(out0[j as int].0@ != k);
            assert(lex_lt(k, out0[j as int].0@));
        }
    }
    out.insert(j, (key, st));
    proof {
        assert(out@ == out0.insert(j as int, ((key, st))));
        assert(forall|p: int| 0 <= p < j ==> out@[p] == out0[p]);
        assert(out@[j as int].0@ == k && out@[j as int].1 == st);
        assert(forall|p: int| j < p < out@.len() ==> out@[p] == out0[p - 1]);
        assert forall|i: int, jj: int|
            0 <= i < jj < out@.len() implies lex_lt(
            (#[trigger] out@[i]).0@,
            (#[trigger] out@[jj]).0@,
        ) by {
            if i < j && jj == j {
            } else if i == j && jj > j {
                if !lex_lt(k, out0[jj - 1].0@) {
                    lemma_lex_trans_helper(k, out0[j as int].0@, out0[jj - 1].0@);
                }
            } else if i < j && jj > j {
                assert(lex_lt(out0[i].0@, out0[jj - 1].0@));
            } else {
            }
        }
        assert forall|p: int| #![trigger out0[p]] 0 <= p < out0.len() implies exists|q: int|
            0 <= q < out@.len() && #[trigger] out@[q] == out0[p] by {
            if p < j {
                assert(out@[p] == out0[p]);
            } else {
                assert(out@[p + 1] == out0[p]);
            }
        }
    }
}

/// Drains a table into its entry list, sorted ascending by station bytes.
pub fn sorted_entries(m: StationTable) -> (r: Vec<(Vec<u8>, Stats)>)
    requires
        map_wf(table_model(table_view(m))),
    ensures
        is_sorted_entries(table_model(table_view(m)), entries_view(r@)),
        forall|i: int| 0 <= i < r@.len() ==> stats_wf((#[trigger] entries_view(r@)[i]).1),
{
    let ghost model = table_model(table_view(m));
    let entries: Vec<(Vec<u8>, RawStats)> = table_entries(m);
    let mut out: Vec<(Vec<u8>, Stats)> = Vec::new();
    let mut idx: usize = 0;
    while idx < entries.len()
        invariant
            idx <= entries@.len(),
            map_wf(model),
            forall|i: int|
                0 <= i < entries@.len() ==> model.dom().contains((#[trigger] entries@[i]).0@)
                    && model[entries@[i].0@] == unpack(entries@[i].1),
            forall|k: Seq<u8>|
                #[trigger] model.dom().contains(k) ==> exists|i: int|
                    0 <= i < entries@.len() && (#[trigger] entries@[i]).0@ == k,
            forall|i: int, j: int| 0 <= i < j < entries@.len() ==> entries@[i].0@ != entries@[j].0@,
            forall|i: int, j: int|
                0 <= i < j < out@.len() ==> lex_lt(
                    (#[trigger] out@[i]).0@,
                    (#[trigger] out@[j]).0@,
                ),
            forall|p: int|
                0 <= p < out@.len() ==> model.dom().contains((#[trigger] out@[p]).0@) && model[
                    out@[p].0@] == out@[p].1@ && stats_wf(out@[p].1@),
            forall|i: int|
                0 <= i < idx ==> exists|p: int|
                    0 <= p < out@.len() && (#[trigger] out@[p]).0@ == (#[trigger] entries@[i]).0@,
            forall|p: int|
                0 <= p < out@.len() ==> exists|i: int|
                    0 <= i < idx && (#[trigger] entries@[i]).0@ == (#[trigger] out@[p]).0@,
        decreases entries@.len() - idx,
    {
        let e: &(Vec<u8>, RawStats) = &entries[idx];
        let st: Stats = raw_to_stats(e.1);
        let key: Vec<u8> = slice_to_vec(e.0.as_slice());
        let ghost k = key@;
        let ghost out0 = out@;
        proof {
            assert(model.dom().contains(k) && model[k] == st@);
            assert forall|p: int| 0 <= p < out@.len() implies (#[trigger] out@[p]).0@ != k by {
                let i = choose|i: int|
                    0 <= i < idx && (#[trigger] entries@[i]).0@ == out@[p].0@;
                assert(entries@[i].0@ != entries@[idx as int].0@);
            }
        }
        insert_sorted(&mut out, key, st);
        proof {
            assert forall|p: int|
                0 <= p < out@.len() implies model.dom().contains((#[trigger] out@[p]).0@)
                && model[out@[p].0@] == out@[p].1@ && stats_wf(out@[p].1@) by {
                if out@[p].0@ == k && out@[p].1 == st {
                } else {
                    let q = choose|q: int|
                        0 <= q < out0.len() && #[trigger] out0[q] == out@[p];
                }
            }
            assert forall|i: int|
                0 <= i < idx + 1 implies exists|p: int|
                0 <= p < out@.len() && (#[trigger] out@[p]).0@ == (#[trigger] entries@[i]).0@ by {
                if i < idx {
                    let p0 = choose|p: int|
                        0 <= p < out0.len() && (#[trigger] out0[p]).0@ == entries@[i].0@;
                    let q = choose|q: int|
                        0 <= q < out@.len() && #[trigger] out@[q] == out0[p0];
                    assert(out@[q].0@ == entries@[i].0@);
                } else {
                    let q = choose|q: int|
                        0 <= q < out@.len() && (#[trigger] out@[q]).0@ == k && out@[q].1 == st;
                    assert(out@[q].0@ == entries@[idx as int].0@);
                }
            }
            assert forall|p: int|
                0 <= p < out@.len() implies exists|i: int|
                0 <= i < idx + 1 && (#[trigger] entries@[i]).0@ == (#[trigger] out@[p]).0@ by {
                if out@[p].0@ == k && out@[p].1 == st {
                    assert(entries@[idx as int].0@ == out@[p].0@);
                } else {
                    let q = choose|q: int|
                        0 <= q < out0.len() && #[trigger] out0[q] == out@[p];
                    let i = choose|i: int|
                        0 <= i < idx && (#[trigger] entries@[i]).0@ == out0[q].0@;
                    assert(entries@[i].0@ == out@[p].0@);
                }
            }
        }
        idx = idx + 1;
    }
    proof {
        assert forall|k: Seq<u8>| #[trigger] model.dom().contains(k) implies exists|i: int|
            0 <= i < entries_view(out@).len() && (#[trigger] entries_view(out@)[i]).0 == k by {
            let i = choose|i: int|
                0 <= i < entries@.len() && (#[trigger] entries@[i]).0@ == k;
            let p = choose|p: int|
                0 <= p < out@.len() && (#[trigger] out@[p]).0@ == entries@[i].0@;
            assert(entries_view(out@)[p].0 == k);
        }
    }
    out
}

/// Either already ordered after the pivot, or ordered through it.
proof fn lemma_lex_trans_helper(a: Seq<u8>, b: Seq<u8>, c: Seq<u8>)
    requires
        lex_lt(a, b),
        lex_lt(b, c) || b == c,
    ensures
        lex_lt(a, c),
{
    if lex_lt(b, c) {
        lemma_lex_trans(a, b, c);
    }
}

/// The decimal digits of a nonnegative number.
pub open spec fn dec_digits(n: int) -> Seq<u8>
    decreases n,
{
    if n < 10 {
        seq![(48 + n) as u8]
    } else {
        dec_digits(n / 10) + seq![(48 + n % 10) as u8]
    }
}

/// A value in tenths, formatted with exactly one fractional digit, sign first.
pub open spec fn fmt_tenths(v: int) -> Seq<u8> {
    if v < 0 {
        seq![MINUS] + fmt_abs(-v)
    } else {
        fmt_abs(v)
    }
}

pub open spec fn fmt_abs(n: int) -> Seq<u8> {
    dec_digits(n / 10) + seq![DOT] + seq![(48 + n % 10) as u8]
}

/// One output line: `station;min;mean;max\n`, each field in tenths.
pub open spec fn render_line(k: Seq<u8>, st: SStats) -> Seq<u8> {
    k + seq![SEMI] + fmt_tenths(st.min) + seq![SEMI] + fmt_tenths(
        round_div(st.sum, st.count as int),
    ) + seq![SEMI] + fmt_tenths(st.max) + seq![NL]
}

/// The whole output: one line per entry, in order.
pub open spec fn render(es: Seq<(Seq<u8>, SStats)>) -> Seq<u8>
    decreases es.len(),
{
    if es.len() == 0 {
        Seq::empty()
    } else {
        render(es.drop_last()) + render_line(es.last().0, es.last().1)
    }
}

fn push_dec(out: &mut Vec<u8>, n: u64)
    ensures
        final(out)@ == old(out)@ + dec_digits(n as int),
    decreases n,
{
    if n < 10 {
        out.push(48 + (n as u8));
        proof {
            assert(out@ =~= old(out)@ + dec_digits(n as int));
        }
    } else {
        push_dec(out, n / 10);
        out.push(48 + ((n % 10) as u8));
        proof {
            assert(out@ =~= old(out)@ + dec_digits(n as int));
        }
    }
}

fn push_tenths(out: &mut Vec<u8>, v: i64)
    requires
        i64::MIN < v,
    ensures
        final(out)@ == old(out)@ + fmt_tenths(v as int),
{
    let n: u64;
    if v < 0 {
        out.push(MINUS);
        n = (-v) as u64;
    } else {
        n = v as u64;
    }
    push_dec(out, n / 10);
    out.push(DOT);
    out.push(48 + ((n % 10) as u8));
    proof {
        assert(out@ =~= old(out)@ + fmt_tenths(v as int));
    }
}

fn push_bytes(out: &mut Vec<u8>, s: &[u8])
    ensures
        final(out)@ == old(out)@ + s@,
{
    let n: usize = s.len();
    let mut i: usize = 0;
    proof {
        assert(out@ =~= old(out)@ + s@.take(0));
    }
    while i < n
        invariant
            i <= n,
            n == s@.len(),
            out@ == old(out)@ + s@.take(i as int),
        decreases n - i,
    {
        out.push(s[i]);
        i = i + 1;
        proof {
            assert(out@ =~= old(out)@ + s@.take(i as int));
        }
    }
    proof {
        assert(s@.take(n as int) =~= s@);
    }
}

/// Renders the sorted entry list into the output bytes.
pub fn render_entries(es: &Vec<(Vec<u8>, Stats)>) -> (out: Vec<u8>)
    requires
        forall|i: int| 0 <= i < es@.len() ==> stats_wf((#[trigger] es@[i]).1@),
    ensures
        out@ == render(entries_view(es@)),
{
    let mut out: Vec<u8> = Vec::new();
    let mut i: usize = 0;
    proof {
        assert(entries_view(es@).take(0) =~= Seq::<(Seq<u8>, SStats)>::empty());
    }
    while i < es.len()
        invariant
            i <= es@.len(),
            forall|p: int| 0 <= p < es@.len() ==> stats_wf((#[trigger] es@[p]).1@),
            out@ == render(entries_view(es@).take(i as int)),
        decreases es@.len() - i,
    {
        let ghost out0 = out@;
        let e: &(Vec<u8>, Stats) = &es[i];
        push_bytes(&mut out, e.0.as_slice());
        out.push(SEMI);
        push_tenths(&mut out, e.1.min);
        out.push(SEMI);
        let mean: i64 = e.1.mean_tenths();
        push_tenths(&mut out, mean);
        out.push(SEMI);
        push_tenths(&mut out, e.1.max);
        out.push(NL);
        i = i + 1;
        proof {
            let ev = entries_view(es@);
            assert(ev.take(i as int).drop_last() =~= ev.take(i as int - 1));
            assert(ev.take(i as int).last() == ev[i as int - 1]);
            assert(out@ =~= out0 + render_line(ev[i as int - 1].0, ev[i as int - 1].1));
        }
    }
    proof {
        assert(entries_view(es@).take(es@.len() as int) =~= entries_view(es@));
    }
    out
}

} // verus!
