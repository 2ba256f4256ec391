//! The laws of the pipeline, stated over the byte-stream model and proved
//! once and for all: bounds of the mean, exactness of the extrema, counts,
//! keys, determinism, and the merge laws that make chunked and split
//! processing sound.
use vstd::prelude::*;
use crate::stats::{round_div, lemma_mean_in_range, lemma_round_div_scale};
use crate::records::{records_of, lemma_records_ok, lemma_records_concat, NL};
use crate::aggregate::{
    aggregate, map_merge, total_count, lemma_agg_wf, lemma_agg_concat, lemma_total_count_is_len,
};
use crate::emit::{is_sorted_entries, lex_lt, lemma_lex_asym};
use crate::pipeline::summary_spec;
use crate::stats::SStats;

verus! {

/// For every station of a byte stream, the rounded mean lies between the
/// minimum and the maximum.
pub proof fn lemma_mean_between_extrema(s: Seq<u8>, k: Seq<u8>)
    requires
        aggregate(records_of(s)).dom().contains(k),
    ensures
        ({
            let st = aggregate(records_of(s))[k];
            st.min <= round_div(st.sum, st.count as int) <= st.max
        }),
{
    lemma_records_ok(s);
    lemma_agg_wf(records_of(s));
    lemma_mean_in_range(aggregate(records_of(s))[k]);
}

/// Every station of a byte stream accounts for at least one record.
pub proof fn lemma_count_at_least_one(s: Seq<u8>, k: Seq<u8>)
    requires
        aggregate(records_of(s)).dom().contains(k),
    ensures
        aggregate(records_of(s))[k].count >= 1,
{
    lemma_records_ok(s);
    lemma_agg_wf(records_of(s));
}

/// The keys of an aggregate are exactly the stations of the records.
pub proof fn lemma_keys_are_stations(rs: Seq<(Seq<u8>, int)>, k: Seq<u8>)
    ensures
        aggregate(rs).dom().contains(k) <==> exists|i: int|
            0 <= i < rs.len() && (#[trigger] rs[i]).0 == k,
    decreases rs.len(),
{
    if rs.len() == 0 {
    } else {
        let rsp = rs.drop_last();
        lemma_keys_are_stations(rsp, k);
        assert(forall|i: int| 0 <= i < rsp.len() ==> rsp[i] == rs[i]);
        if aggregate(rs).dom().contains(k) {
            if k == rs.last().0 {
                assert(rs[rs.len() - 1].0 == k);
            } else {
                assert(aggregate(rsp).dom().contains(k));
                let i = choose|i: int| 0 <= i < rsp.len() && (#[trigger] rsp[i]).0 == k;
                assert(rs[i].0 == k);
            }
        }
        if exists|i: int| 0 <= i < rs.len() && (#[trigger] rs[i]).0 == k {
            let i = choose|i: int| 0 <= i < rs.len() && (#[trigger] rs[i]).0 == k;
            if i == rs.len() - 1 {
            } else {
                assert(rsp[i].0 == k);
            }
        }
    }
}

/// The counts over all stations sum to the number of well-formed records.
pub proof fn lemma_counts_sum_to_records(s: Seq<u8>)
    ensures
        total_count(aggregate(records_of(s))) == records_of(s).len(),
{
    lemma_total_count_is_len(records_of(s));
}

/// The measurements of station `k`, in record order.
pub open spec fn station_values(rs: Seq<(Seq<u8>, int)>, k: Seq<u8>) -> Seq<int>
    decreases rs.len(),
{
    if rs.len() == 0 {
        Seq::empty()
    } else if rs.last().0 == k {
        station_values(rs.drop_last(), k).push(rs.last().1)
    } else {
        station_values(rs.drop_last(), k)
    }
}

pub open spec fn seq_min_val(s: Seq<int>) -> int
    decreases s.len(),
{
    if s.len() <= 1 {
        s[0]
    } else {
        let m = seq_min_val(s.drop_last());
        if s.last() < m {
            s.last()
        } else {
            m
        }
    }
}

pub open spec fn seq_max_val(s: Seq<int>) -> int
    decreases s.len(),
{
    if s.len() <= 1 {
        s[0]
    } else {
        let m = seq_max_val(s.drop_last());
        if s.last() > m {
            s.last()
        } else {
            m
        }
    }
}

pub open spec fn seq_sum_val(s: Seq<int>) -> int
    decreases s.len(),
{
    if s.len() == 0 {
        0
    } else {
        seq_sum_val(s.drop_last()) + s.last()
    }
}

proof fn lemma_station_values_absent(rs: Seq<(Seq<u8>, int)>, k: Seq<u8>)
    requires
        forall|i: int| 0 <= i < rs.len() ==> (#[trigger] rs[i]).0 != k,
    ensures
        station_values(rs, k) == Seq::<int>::empty(),
    decreases rs.len(),
{
    if rs.len() > 0 {
        assert(forall|i: int| 0 <= i < rs.len() - 1 ==> rs.drop_last()[i] == rs[i]);
        lemma_station_values_absent(rs.drop_last(), k);
        assert(rs[rs.len() - 1].0 != k);
    }
}

/// Exactness: a station's record is exactly the count, sum, minimum and
/// maximum of that station's measurements.
pub proof fn lemma_station_stats_exact(rs: Seq<(Seq<u8>, int)>, k: Seq<u8>)
    requires
        aggregate(rs).dom().contains(k),
    ensures
        ({
            let st = aggregate(rs)[k];
            let vs = station_values(rs, k);
            vs.len() >= 1 && st.count == vs.len() && st.min == seq_min_val(vs) && st.max
                == seq_max_val(vs) && st.sum == seq_sum_val(vs)
        }),
    decreases rs.len(),
{
    assert(rs.len() > 0);
    let rsp = rs.drop_last();
    let last = rs.last();
    let m = aggregate(rsp);
    let vs = station_values(rs, k);
    if last.0 == k {
        let vs0 = station_values(rsp, k);
        assert(vs == vs0.push(last.1));
        if m.dom().contains(k) {
            lemma_station_stats_exact(rsp, k);
            assert(vs.drop_last() =~= vs0);
            assert(vs.last() == last.1);
            assert(vs.len() == vs0.len() + 1);
            assert(seq_sum_val(vs) == seq_sum_val(vs0) + last.1);
            assert(seq_min_val(vs) == if last.1 < seq_min_val(vs0) { last.1 } else { seq_min_val(vs0) });
            assert(seq_max_val(vs) == if last.1 > seq_max_val(vs0) { last.1 } else { seq_max_val(vs0) });
        } else {
            lemma_keys_are_stations(rsp, k);
            assert(forall|i: int| 0 <= i < rsp.len() ==> (#[trigger] rsp[i]).0 != k);
            lemma_station_values_absent(rsp, k);
            assert(vs =~= seq![last.1]);
            assert(vs.len() == 1);
            assert(vs[0] == last.1);
            assert(vs.drop_last() =~= Seq::<int>::empty());
            assert(seq_sum_val(Seq::<int>::empty()) == 0);
            assert(seq_sum_val(vs) == last.1);
            assert(seq_min_val(vs) == last.1);
            assert(seq_max_val(vs) == last.1);
        }
    } else {
        assert(m.dom().contains(k));
        lemma_station_stats_exact(rsp, k);
        assert(vs == station_values(rsp, k));
        assert(aggregate(rs)[k] == m[k]);
    }
}

/// A station map has at most one sorted entry list.
pub proof fn lemma_sorted_entries_unique(
    m: Map<Seq<u8>, SStats>,
    e1: Seq<(Seq<u8>, SStats)>,
    e2: Seq<(Seq<u8>, SStats)>,
)
    requires
        is_sorted_entries(m, e1),
        is_sorted_entries(m, e2),
    ensures
        e1 == e2,
    decreases e1.len(),
{
    if e1.len() == 0 {
        if e2.len() > 0 {
            assert(m.dom().contains(e2[0].0));
            assert(false);
        }
        assert(e1 =~= e2);
    } else if e2.len() == 0 {
        assert(m.dom().contains(e1[0].0));
        assert(false);
    } else {
        let a = e1[0].0;
        let b = e2[0].0;
        assert(m.dom().contains(a));
        assert(m.dom().contains(b));
        let j = choose|j: int| 0 <= j < e2.len() && (#[trigger] e2[j]).0 == a;
        let i = choose|i: int| 0 <= i < e1.len() && (#[trigger] e1[i]).0 == b;
        if a != b {
            assert(j >= 1);
            assert(lex_lt(e2[0].0, e2[j].0));
            assert(i >= 1);
            assert(lex_lt(e1[0].0, e1[i].0));
            lemma_lex_asym(a, b);
            assert(false);
        }
        assert(e1[0] == e2[0]);
        let m2 = m.remove(a);
        let t1 = e1.skip(1);
        let t2 = e2.skip(1);
        assert(forall|p: int| 0 <= p < t1.len() ==> t1[p] == e1[p + 1]);
        assert(forall|p: int| 0 <= p < t2.len() ==> t2[p] == e2[p + 1]);
        assert(is_sorted_entries(m2, t1)) by {
            lemma_sorted_tail(m, e1);
        }
        assert(is_sorted_entries(m2, t2)) by {
            lemma_sorted_tail(m, e2);
        }
        lemma_sorted_entries_unique(m2, t1, t2);
        assert(e1.len() == e2.len());
        assert forall|p: int| 0 <= p < e1.len() implies e1[p] == e2[p] by {
            if p >= 1 {
                assert(t1[p - 1] == e1[p]);
                assert(t2[p - 1] == e2[p]);
            }
        }
        assert(e1 =~= e2);
    }
}

/// The tail of a sorted entry list is the sorted entry list of the map
/// without its least key.
proof fn lemma_sorted_tail(m: Map<Seq<u8>, SStats>, es: Seq<(Seq<u8>, SStats)>)
    requires
        is_sorted_entries(m, es),
        es.len() >= 1,
    ensures
        is_sorted_entries(m.remove(es[0].0), es.skip(1)),
{
    let a = es[0].0;
    let t = es.skip(1);
    assert(forall|p: int| 0 <= p < t.len() ==> t[p] == es[p + 1]);
    assert forall|p: int| 0 <= p < t.len() implies m.remove(a).dom().contains((#[trigger] t[p]).0)
        && m.remove(a)[t[p].0] == t[p].1 by {
        assert(lex_lt(es[0].0, es[p + 1].0));
        lemma_lex_asym(es[0].0, es[p + 1].0);
    }
    assert forall|k: Seq<u8>| #[trigger] m.remove(a).dom().contains(k) implies exists|p: int|
        0 <= p < t.len() && (#[trigger] t[p]).0 == k by {
        let i = choose|i: int| 0 <= i < es.len() && (#[trigger] es[i]).0 == k;
        assert(i >= 1);
        assert(t[i - 1].0 == k);
    }
}

/// The summary of a byte stream is unique: no choice of chunking, worker
/// count or merge order can change the output bytes.
pub proof fn lemma_summary_deterministic(input: Seq<u8>, o1: Seq<u8>, o2: Seq<u8>)
    requires
        summary_spec(input, o1),
        summary_spec(input, o2),
    ensures
        o1 == o2,
{
    let m = aggregate(records_of(input));
    let e1 = choose|es: Seq<(Seq<u8>, SStats)>|
        is_sorted_entries(m, es) && o1 == crate::emit::render(es);
    let e2 = choose|es: Seq<(Seq<u8>, SStats)>|
        is_sorted_entries(m, es) && o2 == crate::emit::render(es);
    lemma_sorted_entries_unique(m, e1, e2);
}

/// Duplicating the whole input (which ends at a line boundary) doubles each
/// station's count and sum, and leaves its extrema and its rounded mean
/// unchanged.
pub proof fn lemma_duplicate_input(s: Seq<u8>)
    requires
        s.len() == 0 || s.last() == NL,
    ensures
        aggregate(records_of(s + s)).dom() == aggregate(records_of(s)).dom(),
        forall|k: Seq<u8>| #[trigger]
            aggregate(records_of(s)).dom().contains(k) ==> {
                let once = aggregate(records_of(s))[k];
                let twice = aggregate(records_of(s + s))[k];
                twice.count == 2 * once.count && twice.sum == 2 * once.sum && twice.min == once.min
                    && twice.max == once.max && round_div(twice.sum, twice.count as int)
                    == round_div(once.sum, once.count as int)
            },
{
    lemma_records_concat(s, s);
    lemma_agg_concat(records_of(s), records_of(s));
    assert(aggregate(records_of(s + s)).dom() =~= aggregate(records_of(s)).dom());
    lemma_records_ok(s);
    lemma_agg_wf(records_of(s));
    assert forall|k: Seq<u8>| #[trigger]
        aggregate(records_of(s)).dom().contains(k) implies ({
        let once = aggregate(records_of(s))[k];
        let twice = aggregate(records_of(s + s))[k];
        round_div(twice.sum, twice.count as int) == round_div(once.sum, once.count as int)
    }) by {
        let once = aggregate(records_of(s))[k];
        lemma_round_div_scale(once.sum, once.count as int);
    }
}

/// Splitting the input at a line boundary, aggregating each part, and merging
/// gives exactly the aggregate of the whole: bit-exact for every field.
pub proof fn lemma_split_then_merge(a: Seq<u8>, b: Seq<u8>)
    requires
        a.len() == 0 || a.last() == NL,
    ensures
        aggregate(records_of(a + b)) == map_merge(
            aggregate(records_of(a)),
            aggregate(records_of(b)),
        ),
{
    lemma_records_concat(a, b);
    lemma_agg_concat(records_of(a), records_of(b));
}

/// A reduction tree: chunks of the input at the leaves, merges at the nodes.
/// Sequential left folds, balanced pairwise trees and every other association
/// a scheduler may produce are all values of this type.
pub enum MergePlan {
    Piece(Seq<u8>),
    Join(Box<MergePlan>, Box<MergePlan>),
}

/// The bytes a plan covers, in order.
pub open spec fn plan_input(p: MergePlan) -> Seq<u8>
    decreases p,
{
    match p {
        MergePlan::Piece(c) => c,
        MergePlan::Join(l, r) => plan_input(*l) + plan_input(*r),
    }
}

/// Every join of the plan falls at a line boundary.
pub open spec fn plan_aligned(p: MergePlan) -> bool
    decreases p,
{
    match p {
        MergePlan::Piece(_) => true,
        MergePlan::Join(l, r) => plan_aligned(*l) && plan_aligned(*r) && (plan_input(*l).len()
            == 0 || plan_input(*l).last() == NL),
    }
}

/// The station map the plan computes: aggregate each leaf, merge at each node.
pub open spec fn plan_merge(p: MergePlan) -> Map<Seq<u8>, SStats>
    decreases p,
{
    match p {
        MergePlan::Piece(c) => aggregate(records_of(c)),
        MergePlan::Join(l, r) => map_merge(plan_merge(*l), plan_merge(*r)),
    }
}

/// Any reduction tree over line-aligned chunks computes exactly the aggregate
/// of the whole input: chunk count, chunk boundaries and merge association
/// cannot change any field of any station.
pub proof fn lemma_any_merge_tree(p: MergePlan)
    requires
        plan_aligned(p),
    ensures
        plan_merge(p) == aggregate(records_of(plan_input(p))),
    decreases p,
{
    match p {
        MergePlan::Piece(_) => {
        },
        MergePlan::Join(l, r) => {
            lemma_any_merge_tree(*l);
            lemma_any_merge_tree(*r);
            lemma_split_then_merge(plan_input(*l), plan_input(*r));
        },
    }
}

/// Two reduction trees over the same input bytes agree, whatever their chunks
/// and association.
pub proof fn lemma_merge_plans_agree(p1: MergePlan, p2: MergePlan)
    requires
        plan_aligned(p1),
        plan_aligned(p2),
        plan_input(p1) == plan_input(p2),
    ensures
        plan_merge(p1) == plan_merge(p2),
{
    lemma_any_merge_tree(p1);
    lemma_any_merge_tree(p2);
}

} // verus!
