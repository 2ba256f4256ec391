//! The station map as mathematics: folding records into a map, merging two
//! maps, and what both preserve.
use vstd::prelude::*;
use crate::stats::{
    SStats, stats_unit, stats_fold, stats_merge, stats_wf, lemma_fold_wf, lemma_merge_wf,
};
use crate::records::recs_ok;

verus! {

/// Folding one record into a station map.
pub open spec fn agg_fold(m: Map<Seq<u8>, SStats>, r: (Seq<u8>, int)) -> Map<Seq<u8>, SStats> {
    if m.dom().contains(r.0) {
        m.insert(r.0, stats_fold(m[r.0], r.1))
    } else {
        m.insert(r.0, stats_unit(r.1))
    }
}

/// The station map of a record sequence.
pub open spec fn aggregate(rs: Seq<(Seq<u8>, int)>) -> Map<Seq<u8>, SStats>
    decreases rs.len(),
{
    if rs.len() == 0 {
        Map::empty()
    } else {
        agg_fold(aggregate(rs.drop_last()), rs.last())
    }
}

/// The key-wise, statistic-preserving combination of two station maps.
pub open spec fn map_merge(a: Map<Seq<u8>, SStats>, b: Map<Seq<u8>, SStats>) -> Map<
    Seq<u8>,
    SStats,
> {
    Map::new(
        |k: Seq<u8>| a.dom().contains(k) || b.dom().contains(k),
        |k: Seq<u8>|
            if a.dom().contains(k) && b.dom().contains(k) {
                stats_merge(a[k], b[k])
            } else if a.dom().contains(k) {
                a[k]
            } else {
                b[k]
            },
    )
}

/// A station map is well-formed when its domain is finite and every record in
/// it is well-formed.
pub open spec fn map_wf(m: Map<Seq<u8>, SStats>) -> bool {
    &&& m.dom().finite()
    &&& forall|k: Seq<u8>| #[trigger] m.dom().contains(k) ==> stats_wf(m[k])
}

pub proof fn lemma_merge_empty(a: Map<Seq<u8>, SStats>)
    ensures
        map_merge(a, Map::empty()) == a,
        map_merge(Map::empty(), a) == a,
{
    assert(map_merge(a, Map::empty()) =~= a);
    assert(map_merge(Map::empty(), a) =~= a);
}

/// The merge is commutative.
pub proof fn lemma_merge_commutative(a: Map<Seq<u8>, SStats>, b: Map<Seq<u8>, SStats>)
    ensures
        map_merge(a, b) == map_merge(b, a),
{
    assert(map_merge(a, b) =~= map_merge(b, a));
}

/// The merge is associative.
pub proof fn lemma_merge_associative(
    a: Map<Seq<u8>, SStats>,
    b: Map<Seq<u8>, SStats>,
    c: Map<Seq<u8>, SStats>,
)
    ensures
        map_merge(a, map_merge(b, c)) == map_merge(map_merge(a, b), c),
{
    assert(map_merge(a, map_merge(b, c)) =~= map_merge(map_merge(a, b), c));
}

/// Folding a record into a merge is merging into the folded right operand.
proof fn lemma_agg_fold_merge(
    a: Map<Seq<u8>, SStats>,
    m: Map<Seq<u8>, SStats>,
    r: (Seq<u8>, int),
)
    ensures
        agg_fold(map_merge(a, m), r) == map_merge(a, agg_fold(m, r)),
{
    assert(agg_fold(map_merge(a, m), r) =~= map_merge(a, agg_fold(m, r)));
}

/// Aggregating a concatenation is merging the two aggregates: the heart of
/// chunked processing.
pub proof fn lemma_agg_concat(r1: Seq<(Seq<u8>, int)>, r2: Seq<(Seq<u8>, int)>)
    ensures
        aggregate(r1 + r2) == map_merge(aggregate(r1), aggregate(r2)),
    decreases r2.len(),
{
    if r2.len() == 0 {
        assert(r1 + r2 =~= r1);
        lemma_merge_empty(aggregate(r1));
    } else {
        let r2p = r2.drop_last();
        assert((r1 + r2).drop_last() =~= r1 + r2p);
        assert((r1 + r2).last() == r2.last());
        lemma_agg_concat(r1, r2p);
        lemma_agg_fold_merge(aggregate(r1), aggregate(r2p), r2.last());
        assert((r1 + r2).len() > 0);
    }
}

/// Aggregating in-range records yields a well-formed map.
pub proof fn lemma_agg_wf(rs: Seq<(Seq<u8>, int)>)
    requires
        recs_ok(rs),
    ensures
        map_wf(aggregate(rs)),
    decreases rs.len(),
{
    if rs.len() == 0 {
    } else {
        let rsp = rs.drop_last();
        assert(recs_ok(rsp)) by {
            assert(forall|i: int| 0 <= i < rsp.len() ==> rsp[i] == rs[i]);
        }
        lemma_agg_wf(rsp);
        let m = aggregate(rsp);
        let r = rs.last();
        assert(-(crate::MAX_ABS_TENTHS as int) <= r.1 <= crate::MAX_ABS_TENTHS as int) by {
            assert(rs[rs.len() - 1] == r);
        }
        if m.dom().contains(r.0) {
            lemma_fold_wf(m[r.0], r.1);
        }
        assert forall|k: Seq<u8>| #[trigger]
            aggregate(rs).dom().contains(k) implies stats_wf(aggregate(rs)[k]) by {
            if k != r.0 {
                assert(m.dom().contains(k) && aggregate(rs)[k] == m[k]);
            }
        }
    }
}

/// Merging two well-formed maps yields a well-formed map.
pub proof fn lemma_merge_map_wf(a: Map<Seq<u8>, SStats>, b: Map<Seq<u8>, SStats>)
    requires
        map_wf(a),
        map_wf(b),
    ensures
        map_wf(map_merge(a, b)),
{
    let m = map_merge(a, b);
    assert(m.dom() =~= a.dom() + b.dom());
    assert forall|k: Seq<u8>| #[trigger] m.dom().contains(k) implies stats_wf(m[k]) by {
        if a.dom().contains(k) && b.dom().contains(k) {
            lemma_merge_wf(a[k], b[k]);
        }
    }
}

/// The total number of observations a station map accounts for.
pub open spec fn total_count(m: Map<Seq<u8>, SStats>) -> int
    decreases m.dom().len(),
    when m.dom().finite()
{
    if m.dom().is_empty() {
        0
    } else {
        let k = m.dom().choose();
        m[k].count + total_count(m.remove(k))
    }
}

/// Removing any present key takes exactly its count out of the total.
pub proof fn lemma_total_count_remove(m: Map<Seq<u8>, SStats>, k: Seq<u8>)
    requires
        m.dom().finite(),
        m.dom().contains(k),
    ensures
        total_count(m) == m[k].count + total_count(m.remove(k)),
    decreases m.dom().len(),
{
    let c = m.dom().choose();
    assert(m.dom().contains(c));
    if c == k {
    } else {
        lemma_total_count_remove(m.remove(c), k);
        lemma_total_count_remove(m.remove(k), c);
        assert(m.remove(c).remove(k) =~= m.remove(k).remove(c));
        assert(m.remove(c)[k] == m[k]);
        assert(m.remove(k)[c] == m[c]);
    }
}

pub proof fn lemma_total_count_nonneg(m: Map<Seq<u8>, SStats>)
    requires
        m.dom().finite(),
    ensures
        total_count(m) >= 0,
    decreases m.dom().len(),
{
    if !m.dom().is_empty() {
        lemma_total_count_nonneg(m.remove(m.dom().choose()));
    }
}

/// No station accounts for more observations than the whole map does.
pub proof fn lemma_count_le_total(m: Map<Seq<u8>, SStats>, k: Seq<u8>)
    requires
        m.dom().finite(),
        m.dom().contains(k),
    ensures
        m[k].count <= total_count(m),
{
    lemma_total_count_remove(m, k);
    lemma_total_count_nonneg(m.remove(k));
}

/// Inserting adjusts the total by the difference of the counts.
pub proof fn lemma_total_count_insert(m: Map<Seq<u8>, SStats>, k: Seq<u8>, v: SStats)
    requires
        m.dom().finite(),
    ensures
        m.dom().contains(k) ==> total_count(m.insert(k, v)) == total_count(m) - m[k].count
            + v.count,
        !m.dom().contains(k) ==> total_count(m.insert(k, v)) == total_count(m) + v.count,
{
    lemma_total_count_remove(m.insert(k, v), k);
    if m.dom().contains(k) {
        lemma_total_count_remove(m, k);
        assert(m.insert(k, v).remove(k) =~= m.remove(k));
    } else {
        assert(m.insert(k, v).remove(k) =~= m);
    }
}

/// The total count of an aggregate is the number of records aggregated.
pub proof fn lemma_total_count_is_len(rs: Seq<(Seq<u8>, int)>)
    ensures
        aggregate(rs).dom().finite(),
        total_count(aggregate(rs)) == rs.len(),
    decreases rs.len(),
{
    if rs.len() == 0 {
        assert(aggregate(rs).dom() =~= Set::<Seq<u8>>::empty());
    } else {
        lemma_total_count_is_len(rs.drop_last());
        let m = aggregate(rs.drop_last());
        let r = rs.last();
        if m.dom().contains(r.0) {
            lemma_total_count_insert(m, r.0, stats_fold(m[r.0], r.1));
        } else {
            lemma_total_count_insert(m, r.0, stats_unit(r.1));
        }
    }
}

} // verus!
