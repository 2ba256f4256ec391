//! The aggregation engine end to end: partition the input at line boundaries,
//! fold each chunk into a local table, merge the tables, and render the sorted
//! summary. The result is a function of the input bytes alone — the worker
//! count never shows in the contract.
use vstd::prelude::*;
use crate::stats::{SStats, stats_wf};
use crate::records::{records_of, lemma_records_concat, lemma_records_bound, lemma_records_ok, NL};
use crate::aggregate::{
    aggregate, map_wf, total_count, lemma_agg_concat, lemma_agg_wf, lemma_total_count_is_len,
};
use crate::table::{StationTable, table_view, table_model, table_new};
use crate::chunks::{process_chunk, merge_maps};
use crate::emit::{is_sorted_entries, render, sorted_entries, render_entries, entries_view};

verus! {

/// `out` is the summary of `input`: the rendering, sorted ascending by
/// station bytes, of the aggregate of `input`'s well-formed records.
pub open spec fn summary_spec(input: Seq<u8>, out: Seq<u8>) -> bool {
    exists|es: Seq<(Seq<u8>, SStats)>|
        is_sorted_entries(aggregate(records_of(input)), es) && out == render(es)
}

/// Splits `[0, len)` into `workers` contiguous ranges, each ending just after
/// a newline or at the end of the input; the last range is clipped to the end.
pub fn partition_ranges(input: &[u8], workers: usize) -> (r: Vec<(usize, usize)>)
    requires
        1 <= workers,
    ensures
        r@.len() == workers,
        r@[0].0 == 0,
        r@[r@.len() - 1].1 == input@.len(),
        forall|i: int| 0 <= i < r@.len() ==> (#[trigger] r@[i]).0 <= r@[i].1 <= input@.len(),
        forall|i: int| 0 <= i < r@.len() - 1 ==> (#[trigger] r@[i]).1 == r@[i + 1].0,
        forall|i: int|
            0 <= i < r@.len() ==> ((#[trigger] r@[i]).1 == input@.len() || input@[r@[i].1 - 1]
                == NL),
{
    let n: usize = input.len();
    let size: usize = n / workers;
    let mut r: Vec<(usize, usize)> = Vec::new();
    let mut start: usize = 0;
    let mut w: usize = 0;
    while w < workers
        invariant
            w <= workers,
            n == input@.len(),
            r@.len() == w,
            start <= n,
            w >= 1 ==> r@[0].0 == 0 && r@[w - 1].1 == start,
            w == 0 ==> start == 0,
            w == workers ==> start == n,
            start == 0 || start == n || input@[start - 1] == NL,
            forall|i: int| 0 <= i < w ==> (#[trigger] r@[i]).0 <= r@[i].1 <= n,
            forall|i: int| 0 <= i < w - 1 ==> (#[trigger] r@[i]).1 == r@[i + 1].0,
            forall|i: int| 0 <= i < w ==> ((#[trigger] r@[i]).1 == n || input@[r@[i].1 - 1] == NL),
        decreases workers - w,
    {
        let end: usize;
        if w == workers - 1 || size >= n - start {
            end = n;
        } else {
            let mut p: usize = start + size;
            while p < n && input[p] != NL
                invariant
                    start <= p <= n,
                    n == input@.len(),
                decreases n - p,
            {
                p = p + 1;
            }
            if p < n {
                end = p + 1;
            } else {
                end = n;
            }
        }
        let ghost r0 = r@;
        r.push((start, end));
        proof {
            assert(r@ == r0.push((start, end)));
            assert(forall|i: int| 0 <= i < w ==> r@[i] == r0[i]);
            assert(r@[w as int] == ((start, end)));
        }
        start = end;
        w = w + 1;
    }
    r
}

/// Computes the summary of the input with the given number of workers'
/// chunks, processed and merged in order. The output is determined by the
/// input bytes alone: `workers` does not appear in the contract.
pub fn summarize(input: &[u8], workers: usize) -> (out: Vec<u8>)
    requires
        1 <= workers,
    ensures
        summary_spec(input@, out@),
{
    let n: usize = input.len();
    let ranges: Vec<(usize, usize)> = partition_ranges(input, workers);
    let mut global: StationTable = table_new();
    let mut idx: usize = 0;
    let mut done: usize = 0;
    proof {
        assert(input@.take(0) =~= Seq::<u8>::empty());
        assert(table_model(table_view(global)) =~= aggregate(records_of(input@.take(0))));
        lemma_records_ok(input@.take(0));
        lemma_agg_wf(records_of(input@.take(0)));
        lemma_total_count_is_len(records_of(input@.take(0)));
    }
    while idx < ranges.len()
        invariant
            idx <= ranges@.len(),
            n == input@.len(),
            ranges@.len() >= 1,
            ranges@[0].0 == 0,
            ranges@[ranges@.len() - 1].1 == n,
            forall|i: int| 0 <= i < ranges@.len() ==> (#[trigger] ranges@[i]).0 <= ranges@[i].1 <= n,
            forall|i: int|
                0 <= i < ranges@.len() - 1 ==> (#[trigger] ranges@[i]).1 == ranges@[i + 1].0,
            forall|i: int|
                0 <= i < ranges@.len() ==> ((#[trigger] ranges@[i]).1 == n || input@[ranges@[i].1
                    - 1] == NL),
            idx == 0 ==> done == 0,
            idx >= 1 ==> done == ranges@[idx - 1].1,
            done <= n,
            done == 0 || done == n || input@[done - 1] == NL,
            table_model(table_view(global)) == aggregate(records_of(input@.take(done as int))),
            map_wf(table_model(table_view(global))),
            total_count(table_model(table_view(global))) == records_of(
                input@.take(done as int),
            ).len(),
        decreases ranges@.len() - idx,
    {
        let rg: (usize, usize) = ranges[idx];
        proof {
            if idx >= 1 {
                assert(ranges@[idx - 1].1 == ranges@[idx as int].0);
            }
            assert(rg.0 == done);
        }
        let chunk: &[u8] = &input[rg.0..rg.1];
        let local: StationTable = process_chunk(chunk);
        let ghost a = input@.take(done as int);
        let ghost t = input@.subrange(rg.0 as int, rg.1 as int);
        proof {
            assert(chunk@ == t);
            assert(input@.take(rg.1 as int) =~= a + t);
            if t.len() == 0 {
                assert(a + t =~= a);
                assert(records_of(a + t) =~= records_of(a) + records_of(t));
            } else {
                assert(done < n);
                assert(a.len() == done as int);
                if done > 0 {
                    assert(a.last() == input@[done - 1]);
                }
                lemma_records_concat(a, t);
            }
            lemma_agg_concat(records_of(a), records_of(t));
            lemma_records_bound(input@.take(rg.1 as int));
            assert(records_of(a).len() + records_of(t).len() == records_of(
                input@.take(rg.1 as int),
            ).len());
        }
        let merged: StationTable = merge_maps(global, local);
        global = merged;
        proof {
            assert(table_model(table_view(global)) =~= aggregate(
                records_of(input@.take(rg.1 as int)),
            ));
            lemma_records_ok(input@.take(rg.1 as int));
            lemma_agg_wf(records_of(input@.take(rg.1 as int)));
            lemma_total_count_is_len(records_of(input@.take(rg.1 as int)));
        }
        done = rg.1;
        idx = idx + 1;
    }
    proof {
        assert(done == n);
        assert(input@.take(n as int) =~= input@);
    }
    let entries: Vec<(Vec<u8>, crate::stats::Stats)> = sorted_entries(global);
    proof {
        assert forall|i: int| 0 <= i < entries@.len() implies stats_wf(
            (#[trigger] entries@[i]).1@,
        ) by {
            assert(entries_view(entries@)[i].1 == entries@[i].1@);
        }
    }
    let out: Vec<u8> = render_entries(&entries);
    proof {
        assert(is_sorted_entries(aggregate(records_of(input@)), entries_view(entries@)));
        assert(summary_spec(input@, out@));
    }
    out
}

} // verus!
