//! The hot path: partitioning the input at line boundaries, folding one
//! chunk's records into a local table, and merging tables.
use vstd::prelude::*;
use vstd::slice::slice_to_vec;
use crate::stats::{SStats, Stats, stats_fold, stats_unit, stats_wf, lemma_fold_wf};
use crate::records::{
    records_of, rec_seq, parse_record_spec, lemma_meas_magnitude_nonneg, find_byte,
    lemma_find_byte_first, lemma_find_byte_props, lemma_records_concat, lemma_records_bound, NL,
    SEMI,
};
use crate::aggregate::{
    aggregate, agg_fold, map_merge, map_wf, total_count, lemma_total_count_insert,
    lemma_count_le_total, lemma_merge_empty,
};
use crate::table::{
    StationTable, RawStats, table_view, table_model, table_new, table_get, table_put, table_set,
    table_entries, raw_to_stats, stats_to_raw, unpack,
};
use crate::parse::{find_byte_from, parse_measurement};

verus! {

/// Folds the record on `line` (if it is well-formed) into the table.
fn process_line(m: &mut StationTable, line: &[u8])
    requires
        map_wf(table_model(table_view(*old(m)))),
        total_count(table_model(table_view(*old(m)))) < u64::MAX as int,
    ensures
        table_model(table_view(*final(m))) == match parse_record_spec(line@) {
            Some(r) => agg_fold(table_model(table_view(*old(m))), r),
            None => table_model(table_view(*old(m))),
        },
        map_wf(table_model(table_view(*final(m)))),
        total_count(table_model(table_view(*final(m)))) == total_count(
            table_model(table_view(*old(m))),
        ) + rec_seq(parse_record_spec(line@)).len(),
{
    let ghost m0 = table_model(table_view(*old(m)));
    let j: usize;
    match find_byte_from(line, 0, SEMI) {
        Some(jj) => {
            j = jj;
        },
        None => {
            proof {
                lemma_find_byte_props(line@, SEMI);
                if find_byte(line@, SEMI) >= 0 {
                    assert(line@[find_byte(line@, SEMI)] == SEMI);
                    assert(false);
                }
            }
            return;
        },
    }
    proof {
        lemma_find_byte_first(line@, SEMI, j as int);
    }
    let ll: usize = line.len();
    let meas: &[u8] = &line[j + 1..ll];
    proof {
        assert(meas@ =~= line@.skip(j as int + 1));
    }
    match parse_measurement(meas) {
        None => {
            proof {
                assert(parse_record_spec(line@) is None);
            }
        },
        Some(v) => {
            let station: &[u8] = &line[0..j];
            let ghost r = (station@, v as int);
            proof {
                assert(station@ =~= line@.take(j as int));
                assert(parse_record_spec(line@) == Some(r));
                // a folded value always fits the fixed-point representation
                let neg = meas@.len() >= 1 && meas@[0] == crate::records::MINUS;
                let t = if neg {
                    meas@.skip(1)
                } else {
                    meas@
                };
                lemma_meas_magnitude_nonneg(t);
                assert(-(crate::MAX_ABS_TENTHS as int) <= v as int <= crate::MAX_ABS_TENTHS
                    as int);
            }
            match table_get(m, station) {
                Some(raw) => {
                    let mut st: Stats = raw_to_stats(raw);
                    proof {
                        assert(m0.dom().contains(station@));
                        assert(m0[station@] == unpack(raw));
                        lemma_count_le_total(m0, station@);
                    }
                    st.fold_value(v);
                    let nraw: RawStats = stats_to_raw(&st);
                    table_set(m, station, nraw);
                    proof {
                        assert(table_model(table_view(*m)) =~= m0.insert(
                            station@,
                            stats_fold(m0[station@], v as int),
                        ));
                        lemma_total_count_insert(m0, station@, stats_fold(m0[station@], v as int));
                        assert forall|k: Seq<u8>| #[trigger]
                            table_model(table_view(*m)).dom().contains(k) implies stats_wf(
                            table_model(table_view(*m))[k],
                        ) by {
                            if k == station@ {
                                lemma_fold_wf(m0[station@], v as int);
                            }
                        }
                    }
                },
                None => {
                    let key: Vec<u8> = slice_to_vec(station);
                    let st: Stats = Stats::new(v);
                    let nraw: RawStats = stats_to_raw(&st);
                    table_put(m, key, nraw);
                    proof {
                        assert(table_model(table_view(*m)) =~= m0.insert(
                            station@,
                            stats_unit(v as int),
                        ));
                        lemma_total_count_insert(m0, station@, stats_unit(v as int));
                        assert forall|k: Seq<u8>| #[trigger]
                            table_model(table_view(*m)).dom().contains(k) implies stats_wf(
                            table_model(table_view(*m))[k],
                        ) by {}
                    }
                },
            }
        },
    }
}

/// Builds the local station table of one chunk. The table's model is exactly
/// the aggregate of the chunk's well-formed records.
pub fn process_chunk(chunk: &[u8]) -> (m: StationTable)
    ensures
        table_model(table_view(m)) == aggregate(records_of(chunk@)),
        map_wf(table_model(table_view(m))),
        total_count(table_model(table_view(m))) == records_of(chunk@).len(),
{
    let mut m: StationTable = table_new();
    let n: usize = chunk.len();
    let mut pos: usize = 0;
    proof {
        assert(chunk@.take(0) =~= Seq::<u8>::empty());
        assert(table_model(table_view(m)) =~= aggregate(records_of(chunk@.take(0))));
    }
    while pos < n
        invariant
            pos <= n,
            n == chunk@.len(),
            pos == 0 || pos == n || chunk@[pos - 1] == NL,
            table_model(table_view(m)) == aggregate(records_of(chunk@.take(pos as int))),
            map_wf(table_model(table_view(m))),
            total_count(table_model(table_view(m))) == records_of(chunk@.take(pos as int)).len(),
        decreases n - pos,
    {
        let ghost done = chunk@.take(pos as int);
        proof {
            lemma_records_bound(chunk@.take(pos as int));
        }
        let line_end: usize;
        match find_byte_from(chunk, pos, NL) {
            Some(i) => {
                line_end = i;
            },
            None => {
                line_end = n;
            },
        }
        let line: &[u8] = &chunk[pos..line_end];
        let ghost rs0 = records_of(done);
        process_line(&mut m, line);
        let next: usize = if line_end < n {
            line_end + 1
        } else {
            n
        };
        proof {
            let tail = chunk@.subrange(pos as int, next as int);
            assert(chunk@.take(next as int) =~= done + tail);
            lemma_records_concat(done, tail);
            // the tail is one line, holding no interior newline
            if line_end < n {
                assert(forall|j: int| 0 <= j < tail.len() ==> tail[j] == chunk@[pos + j]);
                assert(tail[line_end - pos] == NL);
                lemma_find_byte_first(tail, NL, line_end - pos);
                assert(tail.take(line_end - pos) =~= line@);
                assert(tail.skip(line_end - pos + 1) =~= Seq::<u8>::empty());
                assert(records_of(tail) == rec_seq(parse_record_spec(line@)) + records_of(
                    tail.skip(line_end - pos + 1),
                ));
                assert(rec_seq(parse_record_spec(line@)) + Seq::<(Seq<u8>, int)>::empty()
                    =~= rec_seq(parse_record_spec(line@)));
            } else {
                assert(tail =~= line@);
                lemma_find_byte_props(tail, NL);
                if tail.len() > 0 {
                    assert(find_byte(tail, NL) == -1) by {
                        if find_byte(tail, NL) >= 0 {
                            assert(tail[find_byte(tail, NL)] == NL);
                            assert(chunk@[pos + find_byte(tail, NL)] == NL);
                            assert(false);
                        }
                    }
                    assert(records_of(tail) =~= rec_seq(parse_record_spec(line@)));
                } else {
                    assert(pos < n && line_end == n);
                    assert(false);
                }
            }
            assert(records_of(chunk@.take(next as int)) =~= rs0 + rec_seq(
                parse_record_spec(line@),
            ));
            match parse_record_spec(line@) {
                Some(r) => {
                    assert(records_of(chunk@.take(next as int)).drop_last() =~= rs0);
                    assert(records_of(chunk@.take(next as int)).last() == r);
                    assert(aggregate(records_of(chunk@.take(next as int))) == agg_fold(
                        aggregate(rs0),
                        r,
                    ));
                },
                None => {
                    assert(records_of(chunk@.take(next as int)) =~= rs0);
                },
            }
        }
        pos = next;
    }
    proof {
        assert(chunk@.take(n as int) =~= chunk@);
    }
    m
}

/// Merges a local table into a global one: the model of the result is the
/// key-wise merge of the two models.
pub fn merge_maps(global: StationTable, local: StationTable) -> (r: StationTable)
    requires
        map_wf(table_model(table_view(global))),
        map_wf(table_model(table_view(local))),
        total_count(table_model(table_view(global))) + total_count(
            table_model(table_view(local)),
        ) <= u64::MAX as int,
    ensures
        table_model(table_view(r)) == map_merge(
            table_model(table_view(global)),
            table_model(table_view(local)),
        ),
        map_wf(table_model(table_view(r))),
{
    let ghost g0 = table_model(table_view(global));
    let ghost l0 = table_model(table_view(local));
    let mut g: StationTable = global;
    let entries: Vec<(Vec<u8>, RawStats)> = table_entries(local);
    let mut idx: usize = 0;
    proof {
        lemma_merge_empty(g0);
        assert(entry_keys(entries@, 0) =~= Set::<Seq<u8>>::empty());
        assert(table_model(table_view(g)) =~= map_merge(g0, l0.restrict(entry_keys(entries@, 0))));
        assert(map_merge(g0, l0.restrict(entry_keys(entries@, 0))) =~= g0);
    }
    while idx < entries.len()
        invariant
            idx <= entries@.len(),
            map_wf(g0),
            map_wf(l0),
            total_count(g0) + total_count(l0) <= u64::MAX as int,
            forall|i: int|
                0 <= i < entries@.len() ==> l0.dom().contains((#[trigger] entries@[i]).0@)
                    && l0[entries@[i].0@] == unpack(entries@[i].1),
            forall|k: Seq<u8>|
                #[trigger] l0.dom().contains(k) ==> exists|i: int|
                    0 <= i < entries@.len() && (#[trigger] entries@[i]).0@ == k,
            forall|i: int, j: int| 0 <= i < j < entries@.len() ==> entries@[i].0@ != entries@[j].0@,
            table_model(table_view(g)) == map_merge(g0, l0.restrict(entry_keys(entries@, idx as int))),
            map_wf(table_model(table_view(g))),
        decreases entries@.len() - idx,
    {
        let ghost before = table_model(table_view(g));
        let ghost ks = entry_keys(entries@, idx as int);
        let e: &(Vec<u8>, RawStats) = &entries[idx];
        let ghost k = e.0@;
        proof {
            assert(entries@[idx as int].0@ == k);
            assert(l0.dom().contains(k));
            // this key has not been merged yet
            assert(!ks.contains(k)) by {
                if ks.contains(k) {
                    let i = choose|i: int| 0 <= i < idx && (#[trigger] entries@[i]).0@ == k;
                    assert(entries@[i].0@ == entries@[idx as int].0@);
                    assert(false);
                }
            }
            lemma_count_le_total(l0, k);
            lemma_total_count_nonneg_full(g0, l0, k);
        }
        match table_get(&g, e.0.as_slice()) {
            Some(raw) => {
                let mut st: Stats = raw_to_stats(raw);
                proof {
                    assert(before.dom().contains(k));
                    assert(before[k] == unpack(raw));
                    // the current record is still the global one for this key
                    assert(before[k] == g0[k]);
                    assert(g0.dom().contains(k));
                    lemma_count_le_total(g0, k);
                }
                let other: Stats = raw_to_stats(e.1);
                proof {
                    assert(l0[k] == unpack(entries@[idx as int].1));
                }
                st.merge_from(&other);
                table_set(&mut g, e.0.as_slice(), stats_to_raw(&st));
                proof {
                    assert(table_model(table_view(g)) =~= before.insert(
                        k,
                        crate::stats::stats_merge(g0[k], l0[k]),
                    ));
                    assert(stats_wf(table_model(table_view(g))[k]));
                }
            },
            None => {
                proof {
                    assert(!before.dom().contains(k));
                    assert(!g0.dom().contains(k));
                }
                let key: Vec<u8> = slice_to_vec(e.0.as_slice());
                table_put(&mut g, key, e.1);
                proof {
                    assert(unpack(entries@[idx as int].1) == l0[k]);
                    assert(table_model(table_view(g)) =~= before.insert(k, l0[k]));
                    assert(stats_wf(table_model(table_view(g))[k]));
                }
            },
        }
        proof {
            assert(entry_keys(entries@, idx as int + 1) =~= ks.insert(k));
            assert(table_model(table_view(g)) =~= map_merge(
                g0,
                l0.restrict(entry_keys(entries@, idx as int + 1)),
            ));
            assert forall|kk: Seq<u8>| #[trigger]
                table_model(table_view(g)).dom().contains(kk) implies stats_wf(
                table_model(table_view(g))[kk],
            ) by {
                if kk != k {
                    assert(before.dom().contains(kk));
                }
            }
        }
        idx = idx + 1;
    }
    proof {
        assert(l0.restrict(entry_keys(entries@, entries@.len() as int)) =~= l0);
    }
    g
}

/// The keys of the first `n` entries.
pub open spec fn entry_keys(es: Seq<(Vec<u8>, RawStats)>, n: int) -> Set<Seq<u8>> {
    Set::new(|k: Seq<u8>| exists|i: int| 0 <= i < n && (#[trigger] es[i]).0@ == k)
}

/// The merged count of a shared key stays within `u64`.
proof fn lemma_total_count_nonneg_full(g0: Map<Seq<u8>, SStats>, l0: Map<Seq<u8>, SStats>, k: Seq<u8>)
    requires
        g0.dom().finite(),
        l0.dom().finite(),
        l0.dom().contains(k),
    ensures
        g0.dom().contains(k) ==> g0[k].count + l0[k].count <= total_count(g0) + total_count(l0),
{
    lemma_count_le_total(l0, k);
    if g0.dom().contains(k) {
        lemma_count_le_total(g0, k);
    }
}

} // verus!
