//! The hash table holding per-station records during the parse and merge
//! phases. The table itself comes from the `ahash` crate (`AHashMap` is a thin
//! wrapper around `std::collections::HashMap` with a faster hasher); the
//! library sees it only through the trusted declarations below, whose
//! contracts speak of `table_view`, the table's contents as a `Map`.
use vstd::prelude::*;
use crate::stats::{SStats, Stats};

verus! {

/// A station record as stored in the table: `(min, max, sum, count)`.
pub type RawStats = (i64, i64, i128, u64);

#[verifier::external_type_specification]
#[verifier::external_body]
#[verifier::reject_recursive_types(K)]
#[verifier::reject_recursive_types(V)]
#[verifier::reject_recursive_types(S)]
pub struct ExAHashMap<K, V, S>(ahash::AHashMap<K, V, S>);

#[verifier::external_type_specification]
#[verifier::external_body]
pub struct ExRandomState(ahash::RandomState);

/// A local or global station table.
pub type StationTable = ahash::AHashMap<Vec<u8>, RawStats>;

/// What a station table holds, as a map from station bytes to records.
pub uninterp spec fn table_view(m: StationTable) -> Map<Seq<u8>, RawStats>;

pub open spec fn unpack(t: RawStats) -> SStats {
    SStats { min: t.0 as int, max: t.1 as int, sum: t.2 as int, count: t.3 as nat }
}

/// The mathematical station map a table stands for.
pub open spec fn table_model(m: Map<Seq<u8>, RawStats>) -> Map<Seq<u8>, SStats> {
    m.map_values(|t: RawStats| unpack(t))
}

pub fn stats_to_raw(s: &Stats) -> (t: RawStats)
    ensures
        unpack(t) == s@,
{
    (s.min, s.max, s.sum, s.count)
}

pub fn raw_to_stats(t: RawStats) -> (s: Stats)
    ensures
        s@ == unpack(t),
{
    Stats { min: t.0, max: t.1, sum: t.2, count: t.3 }
}

/// The empty station map.
pub open spec fn empty_table_map() -> Map<Seq<u8>, RawStats> {
    Map::empty()
}

/// Relies on ahash::AHashMap::with_capacity: a newly created map is empty.
#[verifier::external_body]
pub(crate) fn table_new() -> (m: StationTable)
    ensures
        table_view(m) == empty_table_map(),
{
    ahash::AHashMap::with_capacity(1024)
}

/// Relies on HashMap::get (reached through ahash's Deref): returns the value
/// stored under the key, or nothing when the key is absent.
#[verifier::external_body]
pub(crate) fn table_get(m: &StationTable, k: &[u8]) -> (r: Option<RawStats>)
    ensures
        r == if table_view(*m).dom().contains(k@) {
            Some(table_view(*m)[k@])
        } else {
            None::<RawStats>
        },
{
    m.get(k).copied()
}

/// Relies on HashMap::insert (reached through ahash's Deref): after the call
/// the key maps to the value and every other entry is unchanged.
#[verifier::external_body]
pub(crate) fn table_put(m: &mut StationTable, k: Vec<u8>, v: RawStats)
    ensures
        table_view(*final(m)) == table_view(*old(m)).insert(k@, v),
{
    m.insert(k, v);
}

/// Relies on HashMap::get_mut (reached through ahash's Deref): overwrites the
/// value under a key that is already present, leaving other entries unchanged.
#[verifier::external_body]
pub(crate) fn table_set(m: &mut StationTable, k: &[u8], v: RawStats)
    requires
        table_view(*old(m)).dom().contains(k@),
    ensures
        table_view(*final(m)) == table_view(*old(m)).insert(k@, v),
{
    if let Some(slot) = m.get_mut(k) {
        *slot = v;
    }
}

/// Relies on the map's IntoIterator (reached through ahash's owned iterator):
/// iteration yields each entry of the map exactly once, in no particular
/// order.
#[verifier::external_body]
pub(crate) fn table_entries(m: StationTable) -> (r: Vec<(Vec<u8>, RawStats)>)
    ensures
        forall|i: int|
            0 <= i < r@.len() ==> table_view(m).dom().contains((#[trigger] r@[i]).0@)
                && table_view(m)[r@[i].0@] == r@[i].1,
        forall|k: Seq<u8>|
            #[trigger] table_view(m).dom().contains(k) ==> exists|i: int|
                0 <= i < r@.len() && (#[trigger] r@[i]).0@ == k,
        forall|i: int, j: int| 0 <= i < j < r@.len() ==> r@[i].0@ != r@[j].0@,
{
    m.into_iter().collect()
}

} // verus!
