//! The mapping from key bytes to running statistics, backed by a hash
//! table. Verified code reads and writes it only through the wrappers
//! below, whose contracts speak of the table's model.

use vstd::prelude::*;

use crate::stats::StationResult;

verus! {

/// A mapping from key bytes to their running statistics. The hash table
/// inside is opaque to the verifier; `table_model` names its contents.
#[verifier::external_body]
pub struct StationTable {
    inner: hashbrown::HashMap<Vec<u8>, StationResult>,
}

/// The contents of a table: a map from key bytes to statistics.
pub uninterp spec fn table_model(t: StationTable) -> Map<Seq<u8>, StationResult>;

impl StationTable {
    /// The contents of this table.
    pub open spec fn model(self) -> Map<Seq<u8>, StationResult> {
        table_model(self)
    }
}

/// The empty table contents.
pub open spec fn empty_model() -> Map<Seq<u8>, StationResult> {
    Map::empty()
}

/// Relies on `hashbrown::HashMap::new`: a fresh table holds nothing.
#[verifier::external_body]
pub fn table_new() -> (out: StationTable)
    ensures
        table_model(out) == empty_model(),
{
    StationTable { inner: hashbrown::HashMap::new() }
}

/// Relies on `hashbrown::HashMap::get`: the value stored under `key`,
/// or `None` when the key is absent.
#[verifier::external_body]
pub fn table_get(t: &StationTable, key: &[u8]) -> (r: Option<StationResult>)
    ensures
        r == if table_model(*t).dom().contains(key@) {
            Some(table_model(*t)[key@])
        } else {
            None::<StationResult>
        },
{
    t.inner.get(key).copied()
}

/// Relies on `hashbrown::HashMap::insert`: afterwards `key` maps to `v`
/// and every other key is unchanged.
#[verifier::external_body]
pub fn table_set(t: &mut StationTable, key: &[u8], v: StationResult)
    ensures
        table_model(*final(t)) == table_model(*old(t)).insert(key@, v),
{
    t.inner.insert(key.to_vec(), v);
}

/// Relies on `hashbrown::HashMap::iter`: every stored entry appears
/// exactly once, in arbitrary order.
#[verifier::external_body]
pub fn table_entries(t: &StationTable) -> (r: Vec<(Vec<u8>, StationResult)>)
    ensures
        forall|i: int, j: int|
            #![trigger r@[i], r@[j]]
            0 <= i < j < r@.len() ==> r@[i].0@ != r@[j].0@,
        forall|i: int| 0 <= i < r@.len() ==> table_model(*t).contains_pair((#[trigger] r@[i]).0@, r@[i].1),
        forall|k: Seq<u8>|
            #[trigger] table_model(*t).dom().contains(k) ==> exists|i: int|
                0 <= i < r@.len() && (#[trigger] r@[i]).0@ == k,
{
    t.inner.iter().map(|(k, v)| (k.clone(), *v)).collect()
}

} // verus!
