//! A hash table from segment lists to slot numbers, kept by `hashbrown`.
//!
//! Nothing in this module is proved: each function states what the crate's
//! source shows of the call it makes.

use vstd::prelude::*;
use crate::name::names_view;

verus! {

/// A `hashbrown::HashMap` whose keys are lists of byte strings and whose
/// values are slot numbers.
#[verifier::external_body]
pub struct SlotTable {
    inner: hashbrown::HashMap<Vec<Vec<u8>>, usize>,
}

/// What a table holds: the slot that each key leads to.
pub uninterp spec fn slots(t: SlotTable) -> Map<Seq<Seq<u8>>, usize>;

/// The table that holds nothing.
pub open spec fn no_slots() -> Map<Seq<Seq<u8>>, usize> {
    Map::empty()
}

/// `hashbrown::HashMap::new`: an empty table.
#[verifier::external_body]
pub(crate) fn table_new() -> (t: SlotTable)
    ensures
        slots(t) == no_slots(),
{
    SlotTable { inner: hashbrown::HashMap::new() }
}

/// `hashbrown::HashMap::insert`: afterwards `key` leads to `slot`, whatever it
/// led to before, and every other key is as it was.
#[verifier::external_body]
pub(crate) fn table_insert(t: &mut SlotTable, key: Vec<Vec<u8>>, slot: usize)
    ensures
        slots(*final(t)) == slots(*old(t)).insert(names_view(key), slot),
{
    t.inner.insert(key, slot);
}

/// `hashbrown::HashMap::get`: the slot that `key` leads to, if any.
#[verifier::external_body]
pub(crate) fn table_get(t: &SlotTable, key: &Vec<Vec<u8>>) -> (r: Option<usize>)
    ensures
        r is Some <==> slots(*t).contains_key(names_view(*key)),
        r is Some ==> r->0 == slots(*t)[names_view(*key)],
{
    t.inner.get(key).copied()
}

} // verus!
