use hashbrown::HashMap;
use vstd::prelude::*;

verus! {

/// A `hashbrown::HashMap` from node codes to a node's label and predecessor.
#[verifier::external_body]
pub struct NodeTable {
    entries: HashMap<u64, (i128, u64)>,
}

/// What a table holds: each key with its value.
pub uninterp spec fn table_entries(t: NodeTable) -> Map<u64, (i128, u64)>;

/// `HashMap::new`: a table that holds nothing.
#[verifier::external_body]
pub(crate) fn table_new() -> (t: NodeTable)
    ensures
        table_entries(t).dom() == Set::<u64>::empty(),
{
    NodeTable { entries: HashMap::new() }
}

/// `HashMap::insert`: the key gets the value, in place of an older one if
/// the table held the key.
#[verifier::external_body]
pub(crate) fn table_insert(t: &mut NodeTable, key: u64, value: (i128, u64))
    ensures
        table_entries(*final(t)) == table_entries(*old(t)).insert(key, value),
{
    t.entries.insert(key, value);
}

/// `HashMap::get`: the value of a key that the table holds, else `None`.
#[verifier::external_body]
pub(crate) fn table_get(t: &NodeTable, key: u64) -> (found: Option<(i128, u64)>)
    ensures
        found == (if table_entries(*t).contains_key(key) {
            Some(table_entries(*t)[key])
        } else {
            None
        }),
{
    t.entries.get(&key).copied()
}

} // verus!
