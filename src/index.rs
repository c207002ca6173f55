//! The insertion-ordered map of `indexmap` that holds the catalog, seen
//! through its sequence of key/record pairs.
use vstd::prelude::*;

use indexmap::IndexMap;

use crate::entry::DesktopEntry;

verus! {

#[verifier::external_type_specification]
#[verifier::external_body]
#[verifier::reject_recursive_types(K)]
#[verifier::reject_recursive_types(V)]
#[verifier::reject_recursive_types(S)]
pub struct ExIndexMap<K, V, S>(IndexMap<K, V, S>);

/// The key/value pairs of a map, in its order.
pub uninterp spec fn index_entries(m: IndexMap<String, DesktopEntry>) -> Seq<(Seq<char>, DesktopEntry)>;

/// Relies on `IndexMap::new`: the new map holds nothing.
#[verifier::external_body]
pub(crate) fn index_new() -> (r: IndexMap<String, DesktopEntry>)
    ensures
        index_entries(r) == Seq::<(Seq<char>, DesktopEntry)>::empty(),
{
    IndexMap::new()
}

/// Relies on `IndexMap::len`: the number of pairs.
#[verifier::external_body]
pub(crate) fn index_len(m: &IndexMap<String, DesktopEntry>) -> (r: usize)
    ensures
        r == index_entries(*m).len(),
{
    m.len()
}

/// Relies on `IndexMap::insert`: a new key is appended last; for a key that
/// is already there, the value at its place is replaced.
#[verifier::external_body]
pub(crate) fn index_insert(m: &mut IndexMap<String, DesktopEntry>, k: String, v: DesktopEntry)
    ensures
        (forall|i: int| 0 <= i < index_entries(*old(m)).len()
            ==> #[trigger] index_entries(*old(m))[i].0 != k@)
            ==> index_entries(*final(m)) == index_entries(*old(m)).push((k@, v)),
        (exists|i: int| 0 <= i < index_entries(*old(m)).len()
            && #[trigger] index_entries(*old(m))[i].0 == k@)
            ==> exists|i: int| 0 <= i < index_entries(*old(m)).len()
            && #[trigger] index_entries(*old(m))[i].0 == k@
            && index_entries(*final(m)) == index_entries(*old(m)).update(i, (k@, v)),
{
    m.insert(k, v);
}

/// Relies on `IndexMap::get_index`: the value at a position, if there is one.
#[verifier::external_body]
pub(crate) fn index_value_at(m: &IndexMap<String, DesktopEntry>, i: usize) -> (r: Option<&DesktopEntry>)
    ensures
        i < index_entries(*m).len() ==> r == Some(&index_entries(*m)[i as int].1),
        i >= index_entries(*m).len() ==> r is None,
{
    m.get_index(i).map(|(_, v)| v)
}

/// Relies on `IndexMap::get`: the value stored under a key equal to `k`, if any.
#[verifier::external_body]
pub(crate) fn index_get<'a>(m: &'a IndexMap<String, DesktopEntry>, k: &str) -> (r: Option<&'a DesktopEntry>)
    ensures
        r is None <==> forall|i: int| 0 <= i < index_entries(*m).len()
            ==> #[trigger] index_entries(*m)[i].0 != k@,
        r is Some ==> exists|i: int| 0 <= i < index_entries(*m).len()
            && #[trigger] index_entries(*m)[i].0 == k@ && index_entries(*m)[i].1 == *r->Some_0,
{
    m.get(k)
}

} // verus!
