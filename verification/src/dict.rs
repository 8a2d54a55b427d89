//! Trusted declarations for the order-preserving deduplicating sets the
//! tag dictionaries are built on: `indexmap::IndexSet` hashed with
//! `foldhash::fast::RandomState`.
//!
//! The contracts below describe what indexmap documents: an `IndexSet`
//! holds at most one copy of each item, in insertion order; lookups go by
//! the item's `Eq`/`Hash`, which for `String` and for [`Value`] (whose
//! derived impls compare contents field by field) agree with equality of
//! the views used here.

use vstd::prelude::*;

use crate::tag::Value;
use crate::tag::ValueModel;

verus! {

#[verifier::external_type_specification]
#[verifier::external_body]
#[verifier::reject_recursive_types(T)]
#[verifier::reject_recursive_types(S)]
/// An insertion-ordered, deduplicating set from the indexmap crate.
pub struct ExIndexSet<T, S>(indexmap::IndexSet<T, S>);

#[verifier::external_type_specification]
#[verifier::external_body]
/// A per-process randomly seeded hasher state from the foldhash crate.
pub struct ExFoldRandomState(foldhash::fast::RandomState);

/// The keys a key dictionary holds, in insertion order.
pub uninterp spec fn key_elems(s: indexmap::IndexSet<String, foldhash::fast::RandomState>) -> Seq<
    Seq<char>,
>;

/// The values a value dictionary holds, in insertion order.
pub uninterp spec fn value_elems(s: indexmap::IndexSet<Value, foldhash::fast::RandomState>) -> Seq<
    ValueModel,
>;

/// Relies on `indexmap::IndexSet`'s `Default` impl: a new set is empty.
#[verifier::external_body]
pub(crate) fn new_key_set() -> (s: indexmap::IndexSet<String, foldhash::fast::RandomState>)
    ensures
        key_elems(s) == Seq::<Seq<char>>::empty(),
{
    indexmap::IndexSet::default()
}

/// Relies on `indexmap::IndexSet`'s `Default` impl: a new set is empty.
#[verifier::external_body]
pub(crate) fn new_value_set() -> (s: indexmap::IndexSet<Value, foldhash::fast::RandomState>)
    ensures
        value_elems(s) == Seq::<ValueModel>::empty(),
{
    indexmap::IndexSet::default()
}

/// Relies on `indexmap::IndexSet::get_index_of`: the index of the item
/// equal to the query, `None` when no such item is present.
#[verifier::external_body]
pub(crate) fn key_index_of(
    s: &indexmap::IndexSet<String, foldhash::fast::RandomState>,
    k: &str,
) -> (r: Option<usize>)
    ensures
        match r {
            Some(i) => i < key_elems(*s).len() && key_elems(*s)[i as int] == k@,
            None => forall|j: int| 0 <= j < key_elems(*s).len() ==> key_elems(*s)[j] != k@,
        },
{
    s.get_index_of(k)
}

/// Relies on `indexmap::IndexSet::get_index_of`: the index of the item
/// equal to the query, `None` when no such item is present.
#[verifier::external_body]
pub(crate) fn value_index_of(
    s: &indexmap::IndexSet<Value, foldhash::fast::RandomState>,
    v: &Value,
) -> (r: Option<usize>)
    ensures
        match r {
            Some(i) => i < value_elems(*s).len() && value_elems(*s)[i as int] == v@,
            None => forall|j: int| 0 <= j < value_elems(*s).len() ==> value_elems(*s)[j] != v@,
        },
{
    s.get_index_of(v)
}

/// Relies on `indexmap::IndexSet::insert_full`: when an equal item is
/// present the set is unchanged and its index is returned; otherwise the
/// item is appended and its new index (the old length) is returned.
#[verifier::external_body]
pub(crate) fn key_insert_full(
    s: &mut indexmap::IndexSet<String, foldhash::fast::RandomState>,
    k: &str,
) -> (r: usize)
    ensures
        ({
            let olde = key_elems(*old(s));
            let newe = key_elems(*final (s));
            if exists|j: int| 0 <= j < olde.len() && olde[j] == k@ {
                newe == olde && r < olde.len() && olde[r as int] == k@
            } else {
                newe == olde.push(k@) && r == olde.len()
            }
        }),
{
    s.insert_full(k.to_string()).0
}

/// Relies on `indexmap::IndexSet::insert_full`: when an equal item is
/// present the set is unchanged and its index is returned; otherwise the
/// item is appended and its new index (the old length) is returned.
#[verifier::external_body]
pub(crate) fn value_insert_full(
    s: &mut indexmap::IndexSet<Value, foldhash::fast::RandomState>,
    v: Value,
) -> (r: usize)
    ensures
        ({
            let olde = value_elems(*old(s));
            let newe = value_elems(*final (s));
            if exists|j: int| 0 <= j < olde.len() && olde[j] == v@ {
                newe == olde && r < olde.len() && olde[r as int] == v@
            } else {
                newe == olde.push(v@) && r == olde.len()
            }
        }),
{
    s.insert_full(v).0
}

/// Relies on `indexmap::IndexSet`'s `IntoIterator` impl: iteration
/// yields the items in insertion order.
#[verifier::external_body]
pub(crate) fn key_set_into_vec(s: indexmap::IndexSet<String, foldhash::fast::RandomState>) -> (r:
    Vec<String>)
    ensures
        r@.len() == key_elems(s).len(),
        forall|i: int| 0 <= i < r@.len() ==> r@[i]@ == key_elems(s)[i],
{
    s.into_iter().collect()
}

/// Relies on `indexmap::IndexSet`'s `IntoIterator` impl: iteration
/// yields the items in insertion order.
#[verifier::external_body]
pub(crate) fn value_set_into_vec(s: indexmap::IndexSet<Value, foldhash::fast::RandomState>) -> (r:
    Vec<Value>)
    ensures
        r@.len() == value_elems(s).len(),
        forall|i: int| 0 <= i < r@.len() ==> r@[i]@ == value_elems(s)[i],
{
    s.into_iter().collect()
}

} // verus!
