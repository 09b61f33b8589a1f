//! The hash tables that the compiled tables are kept in.
//!
//! The tables are the maps and sets of the standard library with the hasher of `rustc_hash`,
//! which hashes a key the same way in every run. Verus knows what insertion, lookup and
//! counting do to a map only for the hasher builders that it has been told of, and
//! `FxBuildHasher` is none of them. So what these operations do is stated here once more, for
//! this hasher builder, over the same views; it is taken on trust.

use rustc_hash::{FxBuildHasher, FxHashMap, FxHashSet};
use std::hash::Hash;
use vstd::prelude::*;
use vstd::std_specs::hash::obeys_key_model;

verus! {

/// The hasher builder of `rustc_hash`: a unit value whose `build_hasher` gives a hasher in
/// the same state, zero, every time.
#[verifier::external_type_specification]
#[verifier::external_body]
pub struct ExFxBuildHasher(FxBuildHasher);

/// `HashMap::insert` on a table hashed by `rustc_hash`: afterwards the key has the given
/// value, whether or not it had one before, and every other entry is as it was. The value
/// that the key had before is dropped.
#[verifier::external_body]
pub(crate) fn put<K: Eq + Hash, V>(table: &mut FxHashMap<K, V>, key: K, value: V)
    requires
        obeys_key_model::<K>(),
    ensures
        final(table)@ == old(table)@.insert(key, value),
{
    table.insert(key, value);
}

/// `HashMap::get` on a table hashed by `rustc_hash`: the value of the key where the table
/// has the key, and nothing where it has not.
#[verifier::external_body]
pub(crate) fn lookup<'a, K: Eq + Hash, V>(table: &'a FxHashMap<K, V>, key: &K) -> (found: Option<
    &'a V,
>)
    requires
        obeys_key_model::<K>(),
    ensures
        match found {
            Some(value) => table@.contains_key(*key) && table@[*key] == *value,
            None => !table@.contains_key(*key),
        },
{
    table.get(key)
}

/// A listing that holds every key of a set.
pub open spec fn covers<K>(listing: Seq<K>, keys: Set<K>) -> bool {
    forall|key: K| keys.contains(key) ==> #[trigger] listing.contains(key)
}

/// A set of keys that a listing of the given length covers: the set holds no more keys than
/// that.
pub open spec fn holds_at_most<K>(keys: Set<K>, n: nat) -> bool {
    exists|listing: Seq<K>| #[trigger] covers(listing, keys) && listing.len() == n
}

/// A listing that holds every key of a set once, and nothing else.
pub open spec fn lists<K>(listing: Seq<K>, keys: Set<K>) -> bool {
    listing.no_duplicates() && forall|key: K|
        keys.contains(key) <==> #[trigger] listing.contains(key)
}

/// A set of exactly the given number of keys: they can be listed, each once, in a sequence of
/// that length.
pub open spec fn holds<K>(keys: Set<K>, n: nat) -> bool {
    exists|listing: Seq<K>| #[trigger] lists(listing, keys) && listing.len() == n
}

/// A set of so many keys holds no more than so many.
pub proof fn lemma_holds_at_most<K>(keys: Set<K>, n: nat)
    requires
        holds(keys, n),
    ensures
        holds_at_most(keys, n),
{
    let listing = choose|listing: Seq<K>| #[trigger] lists(listing, keys) && listing.len() == n;
    assert(covers(listing, keys));
}

/// `HashMap::len` on a table hashed by `rustc_hash`: the number of entries of the table.
#[verifier::external_body]
pub(crate) fn count<K, V>(table: &FxHashMap<K, V>) -> (n: usize)
    ensures
        holds(table@.dom(), n as nat),
{
    table.len()
}

/// `HashSet::insert` on a set hashed by `rustc_hash`: afterwards the set holds the key, and
/// every other key as before.
#[verifier::external_body]
pub(crate) fn mark<K: Eq + Hash>(set: &mut FxHashSet<K>, key: K)
    requires
        obeys_key_model::<K>(),
    ensures
        final(set)@ == old(set)@.insert(key),
{
    set.insert(key);
}

/// What a table of sequences holds, each sequence as a mathematical sequence.
pub open spec fn entries<K>(table: Map<K, Vec<u32>>) -> Map<K, Seq<u32>> {
    table.map_values(|v: Vec<u32>| v@)
}

/// Inserting into a table inserts the view of the value into what the table holds.
pub proof fn lemma_entries_insert<K>(table: Map<K, Vec<u32>>, key: K, value: Vec<u32>)
    ensures
        entries(table.insert(key, value)) == entries(table).insert(key, value@),
{
}

/// An empty table holds nothing.
pub proof fn lemma_entries_empty<K>()
    ensures
        entries(Map::<K, Vec<u32>>::empty()) == Map::<K, Seq<u32>>::empty(),
{
}

} // verus!
