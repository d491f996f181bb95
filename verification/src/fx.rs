//! The hash sets and maps of `fxhash`, as far as this library uses them.
//!
//! `FxHashSet<T>` and `FxHashMap<K, V>` are the standard collections with the
//! deterministic `FxHasher`. Nothing in this file is proved: each function
//! below makes one call and states what that call is trusted to do, over the
//! mathematical set or map that the collection holds (`s@`, `m@`).

use fxhash::FxHashMap;
use fxhash::FxHashSet;
use vstd::prelude::*;

verus! {

/// `fxhash::FxHasher`: the hasher's state, opaque to the proofs.
#[verifier::external_type_specification]
#[verifier::external_body]
pub struct ExFxHasher(fxhash::FxHasher);

/// `std::hash::BuildHasherDefault`: the hasher factory of the Fx collections,
/// opaque to the proofs.
#[verifier::external_type_specification]
#[verifier::external_body]
#[verifier::reject_recursive_types(H)]
pub struct ExBuildHasherDefault<H>(std::hash::BuildHasherDefault<H>);

/// `FxHashSet::default()`: trusted to return a set that holds nothing.
#[verifier::external_body]
pub(crate) fn set_new() -> (s: FxHashSet<usize>)
    ensures
        s@ == Set::<usize>::empty(),
{
    FxHashSet::default()
}

/// `HashSet::insert` on an `FxHashSet<usize>`: trusted to add `v` to what the
/// set holds, to leave the rest as it was, and to return whether `v` was new.
#[verifier::external_body]
pub(crate) fn set_insert(s: &mut FxHashSet<usize>, v: usize) -> (fresh: bool)
    ensures
        final(s)@ == old(s)@.insert(v),
        fresh == !old(s)@.contains(v),
{
    s.insert(v)
}

/// `HashSet::remove` on an `FxHashSet<usize>`: trusted to take `v` out of what
/// the set holds, to leave the rest as it was, and to return whether `v` was
/// there.
#[verifier::external_body]
pub(crate) fn set_remove(s: &mut FxHashSet<usize>, v: usize) -> (present: bool)
    ensures
        final(s)@ == old(s)@.remove(v),
        present == old(s)@.contains(v),
{
    s.remove(&v)
}

/// `HashSet::contains` on an `FxHashSet<usize>`: trusted to say whether the set
/// holds `v`.
#[verifier::external_body]
pub(crate) fn set_contains(s: &FxHashSet<usize>, v: usize) -> (b: bool)
    ensures
        b == s@.contains(v),
{
    s.contains(&v)
}

/// `HashSet::len` on an `FxHashSet<usize>`: trusted to return the number of
/// elements that the set holds, which is 0 exactly when it holds none.
#[verifier::external_body]
pub(crate) fn set_len(s: &FxHashSet<usize>) -> (n: usize)
    ensures
        n == s@.len(),
        (n == 0) == (forall|v: usize| !s@.contains(v)),
{
    s.len()
}

/// `Clone::clone` on an `FxHashSet<usize>`: trusted to return a set that holds
/// the same elements.
#[verifier::external_body]
pub(crate) fn set_clone(s: &FxHashSet<usize>) -> (r: FxHashSet<usize>)
    ensures
        r@ == s@,
{
    s.clone()
}

/// `FxHashMap::default()`: trusted to return a map without entries.
#[verifier::external_body]
pub(crate) fn map_new() -> (m: FxHashMap<usize, usize>)
    ensures
        m@.dom() == Set::<usize>::empty(),
{
    FxHashMap::default()
}

/// `HashMap::insert` on an `FxHashMap<usize, usize>`: trusted to bind `k` to
/// `v` and to leave every other entry as it was.
#[verifier::external_body]
pub(crate) fn map_insert(m: &mut FxHashMap<usize, usize>, k: usize, v: usize)
    ensures
        final(m)@ == old(m)@.insert(k, v),
{
    m.insert(k, v);
}

/// `HashMap::keys` on an `FxHashMap` keyed by `usize`, collected into a
/// vector: trusted to list the keys that have an entry, each once. The order
/// of the list is not stated.
#[verifier::external_body]
pub(crate) fn map_keys<V>(m: &FxHashMap<usize, V>) -> (keys: Vec<usize>)
    ensures
        keys@.no_duplicates(),
        forall|k: usize| keys@.contains(k) <==> m@.contains_key(k),
{
    m.keys().copied().collect()
}

/// `HashSet::iter` on an `FxHashSet<usize>`, collected into a vector: trusted
/// to list the elements that the set holds, each once. The order of the list
/// is not stated.
#[verifier::external_body]
pub(crate) fn set_items(s: &FxHashSet<usize>) -> (items: Vec<usize>)
    ensures
        items@.no_duplicates(),
        forall|v: usize| items@.contains(v) <==> s@.contains(v),
{
    s.iter().copied().collect()
}

/// `HashMap::get` on an `FxHashMap` keyed by `usize`: trusted to return the
/// value bound to `k`, and `None` exactly when `k` has no entry.
#[verifier::external_body]
pub(crate) fn map_get<V>(m: &FxHashMap<usize, V>, k: usize) -> (r: Option<&V>)
    ensures
        r == (if m@.contains_key(k) {
            Some(&m@[k])
        } else {
            None
        }),
{
    m.get(&k)
}

} // verus!
