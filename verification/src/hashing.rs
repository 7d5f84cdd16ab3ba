//! The hash collections of `rustc_hash`, as far as the library calls them.
//!
//! `FxHashMap` and `FxHashSet` are the maps and sets of `std` with another
//! hasher. Their views are those that `vstd` gives to `HashMap` and
//! `HashSet`; each function below makes one call and says what it does to
//! the view.

use rustc_hash::{FxHashMap, FxHashSet};
use vstd::prelude::*;

verus! {

/// `rustc_hash::FxBuildHasher`, the hasher of `FxHashMap` and `FxHashSet`,
/// opaque.
#[verifier::external_type_specification]
#[verifier::external_body]
pub struct ExFxBuildHasher(rustc_hash::FxBuildHasher);

/// `HashMap::get` on a map of variable bindings: the value bound to `c`,
/// or `None` where the map has no such key.
#[verifier::external_body]
pub(crate) fn lookup_var(m: &FxHashMap<char, usize>, c: char) -> (r: Option<usize>)
    ensures
        r == if m@.contains_key(c) {
            Some(m@[c])
        } else {
            None
        },
{
    m.get(&c).copied()
}

/// `HashMap::default`: a map without entries.
#[verifier::external_body]
pub(crate) fn new_id_map() -> (m: FxHashMap<u32, u32>)
    ensures
        m@.dom() == Set::<u32>::empty(),
{
    FxHashMap::default()
}

/// `HashMap::get` on a map of node ids: the value bound to `k`, or `None`
/// where the map has no such key.
#[verifier::external_body]
pub(crate) fn lookup_id(m: &FxHashMap<u32, u32>, k: u32) -> (r: Option<u32>)
    ensures
        r == if m@.contains_key(k) {
            Some(m@[k])
        } else {
            None
        },
{
    m.get(&k).copied()
}

/// `HashMap::insert`: `k` is bound to `v`, other bindings stay.
#[verifier::external_body]
pub(crate) fn bind_id(m: &mut FxHashMap<u32, u32>, k: u32, v: u32)
    ensures
        final(m)@ == old(m)@.insert(k, v),
{
    m.insert(k, v);
}

/// `HashSet::default`: a set without items.
#[verifier::external_body]
pub(crate) fn new_id_set() -> (s: FxHashSet<u32>)
    ensures
        s@ == Set::<u32>::empty(),
{
    FxHashSet::default()
}

/// `HashSet::contains`: whether `k` is in the set.
#[verifier::external_body]
pub(crate) fn has_id(s: &FxHashSet<u32>, k: u32) -> (b: bool)
    ensures
        b == s@.contains(k),
{
    s.contains(&k)
}

/// `HashSet::insert`: `k` is in the set, other items stay.
#[verifier::external_body]
pub(crate) fn add_id(s: &mut FxHashSet<u32>, k: u32)
    ensures
        final(s)@ == old(s)@.insert(k),
{
    s.insert(k);
}

/// `HashSet::remove`: `k` leaves the set, other items stay; the result
/// says whether it was there.
#[verifier::external_body]
pub(crate) fn drop_id(s: &mut FxHashSet<u32>, k: u32) -> (was: bool)
    ensures
        was == old(s)@.contains(k),
        final(s)@ == old(s)@.remove(k),
{
    s.remove(&k)
}


/// `HashMap::len` on a map of node ids: the number of entries.
#[verifier::external_body]
pub(crate) fn count_ids(m: &FxHashMap<u32, u32>) -> (n: usize)
    ensures
        n == m@.len(),
{
    m.len()
}

/// What a map from names to node ids holds, each name as its text.
pub uninterp spec fn named_ids(m: FxHashMap<String, u32>) -> Map<Seq<char>, u32>;

/// `HashMap::default`: a map without entries.
#[verifier::external_body]
pub(crate) fn new_name_map() -> (m: FxHashMap<String, u32>)
    ensures
        named_ids(m).dom() == Set::<Seq<char>>::empty(),
{
    FxHashMap::default()
}

/// `HashMap::insert`: the name is bound to `v`, other bindings stay.
#[verifier::external_body]
pub(crate) fn bind_name(m: &mut FxHashMap<String, u32>, name: String, v: u32)
    ensures
        named_ids(*final(m)) == named_ids(*old(m)).insert(name@, v),
{
    m.insert(name, v);
}

/// `HashMap::get`: the id bound to the name, or `None` where the map has
/// no such key.
#[verifier::external_body]
pub(crate) fn lookup_name(m: &FxHashMap<String, u32>, name: &str) -> (r: Option<u32>)
    ensures
        r == if named_ids(*m).contains_key(name@) {
            Some(named_ids(*m)[name@])
        } else {
            None
        },
{
    m.get(name).copied()
}

} // verus!
