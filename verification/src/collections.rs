//! The hash collections of `ahash` that the database keeps its package
//! names in, declared with names for what they hold.
use vstd::prelude::*;
use vstd::string::*;
use ahash::{AHashMap, AHashSet, RandomState};

verus! {

#[verifier::external_type_specification]
#[verifier::external_body]
#[verifier::reject_recursive_types(K)]
#[verifier::reject_recursive_types(V)]
#[verifier::reject_recursive_types(S)]
pub struct ExAHashMap<K, V, S>(AHashMap<K, V, S>);

#[verifier::external_type_specification]
#[verifier::external_body]
#[verifier::reject_recursive_types(T)]
#[verifier::reject_recursive_types(S)]
pub struct ExAHashSet<T, S>(AHashSet<T, S>);

#[verifier::external_type_specification]
#[verifier::external_body]
pub struct ExRandomState(RandomState);

/// A map from package names to positions.
pub type NameMap<'a> = AHashMap<&'a str, usize>;

/// The entries of a map from package names (as UTF-8 bytes) to positions.
pub uninterp spec fn name_map_entries(m: AHashMap<&str, usize>) -> Map<Seq<u8>, usize>;

/// The package names (as UTF-8 bytes) that a set holds.
pub uninterp spec fn name_set_contents(s: AHashSet<&str>) -> Set<Seq<u8>>;

/// `AHashMap::with_capacity`: an empty map; the capacity only reserves
/// room.
#[verifier::external_body]
pub(crate) fn name_map_new<'a>(capacity: usize) -> (r: NameMap<'a>)
    ensures
        name_map_entries(r) =~= Map::empty(),
{
    AHashMap::with_capacity(capacity)
}

/// `AHashMap::insert`: afterwards `k` maps to `v` and every other key keeps
/// its value (keys are compared as `str` values, that is by their bytes).
#[verifier::external_body]
pub(crate) fn name_map_insert<'a>(m: &mut NameMap<'a>, k: &'a str, v: usize)
    ensures
        name_map_entries(*final(m)) == name_map_entries(*old(m)).insert(k.spec_bytes(), v),
{
    m.insert(k, v);
}

/// `AHashMap::get`: the value of `k`, if `k` is a key.
#[verifier::external_body]
pub(crate) fn name_map_get(m: &NameMap, k: &str) -> (r: Option<usize>)
    ensures
        match r {
            Some(v) => name_map_entries(*m).dom().contains(k.spec_bytes()) && name_map_entries(
                *m,
            )[k.spec_bytes()] == v,
            None => !name_map_entries(*m).dom().contains(k.spec_bytes()),
        },
{
    m.get(k).copied()
}

/// `AHashSet::with_capacity`: an empty set; the capacity only reserves
/// room.
#[verifier::external_body]
pub(crate) fn name_set_new<'a>(capacity: usize) -> (r: AHashSet<&'a str>)
    ensures
        name_set_contents(r) == Set::<Seq<u8>>::empty(),
{
    AHashSet::with_capacity(capacity)
}

/// `HashSet::insert` (through `AHashSet`'s `DerefMut`): adds `k`; true when
/// `k` was not in the set before.
#[verifier::external_body]
pub(crate) fn name_set_insert<'a>(s: &mut AHashSet<&'a str>, k: &'a str) -> (r: bool)
    ensures
        name_set_contents(*final(s)) == name_set_contents(*old(s)).insert(k.spec_bytes()),
        r == !name_set_contents(*old(s)).contains(k.spec_bytes()),
{
    s.insert(k)
}

/// `HashSet::contains` (through `AHashSet`'s `Deref`): whether `k` is in
/// the set.
#[verifier::external_body]
pub(crate) fn name_set_contains(s: &AHashSet<&str>, k: &str) -> (r: bool)
    ensures
        r == name_set_contents(*s).contains(k.spec_bytes()),
{
    s.contains(k)
}

} // verus!
