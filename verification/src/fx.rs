//! Maps and sets hashed with rustc-hash's `FxBuildHasher`, keyed by integers
//! or by names.
//!
//! std's `HashMap` and `HashSet` behave as maps and sets for any hasher whose
//! hashers hash equal keys equally; `FxBuildHasher` builds `FxHasher`s that
//! all start from the same state, so they do. The functions below make the
//! calls and state that behaviour; nothing else of the hashing is used.
use vstd::prelude::*;
use std::collections::{HashMap, HashSet};
use rustc_hash::FxBuildHasher;

verus! {

/// The empty map from `u32` keys.
pub open spec fn empty_u32_map<V>() -> Map<u32, V> {
    Map::empty()
}

/// The empty map from `u64` keys.
pub open spec fn empty_u64_map<V>() -> Map<u64, V> {
    Map::empty()
}

#[verifier::external_type_specification]
#[verifier::external_body]
pub struct ExFxBuildHasher(FxBuildHasher);

/// Calls `HashMap::with_hasher(FxBuildHasher)`: an empty map.
#[verifier::external_body]
pub(crate) fn fx_map_u32_new<V>() -> (m: HashMap<u32, V, FxBuildHasher>)
    ensures
        m@ == empty_u32_map::<V>(),
{
    HashMap::with_hasher(FxBuildHasher)
}

/// Calls `HashMap::insert`: `key` now maps to `value`, whatever it mapped to before.
#[verifier::external_body]
pub(crate) fn fx_map_u32_insert<V>(m: &mut HashMap<u32, V, FxBuildHasher>, key: u32, value: V)
    ensures
        final(m)@ == old(m)@.insert(key, value),
{
    m.insert(key, value);
}

/// Calls `HashMap::get`: the value `key` maps to, if any.
#[verifier::external_body]
pub(crate) fn fx_map_u32_get<V>(m: &HashMap<u32, V, FxBuildHasher>, key: u32) -> (r: Option<&V>)
    ensures
        r == if m@.contains_key(key) {
            Some(&m@[key])
        } else {
            None::<&V>
        },
{
    m.get(&key)
}

/// Calls `HashMap::clear`: the map is empty.
#[verifier::external_body]
pub(crate) fn fx_map_u32_clear<V>(m: &mut HashMap<u32, V, FxBuildHasher>)
    ensures
        final(m)@ == empty_u32_map::<V>(),
{
    m.clear();
}

/// Calls `HashMap::with_hasher(FxBuildHasher)`: an empty map.
#[verifier::external_body]
pub(crate) fn fx_map_u64_new<V>() -> (m: HashMap<u64, V, FxBuildHasher>)
    ensures
        m@ == empty_u64_map::<V>(),
{
    HashMap::with_hasher(FxBuildHasher)
}

/// Calls `HashMap::insert`: `key` now maps to `value`, whatever it mapped to before.
#[verifier::external_body]
pub(crate) fn fx_map_u64_insert<V>(m: &mut HashMap<u64, V, FxBuildHasher>, key: u64, value: V)
    ensures
        final(m)@ == old(m)@.insert(key, value),
{
    m.insert(key, value);
}

/// Calls `HashMap::get`: the value `key` maps to, if any.
#[verifier::external_body]
pub(crate) fn fx_map_u64_get<V>(m: &HashMap<u64, V, FxBuildHasher>, key: u64) -> (r: Option<&V>)
    ensures
        r == if m@.contains_key(key) {
            Some(&m@[key])
        } else {
            None::<&V>
        },
{
    m.get(&key)
}

/// Calls `HashMap::get`: the value `key` maps to, if any.
#[verifier::external_body]
pub(crate) fn fx_map_u128_get<V>(m: &HashMap<u128, V, FxBuildHasher>, key: u128) -> (r: Option<&V>)
    ensures
        r == if m@.contains_key(key) {
            Some(&m@[key])
        } else {
            None::<&V>
        },
{
    m.get(&key)
}

/// Calls `HashSet::with_hasher(FxBuildHasher)`: an empty set.
#[verifier::external_body]
pub(crate) fn fx_set_u32_new() -> (s: HashSet<u32, FxBuildHasher>)
    ensures
        s@ == Set::<u32>::empty(),
{
    HashSet::with_hasher(FxBuildHasher)
}

/// Calls `HashSet::insert`: `value` is in the set; whether it was before is
/// what comes back negated.
#[verifier::external_body]
pub(crate) fn fx_set_u32_insert(s: &mut HashSet<u32, FxBuildHasher>, value: u32) -> (r: bool)
    ensures
        final(s)@ == old(s)@.insert(value),
        r == !old(s)@.contains(value),
{
    s.insert(value)
}

/// Calls `HashSet::contains`: whether `value` is in the set.
#[verifier::external_body]
pub(crate) fn fx_set_u32_contains(s: &HashSet<u32, FxBuildHasher>, value: u32) -> (r: bool)
    ensures
        r == s@.contains(value),
{
    s.contains(&value)
}

/// Calls `HashSet::clear`: the set is empty.
#[verifier::external_body]
pub(crate) fn fx_set_u32_clear(s: &mut HashSet<u32, FxBuildHasher>)
    ensures
        final(s)@ == Set::<u32>::empty(),
{
    s.clear();
}

/// Calls `Extend::extend` with the values of `other`: the set holds its
/// values and those of `other`.
#[verifier::external_body]
pub(crate) fn fx_set_u32_extend(s: &mut HashSet<u32, FxBuildHasher>, other: &HashSet<u32, FxBuildHasher>)
    ensures
        final(s)@ == old(s)@.union(other@),
{
    s.extend(other);
}

/// The names a map from names holds, each by its text, and the number each
/// maps to.
pub uninterp spec fn fx_names(m: HashMap<String, u32, FxBuildHasher>) -> Map<Seq<char>, u32>;

/// No name.
pub open spec fn no_names() -> Map<Seq<char>, u32> {
    Map::empty()
}

/// Calls `HashMap::with_hasher(FxBuildHasher)`: a map with no name.
#[verifier::external_body]
pub(crate) fn fx_names_new() -> (m: HashMap<String, u32, FxBuildHasher>)
    ensures
        fx_names(m) == no_names(),
{
    HashMap::with_hasher(FxBuildHasher)
}

/// Calls `HashMap::insert`: the text of `key` now maps to `value`.
#[verifier::external_body]
pub(crate) fn fx_names_insert(m: &mut HashMap<String, u32, FxBuildHasher>, key: String, value: u32)
    ensures
        fx_names(*final(m)) == fx_names(*old(m)).insert(key@, value),
{
    m.insert(key, value);
}

/// Calls `HashMap::get` and `Option::copied`: the number the text of `key`
/// maps to, if any.
#[verifier::external_body]
pub(crate) fn fx_names_get(m: &HashMap<String, u32, FxBuildHasher>, key: &str) -> (r: Option<u32>)
    ensures
        r == if fx_names(*m).contains_key(key@) {
            Some(fx_names(*m)[key@])
        } else {
            None::<u32>
        },
{
    m.get(key).copied()
}

/// Calls `HashMap::clear`: the map holds no name.
#[verifier::external_body]
pub(crate) fn fx_names_clear(m: &mut HashMap<String, u32, FxBuildHasher>)
    ensures
        fx_names(*final(m)) == no_names(),
{
    m.clear();
}

} // verus!
