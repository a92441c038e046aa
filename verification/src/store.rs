//! The concurrent map that holds the entries, and what is trusted of it.
//!
//! Every function here that changes the map takes it by `&mut`: with
//! exclusive access no other thread can act between the call and its
//! return, so each contract describes the whole effect of the call.

use crate::value::{Entry, Value};
use dashmap::mapref::one::Ref;
use dashmap::DashMap;
use std::collections::hash_map::RandomState;
use vstd::prelude::*;

verus! {

/// `dashmap::DashMap`, whose inside stays hidden.
#[verifier::external_type_specification]
#[verifier::external_body]
#[verifier::reject_recursive_types(K)]
#[verifier::reject_recursive_types(V)]
#[verifier::reject_recursive_types(S)]
pub struct ExDashMap<K, V, S>(DashMap<K, V, S>);

/// `dashmap::mapref::one::Ref`, the guard that a read of the map hands out;
/// its inside stays hidden.
#[verifier::external_type_specification]
#[verifier::external_body]
#[verifier::reject_recursive_types(K)]
#[verifier::reject_recursive_types(V)]
#[verifier::reject_recursive_types(S)]
pub struct ExRef<'a, K, V, S>(Ref<'a, K, V, S>);

/// The entries a map holds: each key's bytes with what is stored under it.
pub uninterp spec fn map_entries(m: DashMap<Vec<u8>, Value, RandomState>) -> Map<Seq<u8>, Entry>;

/// The entry a reference into the map points at.
pub uninterp spec fn ref_entry(r: Ref<'_, Vec<u8>, Value, RandomState>) -> Entry;

/// The entries of `m` that are live at `now`.
pub open spec fn live_entries(m: Map<Seq<u8>, Entry>, now: u128) -> Map<Seq<u8>, Entry> {
    m.restrict(Set::new(|k: Seq<u8>| m[k].live_at(now)))
}

/// A sweep keeps a finite map finite and adds no key.
pub proof fn lemma_live_entries_within(m: Map<Seq<u8>, Entry>, now: u128)
    requires
        m.dom().finite(),
    ensures
        live_entries(m, now).dom().subset_of(m.dom()),
        live_entries(m, now).dom().finite(),
{
    vstd::set_lib::lemma_set_subset_finite(m.dom(), live_entries(m, now).dom());
}

/// `DashMap::new` is trusted to return a map without entries.
#[verifier::external_body]
pub(crate) fn map_new() -> (m: DashMap<Vec<u8>, Value, RandomState>)
    ensures
        map_entries(m) =~= Map::empty(),
{
    DashMap::new()
}

/// `DashMap::insert` is trusted to store `value` under `key`, replacing
/// what was there, to leave every other key as it was, and to return the
/// replaced value when there was one. It is trusted not to panic.
#[verifier::external_body]
pub(crate) fn map_insert(
    m: &mut DashMap<Vec<u8>, Value, RandomState>,
    key: Vec<u8>,
    value: Value,
) -> (previous: Option<Value>)
    ensures
        map_entries(*final(m)) == map_entries(*old(m)).insert(key@, value@),
        match previous {
            Some(p) => map_entries(*old(m)).dom().contains(key@) && p@ == map_entries(*old(m))[key@],
            None => !map_entries(*old(m)).dom().contains(key@),
        },
    no_unwind
{
    m.insert(key, value)
}

/// `DashMap::get` is trusted to return a reference exactly when the key is
/// present, and then one that points at the entry stored under it. The
/// reference holds a read lock; while it lives the map stays borrowed, so
/// that no write can wait on that lock.
#[verifier::external_body]
pub(crate) fn map_get<'a>(
    m: &'a DashMap<Vec<u8>, Value, RandomState>,
    key: &Vec<u8>,
) -> (found: Option<Ref<'a, Vec<u8>, Value, RandomState>>)
    ensures
        match found {
            Some(r) => map_entries(*m).dom().contains(key@) && ref_entry(r) == map_entries(*m)[key@],
            None => !map_entries(*m).dom().contains(key@),
        },
{
    m.get(key)
}

/// `Ref::value` is trusted to lend the value that the reference points at.
#[verifier::external_body]
pub(crate) fn ref_value<'b>(r: &'b Ref<'_, Vec<u8>, Value, RandomState>) -> (value: &'b Value)
    ensures
        value@ == ref_entry(*r),
{
    r.value()
}

/// `DashMap::len` is trusted to return the number of entries.
#[verifier::external_body]
pub(crate) fn map_len(m: &DashMap<Vec<u8>, Value, RandomState>) -> (n: usize)
    ensures
        n == map_entries(*m).len(),
{
    m.len()
}

/// `DashMap::retain`, handed the test [`Value::is_live_at`] for `now`, is
/// trusted to keep exactly the entries that are live at `now`, unchanged,
/// and not to panic.
#[verifier::external_body]
pub(crate) fn map_retain_live(m: &mut DashMap<Vec<u8>, Value, RandomState>, now: u128)
    ensures
        map_entries(*final(m)) == live_entries(map_entries(*old(m)), now),
    no_unwind
{
    m.retain(|_, v| v.is_live_at(now))
}

} // verus!
