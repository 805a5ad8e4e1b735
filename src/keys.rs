//! Generational keys, handed out by `slotmap`.
//!
//! A key is kept in its 64-bit form (`KeyData::as_ffi`): the slot index in
//! the low half and the slot's version in the high half. A live key is
//! never handed out again while it is live.
use slotmap::{DefaultKey, Key, KeyData, SlotMap};
use vstd::prelude::*;

verus! {

/// A `slotmap::SlotMap` used only for its keys.
#[verifier::external_body]
pub struct KeySlots {
    slots: SlotMap<DefaultKey, ()>,
}

/// The keys, in their 64-bit form, that a slot map holds.
pub uninterp spec fn live_keys(m: KeySlots) -> Set<u64>;

/// The largest number of keys that can be live at once: a slot map panics
/// when it would need a slot at index `u32::MAX`.
pub const KEY_CAPACITY: usize = 0xffff_fffe;

/// Relies on `SlotMap::new`: a new slot map holds no key.
#[verifier::external_body]
pub(crate) fn new_slots() -> (r: KeySlots)
    ensures
        live_keys(r) == Set::<u64>::empty(),
{
    KeySlots { slots: SlotMap::new() }
}

/// Relies on `SlotMap::insert` and `KeyData::as_ffi`: the key returned is
/// not live before the call and is live after it. `insert` panics only when
/// no free slot is left and the slot vector already has `u32::MAX` slots,
/// that is with `KEY_CAPACITY` keys live.
#[verifier::external_body]
pub(crate) fn insert_slot(m: &mut KeySlots) -> (k: u64)
    requires
        live_keys(*old(m)).len() < KEY_CAPACITY,
        live_keys(*old(m)).finite(),
    ensures
        !live_keys(*old(m)).contains(k),
        live_keys(*final(m)) == live_keys(*old(m)).insert(k),
{
    m.slots.insert(()).data().as_ffi()
}

/// Relies on `SlotMap::remove` and `KeyData::from_ffi`: `from_ffi` gives
/// back the key that `as_ffi` came from, and removing a live key leaves
/// the others live.
#[verifier::external_body]
pub(crate) fn remove_slot(m: &mut KeySlots, k: u64)
    requires
        live_keys(*old(m)).contains(k),
    ensures
        live_keys(*final(m)) == live_keys(*old(m)).remove(k),
{
    m.slots.remove(DefaultKey::from(KeyData::from_ffi(k)));
}

} // verus!
