//! The effect registry.
//!
//! An effect is bound to one entity and holds the writes that its fragment
//! has handed over but the dispatcher has not yet applied. Effects are
//! named by generational keys: running a key that was removed finds
//! nothing, and a live key is never handed out twice.
use crate::keys::{insert_slot, live_keys, new_slots, remove_slot, KeySlots, KEY_CAPACITY};
use crate::store::batch_view;
use std::collections::HashMap;
use vstd::prelude::*;

verus! {

broadcast use vstd::std_specs::hash::group_hash_axioms;

/// A registered effect: its entity and its pending writes, in order.
pub struct EffectView {
    pub target: u64,
    pub pending: Seq<(u64, Seq<char>)>,
}

pub struct Effects {
    keys: KeySlots,
    targets: HashMap<u64, u64>,
    pending: HashMap<u64, Vec<(u64, String)>>,
}

impl View for Effects {
    type V = Map<u64, EffectView>;

    closed spec fn view(&self) -> Map<u64, EffectView> {
        Map::new(
            |k: u64| self.targets@.contains_key(k),
            |k: u64| EffectView { target: self.targets@[k], pending: batch_view(self.pending@[k]@) },
        )
    }
}

/// Copies the writes of `b` to the end of `p`.
fn append_writes(p: &mut Vec<(u64, String)>, b: &Vec<(u64, String)>)
    ensures
        batch_view(final(p)@) == batch_view(old(p)@) + batch_view(b@),
{
    let ghost op = batch_view(p@);
    let mut i: usize = 0;
    while i < b.len()
        invariant
            0 <= i <= b@.len(),
            batch_view(p@) == op + batch_view(b@).subrange(0, i as int),
        decreases b@.len() - i,
    {
        let w = (b[i].0, b[i].1.clone());
        let ghost before = p@;
        p.push(w);
        proof {
            assert(w == b@[i as int]);
            assert(batch_view(b@)[i as int] == (w.0, w.1@));
            assert(batch_view(p@) =~= batch_view(before).push((w.0, w.1@)));
            assert(batch_view(p@) =~= op + batch_view(b@).subrange(0, i + 1));
        }
        i = i + 1;
    }
    proof {
        assert(batch_view(b@).subrange(0, b@.len() as int) =~= batch_view(b@));
    }
}

impl Effects {
    pub closed spec fn wf(&self) -> bool {
        &&& live_keys(self.keys) == self.targets@.dom()
        &&& self.pending@.dom() == self.targets@.dom()
        &&& self.targets@.dom().finite()
    }

    proof fn lemma_view_dom(&self)
        requires
            self.wf(),
        ensures
            self@.dom() == self.targets@.dom(),
    {
        assert(self@.dom() =~= self.targets@.dom());
    }

    /// The number of registered effects.
    pub fn len(&self) -> (r: usize)
        requires
            self.wf(),
        ensures
            r == self@.len(),
    {
        proof { self.lemma_view_dom(); }
        self.targets.len()
    }

    /// An empty registry.
    pub fn new() -> (r: Effects)
        ensures
            r.wf(),
            r@ == Map::<u64, EffectView>::empty(),
    {
        let r = Effects { keys: new_slots(), targets: HashMap::new(), pending: HashMap::new() };
        assert(r@ =~= Map::<u64, EffectView>::empty());
        r
    }

    /// Registers an effect for `target`, with nothing pending. Fails,
    /// changing nothing, when the registry is full.
    pub fn create(&mut self, target: u64) -> (r: Option<u64>)
        requires
            old(self).wf(),
        ensures
            final(self).wf(),
            r.is_some() == (old(self)@.len() < KEY_CAPACITY),
            match r {
                Some(k) => !old(self)@.contains_key(k) && final(self)@ == old(self)@.insert(
                    k,
                    EffectView { target, pending: Seq::empty() },
                ),
                None => final(self)@ == old(self)@,
            },
    {
        proof { self.lemma_view_dom(); }
        if self.targets.len() >= KEY_CAPACITY {
            return None;
        }
        let ghost o = *self;
        let k = insert_slot(&mut self.keys);
        self.targets.insert(k, target);
        self.pending.insert(k, Vec::new());
        proof {
            assert(batch_view(self.pending@[k]@) =~= Seq::<(u64, Seq<char>)>::empty());
            assert(self@ =~= o@.insert(k, EffectView { target, pending: Seq::empty() }));
        }
        Some(k)
    }

    /// Appends `batch` to the pending writes of effect `k`; returns whether
    /// `k` is registered. A key that is not changes nothing.
    pub fn stage(&mut self, k: u64, batch: &Vec<(u64, String)>) -> (r: bool)
        requires
            old(self).wf(),
        ensures
            final(self).wf(),
            r == old(self)@.contains_key(k),
            r ==> final(self)@ == old(self)@.insert(
                k,
                EffectView { pending: old(self)@[k].pending + batch_view(batch@), ..old(self)@[k] },
            ),
            !r ==> final(self)@ == old(self)@,
    {
        proof { self.lemma_view_dom(); }
        let ghost o = *self;
        match self.pending.remove(&k) {
            Some(mut p) => {
                append_writes(&mut p, batch);
                self.pending.insert(k, p);
                proof {
                    assert(self.pending@.dom() =~= o.pending@.dom());
                    assert(self@ =~= o@.insert(
                        k,
                        EffectView { pending: o@[k].pending + batch_view(batch@), ..o@[k] },
                    ));
                }
                true
            },
            None => {
                assert(self.pending@ =~= o.pending@);
                assert(self@ =~= o@);
                false
            },
        }
    }

    /// Takes the pending writes of effect `k`, with its entity, leaving it
    /// registered with nothing pending. A key that is not registered gives
    /// `None` and changes nothing.
    pub fn take(&mut self, k: u64) -> (r: Option<(u64, Vec<(u64, String)>)>)
        requires
            old(self).wf(),
        ensures
            final(self).wf(),
            r.is_some() == old(self)@.contains_key(k),
            match r {
                Some((t, b)) => {
                    &&& t == old(self)@[k].target
                    &&& batch_view(b@) == old(self)@[k].pending
                    &&& final(self)@ == old(self)@.insert(k, EffectView { target: t, pending: Seq::empty() })
                },
                None => final(self)@ == old(self)@,
            },
    {
        proof { self.lemma_view_dom(); }
        let ghost o = *self;
        match self.pending.remove(&k) {
            Some(p) => {
                self.pending.insert(k, Vec::new());
                let t = *self.targets.get(&k).unwrap();
                proof {
                    assert(self.pending@.dom() =~= o.pending@.dom());
                    assert(batch_view(self.pending@[k]@) =~= Seq::<(u64, Seq<char>)>::empty());
                    assert(self@ =~= o@.insert(k, EffectView { target: t, pending: Seq::empty() }));
                }
                Some((t, p))
            },
            None => {
                assert(self.pending@ =~= o.pending@);
                assert(self@ =~= o@);
                None
            },
        }
    }

    /// Unregisters effect `k` and drops its pending writes; returns whether
    /// it was registered.
    pub fn remove(&mut self, k: u64) -> (r: bool)
        requires
            old(self).wf(),
        ensures
            final(self).wf(),
            r == old(self)@.contains_key(k),
            final(self)@ == old(self)@.remove(k),
    {
        proof { self.lemma_view_dom(); }
        let ghost o = *self;
        if self.targets.contains_key(&k) {
            remove_slot(&mut self.keys, k);
            self.targets.remove(&k);
            self.pending.remove(&k);
            assert(self@ =~= o@.remove(k));
            true
        } else {
            assert(self@ =~= o@.remove(k));
            false
        }
    }
}

} // verus!
