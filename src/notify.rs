//! Change notification.
//!
//! A wake target is a flag that a write sets and its owner takes. Writes
//! that come before the owner looks again coalesce into one wake: the owner
//! reads the store afresh, not a list of changes. A subscription names its
//! target by key and does not keep it: once the target is dropped, the
//! subscription wakes nothing.
use crate::keys::{insert_slot, live_keys, new_slots, remove_slot, KeySlots, KEY_CAPACITY};
use std::collections::HashMap;
use vstd::prelude::*;

verus! {

broadcast use vstd::std_specs::hash::group_hash_axioms;

pub struct WatchView {
    /// The subscriptions: component ids and the target to wake.
    pub subs: Seq<(Seq<u64>, u64)>,
    /// The live targets and whether each has a wake to take.
    pub flags: Map<u64, bool>,
}

/// Some subscription of target `s` names component `c`.
pub open spec fn watches(subs: Seq<(Seq<u64>, u64)>, c: u64, s: u64) -> bool {
    exists|i: int| 0 <= i < subs.len() && #[trigger] subs[i].1 == s && subs[i].0.contains(c)
}

/// The flags after a write to component `c`.
pub open spec fn woken_by(w: WatchView, c: u64) -> Map<u64, bool> {
    Map::new(|s: u64| w.flags.contains_key(s), |s: u64| w.flags[s] || watches(w.subs, c, s))
}

pub struct Watchers {
    keys: KeySlots,
    flags: HashMap<u64, bool>,
    subs: Vec<(Vec<u64>, u64)>,
}

impl View for Watchers {
    type V = WatchView;

    closed spec fn view(&self) -> WatchView {
        WatchView {
            subs: self.subs@.map_values(|p: (Vec<u64>, u64)| (p.0@, p.1)),
            flags: self.flags@,
        }
    }
}

fn contains_id(v: &Vec<u64>, c: u64) -> (r: bool)
    ensures
        r == v@.contains(c),
{
    let mut i: usize = 0;
    while i < v.len()
        invariant
            0 <= i <= v@.len(),
            forall|j: int| 0 <= j < i ==> v@[j] != c,
        decreases v@.len() - i,
    {
        if v[i] == c {
            return true;
        }
        i = i + 1;
    }
    false
}

impl Watchers {
    pub closed spec fn wf(&self) -> bool {
        &&& live_keys(self.keys) == self.flags@.dom()
        &&& self.flags@.dom().finite()
    }

    pub fn new() -> (r: Watchers)
        ensures
            r.wf(),
            r@.subs == Seq::<(Seq<u64>, u64)>::empty(),
            r@.flags == Map::<u64, bool>::empty(),
    {
        let r = Watchers { keys: new_slots(), flags: HashMap::new(), subs: Vec::new() };
        assert(r@.subs =~= Seq::<(Seq<u64>, u64)>::empty());
        r
    }

    /// Creates a wake target with no wake pending. Fails, changing
    /// nothing, when no key is left.
    pub fn target(&mut self) -> (r: Option<u64>)
        requires
            old(self).wf(),
        ensures
            final(self).wf(),
            final(self)@.subs == old(self)@.subs,
            r.is_some() == (old(self)@.flags.len() < KEY_CAPACITY),
            match r {
                Some(s) => !old(self)@.flags.contains_key(s) && final(self)@.flags == old(self)@.flags.insert(s, false),
                None => final(self)@.flags == old(self)@.flags,
            },
    {
        if self.flags.len() >= KEY_CAPACITY {
            return None;
        }
        let s = insert_slot(&mut self.keys);
        self.flags.insert(s, false);
        Some(s)
    }

    /// Drops target `s`: its subscriptions stay but wake nothing.
    pub fn drop_target(&mut self, s: u64)
        requires
            old(self).wf(),
        ensures
            final(self).wf(),
            final(self)@.subs == old(self)@.subs,
            final(self)@.flags == old(self)@.flags.remove(s),
    {
        if self.flags.contains_key(&s) {
            remove_slot(&mut self.keys, s);
            self.flags.remove(&s);
            assert(self.flags@.dom() =~= live_keys(self.keys));
        } else {
            assert(self.flags@.remove(s) =~= self.flags@);
        }
    }

    /// Subscribes target `s` to changes of the components in `components`.
    pub fn subscribe(&mut self, components: Vec<u64>, s: u64)
        requires
            old(self).wf(),
        ensures
            final(self).wf(),
            final(self)@.subs == old(self)@.subs.push((components@, s)),
            final(self)@.flags == old(self)@.flags,
    {
        let ghost c = components@;
        let ghost o = self@.subs;
        self.subs.push((components, s));
        assert(self@.subs =~= o.push((c, s)));
    }

    /// Records a write to component `c`: every live target subscribed to
    /// it gets a wake.
    pub fn notify(&mut self, c: u64)
        requires
            old(self).wf(),
        ensures
            final(self).wf(),
            final(self)@.subs == old(self)@.subs,
            final(self)@.flags == woken_by(old(self)@, c),
    {
        let ghost o = self@;
        let n = self.subs.len();
        let mut i: usize = 0;
        while i < n
            invariant
                self.wf(),
                n == self.subs@.len(),
                self@.subs == o.subs,
                0 <= i <= n,
                self.flags@.dom() == o.flags.dom(),
                forall|s: u64| #[trigger] self.flags@.contains_key(s) ==> self.flags@[s] == (o.flags[s]
                    || exists|j: int| 0 <= j < i && #[trigger] o.subs[j].1 == s && o.subs[j].0.contains(c)),
            decreases n - i,
        {
            let s = self.subs[i].1;
            let hit = contains_id(&self.subs[i].0, c);
            proof {
                assert(o.subs[i as int] == (self.subs@[i as int].0@, s));
            }
            if hit && self.flags.contains_key(&s) {
                let ghost before = self.flags@;
                self.flags.insert(s, true);
                proof {
                    assert(self.flags@.dom() =~= before.dom());
                }
            }
            proof {
                assert forall|t: u64| #[trigger] self.flags@.contains_key(t) implies self.flags@[t] == (o.flags[t]
                    || exists|j: int| 0 <= j < i + 1 && #[trigger] o.subs[j].1 == t && o.subs[j].0.contains(c)) by {
                    if t == s && hit {
                        assert(o.subs[i as int].1 == t);
                    }
                }
            }
            i = i + 1;
        }
        proof {
            assert(self.flags@ =~= woken_by(o, c));
        }
    }

    /// Wakes target `s` directly, if it is live.
    pub fn wake(&mut self, s: u64)
        requires
            old(self).wf(),
        ensures
            final(self).wf(),
            final(self)@.subs == old(self)@.subs,
            final(self)@.flags == (if old(self)@.flags.contains_key(s) {
                old(self)@.flags.insert(s, true)
            } else {
                old(self)@.flags
            }),
    {
        if self.flags.contains_key(&s) {
            let ghost before = self.flags@;
            self.flags.insert(s, true);
            assert(self.flags@.dom() =~= before.dom());
        }
    }

    /// Takes the pending wake of target `s`: returns whether there was one,
    /// and leaves none.
    pub fn take(&mut self, s: u64) -> (r: bool)
        requires
            old(self).wf(),
        ensures
            final(self).wf(),
            final(self)@.subs == old(self)@.subs,
            r == (old(self)@.flags.contains_key(s) && old(self)@.flags[s]),
            final(self)@.flags == (if old(self)@.flags.contains_key(s) {
                old(self)@.flags.insert(s, false)
            } else {
                old(self)@.flags
            }),
    {
        match self.flags.get(&s) {
            Some(f) => {
                let r = *f;
                let ghost before = self.flags@;
                self.flags.insert(s, false);
                assert(self.flags@.dom() =~= before.dom());
                r
            },
            None => false,
        }
    }
}

} // verus!
