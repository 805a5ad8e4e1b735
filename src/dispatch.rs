//! The dispatcher: the single writer of the store.
//!
//! Control events are applied one at a time in FIFO order. Spawning,
//! despawning, clearing and effect runs all go through here, so no two
//! writers ever touch the store at once. `Exit` stops the dispatcher: the
//! events after it are dropped and every later `enqueue` fails.
use crate::effects::{EffectView, Effects};
use crate::keys::KEY_CAPACITY;
use crate::notify::{woken_by, WatchView, Watchers};
use crate::store::{
    apply_batch, batch_view, cleared, tree_ok, without_subtree, EntityView, Store, StoreView, MAX_ENTITIES,
};
use vstd::prelude::*;

verus! {

/// A control event.
#[derive(Debug)]
pub enum Event {
    /// Append writes to an effect's pending writes, then run it.
    Write(u64, Vec<(u64, String)>),
    /// Apply an effect's pending writes to its entity.
    RunEffect(u64),
    /// Spawn a widget entity with an effect, under a parent when given.
    Spawn(Option<u64>),
    /// Despawn an entity and all its descendants.
    Despawn(u64),
    /// Despawn an entity's descendants and drop its components.
    Clear(u64),
    /// Unregister an effect.
    RemoveEffect(u64),
    /// Stop the dispatcher.
    Exit,
}

/// What applying one event gave.
#[derive(Clone, Copy, Debug, PartialEq, Eq)]
pub enum Outcome {
    Done,
    /// The entity and the effect spawned, or `None` if the spawn failed.
    Spawned(Option<(u64, u64)>),
    Exited,
}

/// The dispatcher has stopped and takes no more events.
#[derive(Clone, Copy, Debug, PartialEq, Eq)]
pub struct Closed;

/// The state a dispatcher works on.
pub struct DispatchView {
    pub store: StoreView,
    pub effects: Map<u64, EffectView>,
    pub watch: WatchView,
    pub closed: bool,
}

/// The wake flags after each component that `b` writes is notified.
pub open spec fn notify_all(w: WatchView, b: Seq<(u64, Seq<char>)>) -> Map<u64, bool>
    decreases b.len(),
{
    if b.len() == 0 {
        w.flags
    } else {
        woken_by(WatchView { subs: w.subs, flags: notify_all(w, b.drop_last()) }, b.last().0)
    }
}

/// The state after effect `k` runs: its pending writes reach its entity as
/// one batch, and the subscribers of what they write are woken.
pub open spec fn after_run(d: DispatchView, k: u64) -> DispatchView {
    if d.effects.contains_key(k) {
        let ef = d.effects[k];
        DispatchView {
            store: apply_batch(d.store, ef.target, ef.pending),
            effects: d.effects.insert(k, EffectView { target: ef.target, pending: Seq::empty() }),
            watch: if d.store.entities.contains_key(ef.target) {
                WatchView { subs: d.watch.subs, flags: notify_all(d.watch, ef.pending) }
            } else {
                d.watch
            },
            closed: d.closed,
        }
    } else {
        d
    }
}

/// The state after writes `b` are appended to effect `k`.
pub open spec fn after_stage(d: DispatchView, k: u64, b: Seq<(u64, Seq<char>)>) -> DispatchView {
    if d.effects.contains_key(k) {
        DispatchView {
            effects: d.effects.insert(k, EffectView { pending: d.effects[k].pending + b, ..d.effects[k] }),
            ..d
        }
    } else {
        d
    }
}

/// Whether a spawn under `p` has a parent to go under.
pub open spec fn parent_ok(s: StoreView, p: Option<u64>) -> bool {
    match p {
        Some(q) => s.entities.contains_key(q),
        None => true,
    }
}

/// Applying `ev` to `d` gave `out` and left `d2`.
pub open spec fn step(d: DispatchView, ev: Event, out: Outcome, d2: DispatchView) -> bool {
    match ev {
        Event::Write(k, b) => out == Outcome::Done && d2 == after_run(after_stage(d, k, batch_view(b@)), k),
        Event::RunEffect(k) => out == Outcome::Done && d2 == after_run(d, k),
        Event::Spawn(p) => match out {
            Outcome::Spawned(Some((e, k))) => {
                &&& parent_ok(d.store, p)
                &&& d.store.entities.len() < MAX_ENTITIES
                &&& d.effects.len() < KEY_CAPACITY
                &&& !d.store.entities.contains_key(e)
                &&& !d.effects.contains_key(k)
                &&& d2 == DispatchView {
                    store: StoreView {
                        entities: d.store.entities.insert(
                            e,
                            EntityView { parent: p, widget: true, values: Map::empty() },
                        ),
                    },
                    effects: d.effects.insert(k, EffectView { target: e, pending: Seq::empty() }),
                    ..d
                }
            },
            Outcome::Spawned(None) => {
                &&& !(parent_ok(d.store, p) && d.store.entities.len() < MAX_ENTITIES && d.effects.len()
                    < KEY_CAPACITY)
                &&& d2 == d
            },
            _ => false,
        },
        Event::Despawn(e) => out == Outcome::Done && d2 == DispatchView { store: without_subtree(d.store, e), ..d },
        Event::Clear(e) => out == Outcome::Done && d2 == DispatchView { store: cleared(d.store, e), ..d },
        Event::RemoveEffect(k) => out == Outcome::Done && d2 == DispatchView { effects: d.effects.remove(k), ..d },
        Event::Exit => out == Outcome::Exited && d2 == DispatchView { closed: true, ..d },
    }
}

/// Applying `evs` in order to `d0`, one step each, gave `outs` and left `d1`.
pub open spec fn chain(d0: DispatchView, d1: DispatchView, evs: Seq<Event>, outs: Seq<Outcome>) -> bool
    decreases evs.len(),
{
    if evs.len() == 0 {
        outs.len() == 0 && d1 == d0
    } else {
        outs.len() == evs.len() && exists|m: DispatchView|
            chain(d0, m, evs.drop_last(), outs.drop_last()) && step(m, evs.last(), outs.last(), d1)
    }
}

pub struct Dispatcher {
    store: Store,
    effects: Effects,
    watch: Watchers,
    queue: Vec<Event>,
    closed: bool,
}

impl View for Dispatcher {
    type V = DispatchView;

    closed spec fn view(&self) -> DispatchView {
        DispatchView { store: self.store@, effects: self.effects@, watch: self.watch@, closed: self.closed }
    }
}

impl Dispatcher {
    pub closed spec fn wf(&self) -> bool {
        self.store.wf() && self.effects.wf() && self.watch.wf()
    }

    /// The store of a consistent dispatcher is a well-formed tree.
    pub proof fn lemma_tree_ok(&self)
        requires
            self.wf(),
        ensures
            tree_ok(self@.store),
    {
        self.store.lemma_tree_ok();
    }

    /// The events enqueued and not yet run.
    pub closed spec fn queued(&self) -> Seq<Event> {
        self.queue@
    }

    /// A dispatcher over an empty store.
    pub fn new() -> (r: Dispatcher)
        ensures
            r.wf(),
            tree_ok(r@.store),
            r@.store.entities == Map::<u64, EntityView>::empty(),
            r@.effects == Map::<u64, EffectView>::empty(),
            r@.watch.flags == Map::<u64, bool>::empty(),
            r@.watch.subs == Seq::<(Seq<u64>, u64)>::empty(),
            !r@.closed,
            r.queued() == Seq::<Event>::empty(),
    {
        let r = Dispatcher {
            store: Store::new(),
            effects: Effects::new(),
            watch: Watchers::new(),
            queue: Vec::new(),
            closed: false,
        };
        proof { r.lemma_tree_ok(); }
        r
    }

    /// The store, for reading.
    pub fn store(&self) -> (r: &Store)
        requires
            self.wf(),
        ensures
            r.wf(),
            r@ == self@.store,
    {
        &self.store
    }

    /// Whether the dispatcher has stopped.
    pub fn is_closed(&self) -> (r: bool)
        ensures
            r == self@.closed,
    {
        self.closed
    }

    /// Notifies the subscribers of each component that `b` writes.
    fn notify_writes(&mut self, b: &Vec<(u64, String)>)
        requires
            old(self).wf(),
        ensures
            final(self).wf(),
            final(self)@ == (DispatchView {
                watch: WatchView { subs: old(self)@.watch.subs, flags: notify_all(old(self)@.watch, batch_view(b@)) },
                ..old(self)@
            }),
            final(self).queued() == old(self).queued(),
    {
        let ghost w0 = self@.watch;
        let ghost bv = batch_view(b@);
        let mut i: usize = 0;
        while i < b.len()
            invariant
                self.wf(),
                0 <= i <= b@.len(),
                bv == batch_view(b@),
                self.store == old(self).store,
                self.effects == old(self).effects,
                self.closed == old(self).closed,
                self.queue == old(self).queue,
                self@.watch.subs == w0.subs,
                self@.watch.flags == notify_all(w0, bv.subrange(0, i as int)),
            decreases b@.len() - i,
        {
            self.watch.notify(b[i].0);
            proof {
                assert(bv.subrange(0, i + 1).drop_last() =~= bv.subrange(0, i as int));
            }
            i = i + 1;
        }
        proof {
            assert(bv.subrange(0, b@.len() as int) =~= bv);
        }
    }

    /// Runs effect `k`.
    fn run_effect(&mut self, k: u64)
        requires
            old(self).wf(),
        ensures
            final(self).wf(),
            final(self)@ == after_run(old(self)@, k),
            final(self).queued() == old(self).queued(),
    {
        match self.effects.take(k) {
            Some((t, batch)) => {
                if self.store.is_alive(t) {
                    self.notify_writes(&batch);
                }
                self.store.write_batch(t, batch);
            },
            None => {},
        }
    }

    /// Applies one event.
    pub fn apply(&mut self, ev: Event) -> (out: Outcome)
        requires
            old(self).wf(),
            !old(self)@.closed,
        ensures
            final(self).wf(),
            tree_ok(final(self)@.store),
            step(old(self)@, ev, out, final(self)@),
            final(self).queued() == old(self).queued(),
    {
        let out = self.apply_event(ev);
        proof { self.lemma_tree_ok(); }
        out
    }

    fn apply_event(&mut self, ev: Event) -> (out: Outcome)
        requires
            old(self).wf(),
            !old(self)@.closed,
        ensures
            final(self).wf(),
            step(old(self)@, ev, out, final(self)@),
            final(self).queued() == old(self).queued(),
    {
        match ev {
            Event::Write(k, b) => {
                self.effects.stage(k, &b);
                self.run_effect(k);
                Outcome::Done
            },
            Event::RunEffect(k) => {
                self.run_effect(k);
                Outcome::Done
            },
            Event::Spawn(p) => {
                if self.effects.len() >= KEY_CAPACITY {
                    return Outcome::Spawned(None);
                }
                match self.store.spawn(p) {
                    Some(e) => {
                        let k = self.effects.create(e).unwrap();
                        Outcome::Spawned(Some((e, k)))
                    },
                    None => Outcome::Spawned(None),
                }
            },
            Event::Despawn(e) => {
                self.store.despawn(e);
                Outcome::Done
            },
            Event::Clear(e) => {
                self.store.clear(e);
                Outcome::Done
            },
            Event::RemoveEffect(k) => {
                self.effects.remove(k);
                Outcome::Done
            },
            Event::Exit => {
                self.closed = true;
                Outcome::Exited
            },
        }
    }
    /// Applies `events` in order, stopping after an `Exit`; the events after
    /// it are dropped. A closed dispatcher applies none.
    pub fn handle_batch(&mut self, events: Vec<Event>) -> (r: Vec<Outcome>)
        requires
            old(self).wf(),
        ensures
            final(self).wf(),
            tree_ok(final(self)@.store),
            final(self).queued() == old(self).queued(),
            r@.len() <= events@.len(),
            chain(old(self)@, final(self)@, events@.subrange(0, r@.len() as int), r@),
            !final(self)@.closed ==> r@.len() == events@.len(),
            old(self)@.closed ==> r@.len() == 0,
            forall|j: int| 0 <= j < r@.len() - 1 ==> !(events@[j] is Exit),
            final(self)@.closed && !old(self)@.closed ==> r@.len() > 0 && events@[r@.len() - 1] is Exit,
    {
        let ghost d0 = self@;
        let ghost evs = events@;
        let mut rest = events;
        let mut outs: Vec<Outcome> = Vec::new();
        proof {
            assert(evs.subrange(0, 0) =~= Seq::<Event>::empty());
        }
        while rest.len() > 0 && !self.closed
            invariant
                self.wf(),
                self.queued() == old(self).queued(),
                outs@.len() + rest@.len() == evs.len(),
                rest@ == evs.subrange(outs@.len() as int, evs.len() as int),
                chain(d0, self@, evs.subrange(0, outs@.len() as int), outs@),
                d0.closed ==> outs@.len() == 0,
                forall|j: int| 0 <= j < outs@.len() - 1 ==> !(evs[j] is Exit),
                !self@.closed ==> forall|j: int| 0 <= j < outs@.len() ==> !(evs[j] is Exit),
                self@.closed && !d0.closed ==> outs@.len() > 0 && evs[outs@.len() - 1] is Exit,
            decreases rest@.len(),
        {
            let ghost mid = self@;
            let ghost i = outs@.len() as int;
            let ev = rest.remove(0);
            proof {
                assert(ev == evs[i]);
            }
            let o = self.apply(ev);
            let ghost prev = outs@;
            outs.push(o);
            proof {
                let done = evs.subrange(0, i + 1);
                assert(done.drop_last() =~= evs.subrange(0, i));
                assert(done.last() == evs[i]);
                assert(outs@.drop_last() =~= prev);
                assert(chain(d0, mid, done.drop_last(), outs@.drop_last()) && step(mid, done.last(), outs@.last(), self@));
                assert(rest@ =~= evs.subrange(i + 1, evs.len() as int));
            }
        }
        proof { self.lemma_tree_ok(); }
        outs
    }

    /// Puts `ev` at the end of the queue; fails once the dispatcher has
    /// stopped, changing nothing.
    pub fn enqueue(&mut self, ev: Event) -> (r: Result<(), Closed>)
        requires
            old(self).wf(),
        ensures
            final(self).wf(),
            final(self)@ == old(self)@,
            r.is_err() == old(self)@.closed,
            r.is_ok() ==> final(self).queued() == old(self).queued().push(ev),
            r.is_err() ==> final(self).queued() == old(self).queued(),
    {
        if self.closed {
            return Err(Closed);
        }
        self.queue.push(ev);
        Ok(())
    }

    /// Takes every queued event and applies them in order, as
    /// `handle_batch` does.
    pub fn run(&mut self) -> (r: Vec<Outcome>)
        requires
            old(self).wf(),
        ensures
            final(self).wf(),
            tree_ok(final(self)@.store),
            final(self).queued() == Seq::<Event>::empty(),
            r@.len() <= old(self).queued().len(),
            chain(old(self)@, final(self)@, old(self).queued().subrange(0, r@.len() as int), r@),
            !final(self)@.closed ==> r@.len() == old(self).queued().len(),
            old(self)@.closed ==> r@.len() == 0,
            forall|j: int| 0 <= j < r@.len() - 1 ==> !(old(self).queued()[j] is Exit),
            final(self)@.closed && !old(self)@.closed ==> r@.len() > 0 && old(self).queued()[r@.len() - 1] is Exit,
    {
        let mut events: Vec<Event> = Vec::new();
        std::mem::swap(&mut events, &mut self.queue);
        self.handle_batch(events)
    }

    /// Creates a wake target; `None` when no key is left.
    pub fn new_target(&mut self) -> (r: Option<u64>)
        requires
            old(self).wf(),
        ensures
            final(self).wf(),
            final(self).queued() == old(self).queued(),
            final(self)@.store == old(self)@.store,
            final(self)@.effects == old(self)@.effects,
            final(self)@.closed == old(self)@.closed,
            final(self)@.watch.subs == old(self)@.watch.subs,
            r.is_some() == (old(self)@.watch.flags.len() < KEY_CAPACITY),
            match r {
                Some(s) => !old(self)@.watch.flags.contains_key(s) && final(self)@.watch.flags
                    == old(self)@.watch.flags.insert(s, false),
                None => final(self)@.watch.flags == old(self)@.watch.flags,
            },
    {
        self.watch.target()
    }

    /// Drops wake target `s`; its subscriptions then wake nothing.
    pub fn drop_target(&mut self, s: u64)
        requires
            old(self).wf(),
        ensures
            final(self).wf(),
            final(self).queued() == old(self).queued(),
            final(self)@ == (DispatchView {
                watch: WatchView { subs: old(self)@.watch.subs, flags: old(self)@.watch.flags.remove(s) },
                ..old(self)@
            }),
    {
        self.watch.drop_target(s)
    }

    /// Subscribes target `s` to writes of the components in `components`.
    pub fn subscribe(&mut self, components: Vec<u64>, s: u64)
        requires
            old(self).wf(),
        ensures
            final(self).wf(),
            final(self).queued() == old(self).queued(),
            final(self)@ == (DispatchView {
                watch: WatchView {
                    subs: old(self)@.watch.subs.push((components@, s)),
                    flags: old(self)@.watch.flags,
                },
                ..old(self)@
            }),
    {
        self.watch.subscribe(components, s)
    }

    /// Wakes target `s` directly, if it is live.
    pub fn wake(&mut self, s: u64)
        requires
            old(self).wf(),
        ensures
            final(self).wf(),
            final(self).queued() == old(self).queued(),
            final(self)@ == (DispatchView {
                watch: WatchView {
                    subs: old(self)@.watch.subs,
                    flags: if old(self)@.watch.flags.contains_key(s) {
                        old(self)@.watch.flags.insert(s, true)
                    } else {
                        old(self)@.watch.flags
                    },
                },
                ..old(self)@
            }),
    {
        self.watch.wake(s)
    }

    /// Takes the pending wake of target `s`: returns whether there was one,
    /// and leaves none.
    pub fn take_wake(&mut self, s: u64) -> (r: bool)
        requires
            old(self).wf(),
        ensures
            final(self).wf(),
            final(self).queued() == old(self).queued(),
            r == (old(self)@.watch.flags.contains_key(s) && old(self)@.watch.flags[s]),
            final(self)@ == (DispatchView {
                watch: WatchView {
                    subs: old(self)@.watch.subs,
                    flags: if old(self)@.watch.flags.contains_key(s) {
                        old(self)@.watch.flags.insert(s, false)
                    } else {
                        old(self)@.watch.flags
                    },
                },
                ..old(self)@
            }),
    {
        self.watch.take(s)
    }
}

} // verus!
