//! Fragments: the handles widgets write through.
//!
//! A fragment names its entity and its effect. Writes made through it are
//! buffered and handed to the dispatcher as one `Write` event, so the
//! writes of one guard are applied together and in order.
use crate::dispatch::Event;
use crate::store::batch_view;
use vstd::prelude::*;

verus! {

pub struct Fragment {
    id: u64,
    effect: u64,
    buffer: Vec<(u64, String)>,
}

impl Fragment {
    pub closed spec fn spec_id(&self) -> u64 {
        self.id
    }

    pub closed spec fn spec_effect(&self) -> u64 {
        self.effect
    }

    /// The writes buffered and not yet handed over, in order.
    pub closed spec fn pending(&self) -> Seq<(u64, Seq<char>)> {
        batch_view(self.buffer@)
    }

    /// The handle of entity `id`, which writes through effect `effect`.
    pub fn new(id: u64, effect: u64) -> (r: Fragment)
        ensures
            r.spec_id() == id,
            r.spec_effect() == effect,
            r.pending() == Seq::<(u64, Seq<char>)>::empty(),
    {
        let r = Fragment { id, effect, buffer: Vec::new() };
        assert(r.pending() =~= Seq::<(u64, Seq<char>)>::empty());
        r
    }

    pub fn id(&self) -> (r: u64)
        ensures
            r == self.spec_id(),
    {
        self.id
    }

    pub fn effect(&self) -> (r: u64)
        ensures
            r == self.spec_effect(),
    {
        self.effect
    }

    /// Buffers a write of `value` to component `c`.
    pub fn set(&mut self, c: u64, value: String)
        ensures
            final(self).spec_id() == old(self).spec_id(),
            final(self).spec_effect() == old(self).spec_effect(),
            final(self).pending() == old(self).pending().push((c, value@)),
    {
        let ghost v = value@;
        let ghost o = self.pending();
        self.buffer.push((c, value));
        assert(self.pending() =~= o.push((c, v)));
    }

    /// Hands the buffered writes over as one event and empties the buffer.
    pub fn commit(&mut self) -> (r: Event)
        ensures
            final(self).spec_id() == old(self).spec_id(),
            final(self).spec_effect() == old(self).spec_effect(),
            final(self).pending() == Seq::<(u64, Seq<char>)>::empty(),
            match r {
                Event::Write(k, b) => k == old(self).spec_effect() && batch_view(b@) == old(self).pending(),
                _ => false,
            },
    {
        let mut b: Vec<(u64, String)> = Vec::new();
        std::mem::swap(&mut b, &mut self.buffer);
        assert(self.pending() =~= Seq::<(u64, Seq<char>)>::empty());
        Event::Write(self.effect, b)
    }

    /// The event that re-renders this fragment in place: its descendants
    /// and components go, its entity stays.
    pub fn clear_event(&self) -> (r: Event)
        ensures
            r == Event::Clear(self.spec_id()),
    {
        Event::Clear(self.id)
    }

    /// The events that end this fragment: its subtree is despawned and its
    /// effect unregistered. Buffered writes are dropped.
    pub fn release(self) -> (r: Vec<Event>)
        ensures
            r@.len() == 2,
            r@[0] == Event::Despawn(self.spec_id()),
            r@[1] == Event::RemoveEffect(self.spec_effect()),
    {
        let mut r: Vec<Event> = Vec::new();
        r.push(Event::Despawn(self.id));
        r.push(Event::RemoveEffect(self.effect));
        r
    }
}

} // verus!
