//! The entity/component store.
//!
//! Entities are generational keys; each live entity has an optional parent,
//! a widget marker, and text-valued components keyed by component id.
//! Despawning an entity removes it together with all its descendants.
use crate::keys::{insert_slot, live_keys, new_slots, remove_slot, KeySlots, KEY_CAPACITY};
use std::collections::HashMap;
use vstd::prelude::*;

verus! {

broadcast use vstd::std_specs::hash::group_hash_axioms;

/// What the store holds about one live entity.
pub struct EntityView {
    pub parent: Option<u64>,
    pub widget: bool,
    pub values: Map<u64, Seq<char>>,
}

/// The mathematical content of a store: its live entities.
pub struct StoreView {
    pub entities: Map<u64, EntityView>,
}

/// `x` is `e`, or an ancestor of `x` at most `n` steps up is `e`.
pub open spec fn descends_within(v: StoreView, x: u64, e: u64, n: nat) -> bool
    decreases n,
{
    x == e || (n > 0 && v.entities.contains_key(x) && match v.entities[x].parent {
        Some(p) => descends_within(v, p, e, (n - 1) as nat),
        None => false,
    })
}

/// `x` is `e` or one of its descendants.
pub open spec fn descends(v: StoreView, x: u64, e: u64) -> bool {
    exists|n: nat| descends_within(v, x, e, n)
}

/// The entities that survive despawning `e`, unchanged.
pub open spec fn without_subtree(v: StoreView, e: u64) -> StoreView {
    StoreView { entities: v.entities.restrict(v.entities.dom().filter(|x: u64| !descends(v, x, e))) }
}

/// The store after component `c` of `e` is set to `val`.
pub open spec fn with_value(v: StoreView, e: u64, c: u64, val: Seq<char>) -> StoreView {
    if v.entities.contains_key(e) {
        StoreView {
            entities: v.entities.insert(
                e,
                EntityView { values: v.entities[e].values.insert(c, val), ..v.entities[e] },
            ),
        }
    } else {
        v
    }
}

/// The store after the descendants of `e` are despawned and the components
/// of `e` are dropped; `e` keeps its identity, parent and widget marker.
pub open spec fn cleared(v: StoreView, e: u64) -> StoreView {
    if v.entities.contains_key(e) {
        StoreView {
            entities: v.entities.restrict(
                v.entities.dom().filter(|x: u64| x == e || !descends(v, x, e)),
            ).insert(e, EntityView { values: Map::empty(), ..v.entities[e] }),
        }
    } else {
        v
    }
}

/// The view of a batch of writes: component ids and values, in write order.
pub open spec fn batch_view(b: Seq<(u64, String)>) -> Seq<(u64, Seq<char>)> {
    b.map_values(|w: (u64, String)| (w.0, w.1@))
}

/// The store after the writes of `b` are applied to `e` in order.
pub open spec fn apply_batch(v: StoreView, e: u64, b: Seq<(u64, Seq<char>)>) -> StoreView
    decreases b.len(),
{
    if b.len() == 0 {
        v
    } else {
        with_value(apply_batch(v, e, b.drop_last()), e, b.last().0, b.last().1)
    }
}

/// The value that component `c` ends with after the writes of `b`, if `b`
/// writes it: the last write wins.
pub open spec fn last_write(b: Seq<(u64, Seq<char>)>, c: u64) -> Option<Seq<char>>
    decreases b.len(),
{
    if b.len() == 0 {
        None
    } else if b.last().0 == c {
        Some(b.last().1)
    } else {
        last_write(b.drop_last(), c)
    }
}

/// Applying a batch touches only the components of `e` that it writes:
/// each ends with its last write, and everything else is unchanged.
pub proof fn lemma_apply_batch(v: StoreView, e: u64, b: Seq<(u64, Seq<char>)>)
    ensures
        apply_batch(v, e, b).entities.dom() == v.entities.dom(),
        forall|x: u64| #[trigger] v.entities.contains_key(x) && x != e ==> apply_batch(v, e, b).entities[x]
            == v.entities[x],
        v.entities.contains_key(e) ==> {
            let r = apply_batch(v, e, b).entities[e];
            &&& r.parent == v.entities[e].parent
            &&& r.widget == v.entities[e].widget
            &&& forall|c: u64| #[trigger] r.values.contains_key(c) <==> (v.entities[e].values.contains_key(c)
                || last_write(b, c).is_some())
            &&& forall|c: u64| #[trigger] r.values.contains_key(c) ==> r.values[c] == match last_write(b, c) {
                Some(w) => w,
                None => v.entities[e].values[c],
            }
        },
        !v.entities.contains_key(e) ==> apply_batch(v, e, b) == v,
    decreases b.len(),
{
    if b.len() > 0 {
        lemma_apply_batch(v, e, b.drop_last());
        let m = apply_batch(v, e, b.drop_last());
        assert(m.entities.dom() =~= v.entities.dom().insert(e) || m.entities.dom() =~= v.entities.dom());
        if v.entities.contains_key(e) {
            assert(m.entities.insert(e, EntityView { values: m.entities[e].values.insert(b.last().0, b.last().1), ..m.entities[e] }).dom()
                =~= v.entities.dom());
        }
    }
}

/// Whether the subtree removal of `e` takes `x`.
pub open spec fn removed_with(v: StoreView, x: u64, e: u64, keep_root: bool) -> bool {
    descends(v, x, e) && !(keep_root && x == e)
}

/// Two batches written to one entity one after the other leave the store
/// as the single batch of their writes in order would: neither is split,
/// and each component ends with the last write of the two.
pub proof fn law_batches_compose(
    v: StoreView,
    e: u64,
    a: Seq<(u64, Seq<char>)>,
    b: Seq<(u64, Seq<char>)>,
)
    ensures
        apply_batch(apply_batch(v, e, a), e, b) == apply_batch(v, e, a + b),
        forall|c: u64| #[trigger] last_write(a + b, c) == match last_write(b, c) {
            Some(w) => Some(w),
            None => last_write(a, c),
        },
    decreases b.len(),
{
    if b.len() == 0 {
        assert(a + b =~= a);
    } else {
        law_batches_compose(v, e, a, b.drop_last());
        assert((a + b).drop_last() =~= a + b.drop_last());
        assert((a + b).last() == b.last());
        assert forall|c: u64| #[trigger] last_write(a + b, c) == match last_write(b, c) {
            Some(w) => Some(w),
            None => last_write(a, c),
        } by {
            assert(last_write(a + b.drop_last(), c) == match last_write(b.drop_last(), c) {
                Some(w) => Some(w),
                None => last_write(a, c),
            });
        }
    }
}

/// The store is a well-formed tree: every live entity carries the widget
/// marker, its parent is live, and it is not an ancestor of its parent
/// (so no entity is its own ancestor).
pub open spec fn tree_ok(v: StoreView) -> bool {
    forall|x: u64| #[trigger] v.entities.contains_key(x) ==> v.entities[x].widget && match v.entities[x].parent {
        Some(p) => v.entities.contains_key(p) && !descends(v, p, x),
        None => true,
    }
}

/// One step up the ancestor chain.
pub proof fn lemma_descends_step(v: StoreView, x: u64, e: u64)
    ensures
        descends(v, x, e) <==> (x == e || (v.entities.contains_key(x) && match v.entities[x].parent {
            Some(p) => descends(v, p, e),
            None => false,
        })),
{
    if descends(v, x, e) && x != e {
        let n = choose|n: nat| descends_within(v, x, e, n);
        if let Some(p) = v.entities[x].parent {
            assert(descends_within(v, p, e, (n - 1) as nat));
        }
    }
    if x == e {
        assert(descends_within(v, x, e, 0));
    } else if v.entities.contains_key(x) {
        if let Some(p) = v.entities[x].parent {
            if descends(v, p, e) {
                let n = choose|n: nat| descends_within(v, p, e, n);
                assert(descends_within(v, x, e, n + 1));
            }
        }
    }
}

/// The number of entities a store holds at most.
pub const MAX_ENTITIES: usize = KEY_CAPACITY;

#[derive(Clone, Copy)]
struct Node {
    parent: Option<u64>,
    widget: bool,
}

/// The shared entity/component table.
pub struct Store {
    ids: KeySlots,
    nodes: HashMap<u64, Node>,
    values: HashMap<u64, HashMap<u64, String>>,
    /// The live entities in the order they were spawned.
    order: Vec<u64>,
    rank: Ghost<Map<u64, nat>>,
    next_rank: Ghost<nat>,
}

impl View for Store {
    type V = StoreView;

    closed spec fn view(&self) -> StoreView {
        StoreView {
            entities: Map::new(
                |e: u64| self.nodes@.contains_key(e),
                |e: u64|
                    EntityView {
                        parent: self.nodes@[e].parent,
                        widget: self.nodes@[e].widget,
                        values: self.values@[e]@.map_values(|s: String| s@),
                    },
            ),
        }
    }
}

impl Store {
    /// The store's internal consistency.
    #[verifier::opaque]
    pub closed spec fn wf(&self) -> bool {
        &&& live_keys(self.ids) == self.nodes@.dom()
        &&& self.values@.dom() == self.nodes@.dom()
        &&& self.order@.len() == self.nodes@.len()
        &&& self.nodes@.dom().finite()
        &&& forall|i: int| 0 <= i < self.order@.len() ==> self.nodes@.contains_key(#[trigger] self.order@[i])
        &&& forall|e: u64| #[trigger] self.nodes@.contains_key(e) ==> exists|i: int|
            0 <= i < self.order@.len() && self.order@[i] == e
        &&& forall|i: int, j: int|
            0 <= i < j < self.order@.len() ==> self.rank@[#[trigger] self.order@[i]]
                < self.rank@[#[trigger] self.order@[j]]
        &&& forall|e: u64| #[trigger] self.nodes@.contains_key(e) ==> self.rank@[e] < self.next_rank@
        &&& forall|e: u64| #[trigger] self.nodes@.contains_key(e) ==> match self.nodes@[e].parent {
            Some(p) => self.nodes@.contains_key(p) && self.rank@[p] < self.rank@[e],
            None => true,
        }
        &&& forall|e: u64| #[trigger] self.nodes@.contains_key(e) ==> self.nodes@[e].widget
    }

    /// A consistent store is a well-formed tree.
    pub proof fn lemma_tree_ok(&self)
        requires
            self.wf(),
        ensures
            tree_ok(self@),
    {
        reveal(Store::wf);
        self.lemma_view_dom();
        assert forall|x: u64| #[trigger] self@.entities.contains_key(x) implies self@.entities[x].widget
            && match self@.entities[x].parent {
            Some(p) => self@.entities.contains_key(p) && !descends(self@, p, x),
            None => true,
        } by {
            assert(self.nodes@.contains_key(x));
            if let Some(p) = self@.entities[x].parent {
                assert(self.nodes@.contains_key(p));
                if descends(self@, p, x) {
                    let n = choose|n: nat| descends_within(self@, p, x, n);
                    lemma_descends_rank(*self, p, x, n);
                }
            }
        }
    }

    /// Creates an empty store.
    pub fn new() -> (s: Store)
        ensures
            s.wf(),
            tree_ok(s@),
            s@.entities == Map::<u64, EntityView>::empty(),
    {
        let s = Store {
            ids: new_slots(),
            nodes: HashMap::new(),
            values: HashMap::new(),
            order: Vec::new(),
            rank: Ghost(Map::empty()),
            next_rank: Ghost(0),
        };
        assert(s@.entities =~= Map::<u64, EntityView>::empty());
        proof {
            reveal(Store::wf);
            s.lemma_tree_ok();
        }
        s
    }

    /// The number of live entities.
    pub fn len(&self) -> (r: usize)
        requires
            self.wf(),
        ensures
            r == self@.entities.len(),
    {
        proof {
            self.lemma_view_dom();
            reveal(Store::wf);
        }
        self.order.len()
    }

    proof fn lemma_view_dom(&self)
        requires
            self.wf(),
        ensures
            self@.entities.dom() == self.nodes@.dom(),
    {
        reveal(Store::wf);
        assert(self@.entities.dom() =~= self.nodes@.dom());
    }

    /// Whether `e` is a live entity.
    pub fn is_alive(&self, e: u64) -> (r: bool)
        requires
            self.wf(),
        ensures
            r == self@.entities.contains_key(e),
    {
        self.nodes.contains_key(&e)
    }

    /// Sets component `c` of `e` to `val`; returns whether `e` is alive.
    /// On an entity that is gone this changes nothing.
    pub fn set(&mut self, e: u64, c: u64, val: String) -> (r: bool)
        requires
            old(self).wf(),
        ensures
            final(self).wf(),
            tree_ok(final(self)@),
            r == old(self)@.entities.contains_key(e),
            final(self)@ == with_value(old(self)@, e, c, val@),
    {
        proof { reveal(Store::wf); }
        let ghost old_self = *self;
        let ghost sv = val@;
        match self.values.remove(&e) {
            Some(mut m) => {
                let ghost om = m;
                m.insert(c, val);
                self.values.insert(e, m);
                proof {
                    assert(self.values@ =~= old_self.values@.insert(e, m));
                    assert(m@.map_values(|s: String| s@) =~= om@.map_values(|s: String| s@).insert(c, sv));
                    assert(self@.entities =~= with_value(old_self@, e, c, sv).entities);
                    self.lemma_tree_ok();
                }
                true
            },
            None => {
                assert(self.values@ =~= old_self.values@);
                assert(self@.entities =~= old_self@.entities);
                proof { self.lemma_tree_ok(); }
                false
            },
        }
    }

    /// Applies the writes of `batch` to `e`, in order, as one step; returns
    /// whether `e` is alive. On an entity that is gone this changes nothing.
    pub fn write_batch(&mut self, e: u64, batch: Vec<(u64, String)>) -> (r: bool)
        requires
            old(self).wf(),
        ensures
            final(self).wf(),
            tree_ok(final(self)@),
            r == old(self)@.entities.contains_key(e),
            final(self)@ == apply_batch(old(self)@, e, batch_view(batch@)),
    {
        let ghost ov = self@;
        let ghost bv = batch_view(batch@);
        let r = self.is_alive(e);
        let mut i: usize = 0;
        let n = batch.len();
        while i < n
            invariant
                self.wf(),
                n == batch@.len(),
                bv == batch_view(batch@),
                0 <= i <= n,
                self@ == apply_batch(ov, e, bv.subrange(0, i as int)),
            decreases n - i,
        {
            let c = batch[i].0;
            let val = batch[i].1.clone();
            self.set(e, c, val);
            proof {
                assert(bv.subrange(0, i + 1).drop_last() =~= bv.subrange(0, i as int));
                assert(bv.subrange(0, i + 1).last() == (c, val@));
            }
            i = i + 1;
        }
        proof {
            assert(bv.subrange(0, n as int) =~= bv);
            self.lemma_tree_ok();
        }
        r
    }

    /// The value of component `c` of `e`, if `e` is alive and has one.
    pub fn get(&self, e: u64, c: u64) -> (r: Option<String>)
        requires
            self.wf(),
        ensures
            match r {
                Some(s) => self@.entities.contains_key(e) && self@.entities[e].values.contains_key(c)
                    && s@ == self@.entities[e].values[c],
                None => !(self@.entities.contains_key(e) && self@.entities[e].values.contains_key(c)),
            },
    {
        proof {
            self.lemma_view_dom();
            reveal(Store::wf);
        }
        match self.values.get(&e) {
            Some(m) => match m.get(&c) {
                Some(s) => Some(s.clone()),
                None => None,
            },
            None => None,
        }
    }

    /// The parent of `e`, if `e` is alive and has one.
    pub fn parent(&self, e: u64) -> (r: Option<u64>)
        requires
            self.wf(),
        ensures
            r == (if self@.entities.contains_key(e) { self@.entities[e].parent } else { None }),
    {
        match self.nodes.get(&e) {
            Some(n) => n.parent,
            None => None,
        }
    }

    /// The live children of `e`, in the order they were spawned.
    pub fn children(&self, e: u64) -> (r: Vec<u64>)
        requires
            self.wf(),
        ensures
            forall|x: u64| r@.contains(x) <==> (self@.entities.contains_key(x) && self@.entities[x].parent == Some(e)),
    {
        proof {
            reveal(Store::wf);
            self.lemma_view_dom();
        }
        let mut r: Vec<u64> = Vec::new();
        let mut i: usize = 0;
        while i < self.order.len()
            invariant
                self.wf(),
                0 <= i <= self.order@.len(),
                forall|x: u64| r@.contains(x) ==> (self@.entities.contains_key(x) && self@.entities[x].parent == Some(e)),
                forall|j: int| 0 <= j < i && self.nodes@[#[trigger] self.order@[j]].parent == Some(e) ==> r@.contains(self.order@[j]),
            decreases self.order@.len() - i,
        {
            let x = self.order[i];
            proof {
                reveal(Store::wf);
                assert(self.nodes@.contains_key(x));
            }
            let n = *self.nodes.get(&x).unwrap();
            let ghost old_r = r@;
            if n.parent == Some(e) {
                r.push(x);
            }
            proof {
                assert(self@.entities.contains_key(x));
                assert(self@.entities[x].parent == n.parent);
                assert forall|y: u64| r@.contains(y) implies (self@.entities.contains_key(y) && self@.entities[y].parent
                    == Some(e)) by {
                    let idx = choose|idx: int| 0 <= idx < r@.len() && r@[idx] == y;
                    if idx < old_r.len() {
                        assert(old_r[idx] == y);
                        assert(old_r.contains(y));
                    }
                }
                assert forall|j: int| 0 <= j < i + 1 && self.nodes@[#[trigger] self.order@[j]].parent == Some(e) implies r@.contains(self.order@[j]) by {
                    if j == i {
                        assert(r@[r@.len() - 1] == x);
                    } else {
                        assert(old_r.contains(self.order@[j]));
                        let idx = choose|idx: int| 0 <= idx < old_r.len() && old_r[idx] == self.order@[j];
                        assert(r@[idx] == self.order@[j]);
                    }
                }
            }
            i = i + 1;
        }
        proof {
            assert forall|x: u64| (self@.entities.contains_key(x) && self@.entities[x].parent == Some(e)) implies r@.contains(x) by {
                reveal(Store::wf);
                assert(self.nodes@.contains_key(x));
                let j = choose|j: int| 0 <= j < self.order@.len() && self.order@[j] == x;
                assert(self.nodes@[self.order@[j]].parent == Some(e));
            }
        }
        r
    }

    /// Whether `e` is alive and carries the widget marker.
    pub fn is_widget(&self, e: u64) -> (r: bool)
        requires
            self.wf(),
        ensures
            r == (self@.entities.contains_key(e) && self@.entities[e].widget),
    {
        match self.nodes.get(&e) {
            Some(n) => n.widget,
            None => false,
        }
    }

    /// Despawns `e` and all its descendants. On an entity that is gone this
    /// changes nothing.
    pub fn despawn(&mut self, e: u64)
        requires
            old(self).wf(),
        ensures
            final(self).wf(),
            tree_ok(final(self)@),
            final(self)@ == without_subtree(old(self)@, e),
            !old(self)@.entities.contains_key(e) ==> final(self)@ == old(self)@,
    {
        let ghost ov = self@;
        let ghost os = *self;
        proof {
            os.lemma_view_dom();
            if !ov.entities.contains_key(e) {
                assert forall|x: u64| ov.entities.contains_key(x) implies !descends(ov, x, e) by {
                    if descends(ov, x, e) {
                        let n = choose|n: nat| descends_within(ov, x, e, n);
                        lemma_descends_rank(os, x, e, n);
                    }
                }
                assert(without_subtree(ov, e).entities =~= ov.entities);
            }
        }
        self.remove_subtree(e, false);
        proof {
            self.lemma_tree_ok();
            assert(ov.entities.dom().filter(|x: u64| !removed_with(ov, x, e, false))
                =~= ov.entities.dom().filter(|x: u64| !descends(ov, x, e)));
            assert(self@.entities =~= without_subtree(ov, e).entities);
        }
    }

    /// Despawns the descendants of `e` and drops all components of `e`;
    /// `e` keeps its identity, its parent and its widget marker. On an
    /// entity that is gone this changes nothing.
    pub fn clear(&mut self, e: u64)
        requires
            old(self).wf(),
        ensures
            final(self).wf(),
            tree_ok(final(self)@),
            final(self)@ == cleared(old(self)@, e),
            old(self)@.entities.contains_key(e) ==> {
                &&& final(self)@.entities.contains_key(e)
                &&& final(self)@.entities[e].widget
                &&& forall|x: u64| #[trigger] final(self)@.entities.contains_key(x) ==> final(self)@.entities[x].parent != Some(e)
            },
    {
        let ghost ov = self@;
        let ghost os = *self;
        proof { os.lemma_tree_ok(); }
        self.remove_subtree(e, true);
        let ghost mid = *self;
        proof {
            reveal(Store::wf);
            self.lemma_view_dom();
            assert(ov.entities.dom().filter(|x: u64| !removed_with(ov, x, e, true))
                =~= ov.entities.dom().filter(|x: u64| x == e || !descends(ov, x, e)));
        }
        if self.values.contains_key(&e) {
            self.values.insert(e, HashMap::new());
            proof {
                reveal(Store::wf);
                assert(self.values@.dom() =~= mid.values@.dom());
                assert(self.values@[e]@.map_values(|s: String| s@) =~= Map::<u64, Seq<char>>::empty());
                let cv = cleared(ov, e).entities;
                assert(mid@.entities.contains_key(e));
                assert forall|k: u64| #[trigger] self@.entities.contains_key(k) <==> cv.contains_key(k) by {
                    assert(self@.entities.contains_key(k) <==> mid@.entities.contains_key(k));
                }
                assert forall|k: u64| #[trigger] self@.entities.contains_key(k) && k != e implies self@.entities[k]
                    == cv[k] by {
                    assert(mid@.entities.contains_key(k));
                    assert(self@.entities[k] == mid@.entities[k]);
                }
                assert(mid@.entities[e] == ov.entities[e]);
                assert(mid@.entities[e].parent == mid.nodes@[e].parent);
                assert(mid@.entities[e].widget == mid.nodes@[e].widget);
                assert(self.nodes@ == mid.nodes@);
                assert(self@.entities[e] == cv[e]);
                assert(self@.entities =~= cv);
                assert(self.wf()) by {
                    reveal(Store::wf);
                    assert(mid.wf());
                    assert(self.nodes == mid.nodes && self.ids == mid.ids && self.order == mid.order);
                    assert(self.rank == mid.rank && self.next_rank == mid.next_rank);
                    assert(self.values@.dom() == self.nodes@.dom());
                }
                self.lemma_tree_ok();
                assert forall|x: u64| #[trigger] self@.entities.contains_key(x) implies self@.entities[x].parent != Some(e) by {
                    lemma_descends_step(ov, e, e);
                    if x != e {
                        assert(ov.entities.contains_key(x) && !descends(ov, x, e));
                        lemma_descends_step(ov, x, e);
                    }
                }
            }
        } else {
            proof {
                assert(!os.nodes@.contains_key(e));
                assert forall|x: u64| os.nodes@.contains_key(x) implies !removed_with(ov, x, e, true) by {
                    if descends(ov, x, e) {
                        let n = choose|n: nat| descends_within(ov, x, e, n);
                        lemma_descends_rank(os, x, e, n);
                    }
                }
                os.lemma_view_dom();
                assert(self@.entities =~= ov.entities);
                self.lemma_tree_ok();
            }
        }
    }

    /// Removes the descendants of `e`, and `e` itself unless `keep_root`.
    fn remove_subtree(&mut self, e: u64, keep_root: bool)
        requires
            old(self).wf(),
        ensures
            final(self).wf(),
            final(self)@.entities == old(self)@.entities.restrict(
                old(self)@.entities.dom().filter(|x: u64| !removed_with(old(self)@, x, e, keep_root)),
            ),
    {
        let ghost old_self = *self;
        let ghost ov = self@;
        proof {
            reveal(Store::wf);
        }
        let mut kept: Vec<u64> = Vec::new();
        let ghost mut kidx: Seq<int> = Seq::empty();
        let n = self.order.len();
        let mut i: usize = 0;
        while i < n
            invariant
                old_self.wf(),
                ov == old_self@,
                n == self.order@.len(),
                self.order@ == old_self.order@,
                self.rank == old_self.rank,
                self.next_rank == old_self.next_rank,
                0 <= i <= n,
                live_keys(self.ids) == self.nodes@.dom(),
                self.values@.dom() == self.nodes@.dom(),
                self.nodes@.dom().finite(),
                self.nodes@.len() == kept@.len() + (n - i),
                forall|k: u64| #[trigger] self.nodes@.contains_key(k) ==> old_self.nodes@.contains_key(k)
                    && self.nodes@[k] == old_self.nodes@[k] && self.values@[k] == old_self.values@[k],
                forall|j: int| 0 <= j < i ==> (self.nodes@.contains_key(#[trigger] old_self.order@[j])
                    <==> !removed_with(ov, old_self.order@[j], e, keep_root)),
                forall|j: int| i <= j < n ==> self.nodes@.contains_key(#[trigger] old_self.order@[j]),
                kidx.len() == kept@.len(),
                forall|a: int| 0 <= a < kidx.len() ==> 0 <= #[trigger] kidx[a] < i && kept@[a] == old_self.order@[kidx[a]],
                forall|a: int, b: int| 0 <= a < b < kidx.len() ==> #[trigger] kidx[a] < #[trigger] kidx[b],
                forall|j: int| 0 <= j < i && self.nodes@.contains_key(#[trigger] old_self.order@[j])
                    ==> exists|a: int| 0 <= a < kidx.len() && kidx[a] == j,
                forall|a: int| 0 <= a < kidx.len() ==> self.nodes@.contains_key(old_self.order@[#[trigger] kidx[a]]),
            decreases n - i,
        {
            let ghost old_kidx = kidx;
            let ghost old_nodes = self.nodes@;
            let x = self.order[i];
            let node = *self.nodes.get(&x).unwrap();
            let doomed = if x == e {
                !keep_root
            } else {
                match node.parent {
                    Some(p) => p == e || !self.nodes.contains_key(&p),
                    None => false,
                }
            };
            proof {
                lemma_decision(old_self, self.nodes@, i as int, e, keep_root);
                assert forall|j: int| 0 <= j < n && j != i implies old_self.order@[j] != x by {
                    lemma_order_distinct(old_self, i as int, j);
                }
            }
            if doomed {
                self.nodes.remove(&x);
                self.values.remove(&x);
                remove_slot(&mut self.ids, x);
                proof {
                    assert forall|j: int| 0 <= j < i + 1 && self.nodes@.contains_key(#[trigger] old_self.order@[j])
                        implies exists|a: int| 0 <= a < kidx.len() && kidx[a] == j by {
                        assert(old_nodes.contains_key(old_self.order@[j]));
                    }
                }
            } else {
                kept.push(x);
                proof {
                    kidx = kidx.push(i as int);
                    assert forall|j: int| 0 <= j < i + 1 && self.nodes@.contains_key(#[trigger] old_self.order@[j])
                        implies exists|a: int| 0 <= a < kidx.len() && kidx[a] == j by {
                        if j == i {
                            assert(kidx[kidx.len() - 1] == j);
                        } else {
                            let a = choose|a: int| 0 <= a < old_kidx.len() && old_kidx[a] == j;
                            assert(kidx[a] == j);
                        }
                    }
                }
            }
            i = i + 1;
        }
        self.order = kept;
        proof {
            lemma_finish(old_self, *self, kidx, e, keep_root);
        }
    }

    /// Spawns a widget entity, under `parent` when one is given.
    ///
    /// Fails, changing nothing, when the parent is not alive or the store is
    /// full.
    pub fn spawn(&mut self, parent: Option<u64>) -> (r: Option<u64>)
        requires
            old(self).wf(),
        ensures
            final(self).wf(),
            tree_ok(final(self)@),
            r.is_some() == (match parent {
                Some(p) => old(self)@.entities.contains_key(p),
                None => true,
            } && old(self)@.entities.len() < MAX_ENTITIES),
            match r {
                Some(e) => {
                    &&& !old(self)@.entities.contains_key(e)
                    &&& final(self)@.entities == old(self)@.entities.insert(
                        e,
                        EntityView { parent, widget: true, values: Map::empty() },
                    )
                },
                None => final(self)@ == old(self)@,
            },
    {
        proof {
            self.lemma_view_dom();
            self.lemma_tree_ok();
            reveal(Store::wf);
        }
        if let Some(p) = parent {
            if !self.nodes.contains_key(&p) {
                return None;
            }
        }
        if self.order.len() >= MAX_ENTITIES {
            return None;
        }
        let ghost old_self = *self;
        let e = insert_slot(&mut self.ids);
        self.nodes.insert(e, Node { parent, widget: true });
        self.values.insert(e, HashMap::new());
        self.order.push(e);
        proof {
            self.rank@ = self.rank@.insert(e, self.next_rank@);
            self.next_rank@ = self.next_rank@ + 1;
            assert forall|i: int| 0 <= i < self.order@.len() implies self.nodes@.contains_key(
                #[trigger] self.order@[i],
            ) by {
                if i < old_self.order@.len() {
                    assert(old_self.order@[i] == self.order@[i]);
                }
            }
            assert forall|x: u64| #[trigger] self.nodes@.contains_key(x) implies exists|i: int|
                0 <= i < self.order@.len() && self.order@[i] == x by {
                if x == e {
                    assert(self.order@[self.order@.len() - 1] == x);
                } else {
                    assert(old_self.nodes@.contains_key(x));
                    let i = choose|i: int| 0 <= i < old_self.order@.len() && old_self.order@[i] == x;
                    assert(self.order@[i] == x);
                }
            }
            assert forall|i: int, j: int| 0 <= i < j < self.order@.len() implies self.rank@[
                #[trigger] self.order@[i]] < self.rank@[#[trigger] self.order@[j]] by {
                assert(old_self.nodes@.contains_key(self.order@[i]));
                if j < old_self.order@.len() {
                    assert(old_self.order@[i] == self.order@[i]);
                    assert(old_self.order@[j] == self.order@[j]);
                    assert(old_self.nodes@.contains_key(self.order@[j]));
                }
            }
            let nv = EntityView { parent, widget: true, values: Map::empty() };
            assert(self.values@[e]@.map_values(|s: String| s@) =~= Map::<u64, Seq<char>>::empty());
            assert(self@.entities =~= old_self@.entities.insert(e, nv));
            self.lemma_tree_ok();
        }
        Some(e)
    }
}

/// The removal loop decides on the entity at position `i` of the spawn
/// order from its parent alone, which comes earlier in that order.
proof fn lemma_decision(s: Store, cur: Map<u64, Node>, i: int, e: u64, keep_root: bool)
    requires
        s.wf(),
        0 <= i < s.order@.len(),
        forall|j: int| 0 <= j < i ==> (cur.contains_key(#[trigger] s.order@[j])
            <==> !removed_with(s@, s.order@[j], e, keep_root)),
    ensures
        ({
            let x = s.order@[i];
            &&& s.nodes@.contains_key(x)
            &&& (if x == e {
                !keep_root
            } else {
                match s.nodes@[x].parent {
                    Some(p) => p == e || !cur.contains_key(p),
                    None => false,
                }
            }) == removed_with(s@, x, e, keep_root)
        }),
{
    reveal(Store::wf);
    let x = s.order@[i];
    assert(s.nodes@.contains_key(x));
    lemma_descends_step(s@, x, e);
    assert(s@.entities.contains_key(x));
    assert(s@.entities[x].parent == s.nodes@[x].parent);
    if let Some(p) = s.nodes@[x].parent {
        assert(s.nodes@.contains_key(p));
        let jp = choose|jp: int| 0 <= jp < s.order@.len() && s.order@[jp] == p;
        if jp >= i {
            if jp > i {
                assert(s.rank@[s.order@[i]] < s.rank@[s.order@[jp]]);
            }
            assert(false);
        }
        assert(cur.contains_key(s.order@[jp]) <==> !removed_with(s@, p, e, keep_root));
        lemma_descends_step(s@, p, e);
    }
}

/// An ancestor is spawned before its descendants.
proof fn lemma_descends_rank(s: Store, x: u64, e: u64, n: nat)
    requires
        s.wf(),
        s.nodes@.contains_key(x),
        descends_within(s@, x, e, n),
    ensures
        x == e || (s.nodes@.contains_key(e) && s.rank@[e] < s.rank@[x]),
    decreases n,
{
    reveal(Store::wf);
    if x != e {
        assert(s@.entities.contains_key(x));
        assert(s@.entities[x].parent == s.nodes@[x].parent);
        if let Some(p) = s.nodes@[x].parent {
            lemma_descends_rank(s, p, e, (n - 1) as nat);
        }
    }
}

/// Positions of the spawn order hold distinct entities.
proof fn lemma_order_distinct(s: Store, i: int, j: int)
    requires
        s.wf(),
        0 <= i < s.order@.len(),
        0 <= j < s.order@.len(),
        i != j,
    ensures
        s.order@[i] != s.order@[j],
{
    reveal(Store::wf);
    if i < j {
        assert(s.rank@[s.order@[i]] < s.rank@[s.order@[j]]);
    } else {
        assert(s.rank@[s.order@[j]] < s.rank@[s.order@[i]]);
    }
}

/// What the removal loop leaves is a consistent store holding the
/// entities that were not removed.
proof fn lemma_finish(o: Store, s: Store, kidx: Seq<int>, e: u64, keep_root: bool)
    requires
        o.wf(),
        s.rank == o.rank,
        s.next_rank == o.next_rank,
        live_keys(s.ids) == s.nodes@.dom(),
        s.values@.dom() == s.nodes@.dom(),
        s.nodes@.dom().finite(),
        s.nodes@.len() == s.order@.len(),
        forall|k: u64| #[trigger] s.nodes@.contains_key(k) ==> o.nodes@.contains_key(k)
            && s.nodes@[k] == o.nodes@[k] && s.values@[k] == o.values@[k],
        forall|j: int| 0 <= j < o.order@.len() ==> (s.nodes@.contains_key(#[trigger] o.order@[j])
            <==> !removed_with(o@, o.order@[j], e, keep_root)),
        kidx.len() == s.order@.len(),
        forall|a: int| 0 <= a < kidx.len() ==> 0 <= #[trigger] kidx[a] < o.order@.len()
            && s.order@[a] == o.order@[kidx[a]],
        forall|a: int, b: int| 0 <= a < b < kidx.len() ==> #[trigger] kidx[a] < #[trigger] kidx[b],
        forall|j: int| 0 <= j < o.order@.len() && s.nodes@.contains_key(#[trigger] o.order@[j])
            ==> exists|a: int| 0 <= a < kidx.len() && kidx[a] == j,
        forall|a: int| 0 <= a < kidx.len() ==> s.nodes@.contains_key(o.order@[#[trigger] kidx[a]]),
    ensures
        s.wf(),
        s@.entities == o@.entities.restrict(
            o@.entities.dom().filter(|x: u64| !removed_with(o@, x, e, keep_root)),
        ),
{
    reveal(Store::wf);
    assert forall|a: int| 0 <= a < s.order@.len() implies s.nodes@.contains_key(#[trigger] s.order@[a]) by {
        assert(s.nodes@.contains_key(o.order@[kidx[a]]));
    }
    assert forall|k: u64| #[trigger] s.nodes@.contains_key(k) implies exists|a: int|
        0 <= a < s.order@.len() && s.order@[a] == k by {
        let j = choose|j: int| 0 <= j < o.order@.len() && o.order@[j] == k;
        assert(s.nodes@.contains_key(o.order@[j]));
        let a = choose|a: int| 0 <= a < kidx.len() && kidx[a] == j;
        assert(s.order@[a] == k);
    }
    assert forall|a: int, b: int| 0 <= a < b < s.order@.len() implies s.rank@[#[trigger] s.order@[a]]
        < s.rank@[#[trigger] s.order@[b]] by {
        assert(kidx[a] < kidx[b]);
        assert(o.rank@[o.order@[kidx[a]]] < o.rank@[o.order@[kidx[b]]]);
    }
    assert forall|k: u64| #[trigger] s.nodes@.contains_key(k) implies s.rank@[k] < s.next_rank@ by {
        assert(o.nodes@.contains_key(k));
    }
    assert forall|k: u64| #[trigger] s.nodes@.contains_key(k) implies s.nodes@[k].widget by {
        assert(o.nodes@.contains_key(k));
    }
    assert forall|k: u64| #[trigger] s.nodes@.contains_key(k) implies match s.nodes@[k].parent {
        Some(p) => s.nodes@.contains_key(p) && s.rank@[p] < s.rank@[k],
        None => true,
    } by {
        assert(o.nodes@.contains_key(k));
        let j = choose|j: int| 0 <= j < o.order@.len() && o.order@[j] == k;
        assert(s.nodes@.contains_key(o.order@[j]));
        assert(!removed_with(o@, k, e, keep_root));
        lemma_descends_step(o@, k, e);
        assert(o@.entities[k].parent == s.nodes@[k].parent);
        if let Some(p) = s.nodes@[k].parent {
            assert(o.nodes@.contains_key(p));
            let jp = choose|jp: int| 0 <= jp < o.order@.len() && o.order@[jp] == p;
            assert(s.nodes@.contains_key(o.order@[jp]) <==> !removed_with(o@, p, e, keep_root));
            if descends(o@, p, e) && p != e {
                let m = choose|m: nat| descends_within(o@, p, e, m);
                lemma_descends_rank(o, p, e, m);
                assert(o.rank@[p] < o.rank@[k]);
                if k == e {
                    assert(false);
                }
            }
        }
    }
    let fv = o@.entities.restrict(o@.entities.dom().filter(|x: u64| !removed_with(o@, x, e, keep_root)));
    assert forall|k: u64| s.nodes@.contains_key(k) <==> fv.contains_key(k) by {
        if o.nodes@.contains_key(k) {
            let j = choose|j: int| 0 <= j < o.order@.len() && o.order@[j] == k;
            assert(s.nodes@.contains_key(o.order@[j]) <==> !removed_with(o@, k, e, keep_root));
        }
    }
    assert(s@.entities =~= fv);
}

} // verus!
