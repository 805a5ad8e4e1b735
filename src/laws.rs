//! Laws that relate the operations of the library.
use crate::dispatch::{after_run, chain, notify_all, step, DispatchView, Event, Outcome};
use crate::notify::{watches, woken_by, WatchView};
use crate::store::{
    apply_batch, batch_view, cleared, descends, descends_within, last_write, law_batches_compose,
    lemma_apply_batch, lemma_descends_step, tree_ok, StoreView,
};
use vstd::prelude::*;

verus! {

/// In a well-formed tree, whatever descends from an entity has that entity
/// live.
proof fn lemma_descends_live(v: StoreView, x: u64, e: u64, n: nat)
    requires
        tree_ok(v),
        v.entities.contains_key(x),
        descends_within(v, x, e, n),
    ensures
        v.entities.contains_key(e),
    decreases n,
{
    if x != e {
        let p = v.entities[x].parent.unwrap();
        lemma_descends_live(v, p, e, (n - 1) as nat);
    }
}

/// Despawning an entity removes it and every descendant of it, with all
/// their components, and leaves every other entity as it was; in a
/// well-formed tree that includes its parent. Despawning an entity that is
/// gone changes nothing.
pub proof fn law_despawn_removes_subtree(d: DispatchView, e: u64, out: Outcome, d2: DispatchView)
    requires
        step(d, Event::Despawn(e), out, d2),
    ensures
        forall|x: u64| #[trigger] descends(d.store, x, e) ==> !d2.store.entities.contains_key(x),
        forall|x: u64| #[trigger] d.store.entities.contains_key(x) && !descends(d.store, x, e)
            ==> d2.store.entities.contains_key(x) && d2.store.entities[x] == d.store.entities[x],
        forall|x: u64| #[trigger] d2.store.entities.contains_key(x) ==> d.store.entities.contains_key(x),
        tree_ok(d.store) && d.store.entities.contains_key(e) ==> match d.store.entities[e].parent {
            Some(p) => d2.store.entities.contains_key(p) && d2.store.entities[p] == d.store.entities[p],
            None => true,
        },
        tree_ok(d.store) && !d.store.entities.contains_key(e) ==> d2 == d,
{
    if tree_ok(d.store) && !d.store.entities.contains_key(e) {
        assert forall|x: u64| d.store.entities.contains_key(x) implies !descends(d.store, x, e) by {
            if descends(d.store, x, e) {
                let n = choose|n: nat| descends_within(d.store, x, e, n);
                lemma_descends_live(d.store, x, e, n);
            }
        }
        assert(d2.store.entities =~= d.store.entities);
    }
    if tree_ok(d.store) && d.store.entities.contains_key(e) {
        if let Some(p) = d.store.entities[e].parent {
            assert(!descends(d.store, p, e));
        }
    }
}

/// Steps through the two events of a two-event chain.
proof fn lemma_chain_two(d: DispatchView, d2: DispatchView, e1: Event, e2: Event, outs: Seq<Outcome>)
    -> (m: DispatchView)
    requires
        chain(d, d2, seq![e1, e2], outs),
    ensures
        outs.len() == 2,
        step(d, e1, outs[0], m),
        step(m, e2, outs[1], d2),
{
    let evs = seq![e1, e2];
    assert(evs.drop_last() =~= seq![e1]);
    assert(evs.last() == e2);
    let m = choose|m: DispatchView| chain(d, m, evs.drop_last(), outs.drop_last()) && step(m, evs.last(), outs.last(), d2);
    let one = seq![e1];
    assert(one.drop_last() =~= Seq::<Event>::empty());
    let m0 = choose|m0: DispatchView| chain(d, m0, one.drop_last(), outs.drop_last().drop_last())
        && step(m0, one.last(), outs.drop_last().last(), m);
    assert(m0 == d);
    m
}

/// Two write guards of one fragment, committed one after the other, leave
/// the store as their writes in order would in one batch: each component
/// ends with the later guard's write if it made one, else with the earlier
/// guard's, else as it was. Neither batch is split or interleaved.
pub proof fn law_guards_apply_whole(
    d: DispatchView,
    d2: DispatchView,
    k: u64,
    a: Vec<(u64, String)>,
    b: Vec<(u64, String)>,
    outs: Seq<Outcome>,
)
    requires
        d.effects.contains_key(k),
        d.effects[k].pending == Seq::<(u64, Seq<char>)>::empty(),
        chain(d, d2, seq![Event::Write(k, a), Event::Write(k, b)], outs),
    ensures
        d2.store == apply_batch(d.store, d.effects[k].target, batch_view(a@) + batch_view(b@)),
        forall|c: u64| #[trigger] last_write(batch_view(a@) + batch_view(b@), c) == match last_write(batch_view(b@), c) {
            Some(w) => Some(w),
            None => last_write(batch_view(a@), c),
        },
{
    let m = lemma_chain_two(d, d2, Event::Write(k, a), Event::Write(k, b), outs);
    let t = d.effects[k].target;
    assert(Seq::<(u64, Seq<char>)>::empty() + batch_view(a@) =~= batch_view(a@));
    assert(m.store == apply_batch(d.store, t, batch_view(a@)));
    assert(m.effects[k].pending == Seq::<(u64, Seq<char>)>::empty());
    assert(Seq::<(u64, Seq<char>)>::empty() + batch_view(b@) =~= batch_view(b@));
    law_batches_compose(d.store, t, batch_view(a@), batch_view(b@));
}

/// Releasing a fragment whose future was dropped despawns its entity and
/// every descendant, and unregisters its effect; everything outside that
/// subtree keeps its components, and in a well-formed tree that includes
/// the fragment's parent.
pub proof fn law_release_despawns(d: DispatchView, d2: DispatchView, id: u64, k: u64, outs: Seq<Outcome>)
    requires
        chain(d, d2, seq![Event::Despawn(id), Event::RemoveEffect(k)], outs),
    ensures
        !d2.store.entities.contains_key(id),
        forall|x: u64| #[trigger] descends(d.store, x, id) ==> !d2.store.entities.contains_key(x),
        !d2.effects.contains_key(k),
        forall|x: u64| #[trigger] d.store.entities.contains_key(x) && !descends(d.store, x, id)
            ==> d2.store.entities.contains_key(x) && d2.store.entities[x] == d.store.entities[x],
        tree_ok(d.store) && d.store.entities.contains_key(id) ==> match d.store.entities[id].parent {
            Some(p) => d2.store.entities.contains_key(p) && d2.store.entities[p] == d.store.entities[p],
            None => true,
        },
{
    let m = lemma_chain_two(d, d2, Event::Despawn(id), Event::RemoveEffect(k), outs);
    law_despawn_removes_subtree(d, id, outs[0], m);
    crate::store::lemma_descends_step(d.store, id, id);
}

/// Putting a widget into a fragment keeps the fragment's entity, parent and
/// widget marker; its descendants are gone, and its components are exactly
/// those the new widget writes, each with its last write.
pub proof fn law_put_keeps_identity(v: StoreView, e: u64, b: Seq<(u64, Seq<char>)>)
    requires
        v.entities.contains_key(e),
    ensures
        ({
            let r = apply_batch(cleared(v, e), e, b);
            &&& r.entities.contains_key(e)
            &&& r.entities[e].parent == v.entities[e].parent
            &&& r.entities[e].widget == v.entities[e].widget
            &&& forall|c: u64| #[trigger] r.entities[e].values.contains_key(c) <==> last_write(b, c).is_some()
            &&& forall|c: u64| #[trigger] r.entities[e].values.contains_key(c) ==> Some(r.entities[e].values[c])
                == last_write(b, c)
            &&& forall|x: u64| x != e && #[trigger] descends(v, x, e) ==> !r.entities.contains_key(x)
            &&& tree_ok(v) ==> r.entities[e].widget
            &&& tree_ok(v) ==> forall|x: u64| #[trigger] r.entities.contains_key(x) ==> r.entities[x].parent != Some(e)
        }),
{
    let cv = cleared(v, e);
    lemma_apply_batch(cv, e, b);
    assert(cv.entities[e].values == Map::<u64, Seq<char>>::empty());
    let r = apply_batch(cv, e, b);
    if tree_ok(v) {
        assert forall|x: u64| #[trigger] r.entities.contains_key(x) implies r.entities[x].parent != Some(e) by {
            lemma_descends_step(v, e, e);
            if x != e {
                assert(cv.entities.contains_key(x));
                assert(!descends(v, x, e));
                lemma_descends_step(v, x, e);
            }
        }
    }
}

/// A fragment's write, once applied, is visible whole: each component it
/// writes holds its last write, and every other component of the entity,
/// and every other entity, is as it was.
pub proof fn law_write_visible(d: DispatchView, k: u64, b: Vec<(u64, String)>, out: Outcome, d2: DispatchView)
    requires
        step(d, Event::Write(k, b), out, d2),
        d.effects.contains_key(k),
        d.effects[k].pending == Seq::<(u64, Seq<char>)>::empty(),
        d.store.entities.contains_key(d.effects[k].target),
    ensures
        ({
            let t = d.effects[k].target;
            let before = d.store.entities[t];
            let after = d2.store.entities[t];
            &&& d2.store.entities.contains_key(t)
            &&& forall|c: u64| #[trigger] last_write(batch_view(b@), c).is_some() ==> after.values.contains_key(c)
                && Some(after.values[c]) == last_write(batch_view(b@), c)
            &&& forall|c: u64| #[trigger] last_write(batch_view(b@), c).is_none() ==> (after.values.contains_key(c)
                == before.values.contains_key(c) && (before.values.contains_key(c) ==> after.values[c]
                == before.values[c]))
            &&& forall|x: u64| #[trigger] d.store.entities.contains_key(x) && x != t ==> d2.store.entities[x]
                == d.store.entities[x]
        }),
{
    let bv = batch_view(b@);
    let t = d.effects[k].target;
    assert(Seq::<(u64, Seq<char>)>::empty() + bv =~= bv);
    let staged = crate::dispatch::after_stage(d, k, bv);
    assert(staged.effects[k].pending == bv);
    assert(staged.store == d.store);
    assert(d2.store == apply_batch(d.store, t, bv));
    lemma_apply_batch(d.store, t, bv);
    let before = d.store.entities[t];
    let after = d2.store.entities[t];
    assert forall|c: u64| #[trigger] last_write(bv, c).is_some() implies after.values.contains_key(c)
        && Some(after.values[c]) == last_write(bv, c) by {
        assert(after.values.contains_key(c));
    }
    assert forall|c: u64| #[trigger] last_write(bv, c).is_none() implies (after.values.contains_key(c)
        == before.values.contains_key(c) && (before.values.contains_key(c) ==> after.values[c]
        == before.values[c])) by {
        if after.values.contains_key(c) {
            assert(after.values[c] == before.values[c]);
        }
    }
}

/// Attaching spawns a fresh widget entity under the parent, with its own
/// effect; the parent stays as it was.
pub proof fn law_attach_spawns_child(d: DispatchView, r: u64, c: u64, k: u64, d2: DispatchView)
    requires
        step(d, Event::Spawn(Some(r)), Outcome::Spawned(Some((c, k))), d2),
    ensures
        d2.store.entities.contains_key(c),
        c != r,
        d2.store.entities[c].parent == Some(r),
        d2.store.entities[c].widget,
        d2.store.entities[c].values == Map::<u64, Seq<char>>::empty(),
        d2.store.entities.contains_key(r),
        d2.store.entities[r] == d.store.entities[r],
        d2.effects.contains_key(k),
        d2.effects[k].target == c,
{
}

/// A write never takes a wake away.
proof fn lemma_notify_keeps(w: WatchView, b: Seq<(u64, Seq<char>)>, s: u64)
    ensures
        notify_all(w, b).dom() == w.flags.dom(),
        w.flags.contains_key(s) && w.flags[s] ==> notify_all(w, b)[s],
    decreases b.len(),
{
    if b.len() > 0 {
        lemma_notify_keeps(w, b.drop_last(), s);
        let inner = WatchView { subs: w.subs, flags: notify_all(w, b.drop_last()) };
        assert(woken_by(inner, b.last().0).dom() =~= inner.flags.dom());
    }
}

/// A batch that writes a watched component wakes the watcher.
proof fn lemma_notify_wakes(w: WatchView, b: Seq<(u64, Seq<char>)>, c: u64, s: u64)
    requires
        w.flags.contains_key(s),
        watches(w.subs, c, s),
        last_write(b, c).is_some(),
    ensures
        notify_all(w, b)[s],
    decreases b.len(),
{
    let inner = WatchView { subs: w.subs, flags: notify_all(w, b.drop_last()) };
    lemma_notify_keeps(w, b.drop_last(), s);
    if b.last().0 != c {
        lemma_notify_wakes(w, b.drop_last(), c, s);
    }
}

/// Writes to a watched component that reach the store in one run wake the
/// watcher at least once, however many they are; what the watcher reads
/// then is the last of them. A later write never takes the wake away.
pub proof fn law_wake_sees_latest(d: DispatchView, k: u64, c: u64, s: u64)
    requires
        d.effects.contains_key(k),
        d.store.entities.contains_key(d.effects[k].target),
        d.watch.flags.contains_key(s),
        watches(d.watch.subs, c, s),
        last_write(d.effects[k].pending, c).is_some(),
    ensures
        after_run(d, k).watch.flags.contains_key(s),
        after_run(d, k).watch.flags[s],
        Some(after_run(d, k).store.entities[d.effects[k].target].values[c]) == last_write(d.effects[k].pending, c),
        forall|w: WatchView, b: Seq<(u64, Seq<char>)>| w.flags.contains_key(s) && w.flags[s] ==> #[trigger] notify_all(w, b)[s],
{
    let ef = d.effects[k];
    lemma_notify_keeps(d.watch, ef.pending, s);
    lemma_notify_wakes(d.watch, ef.pending, c, s);
    lemma_apply_batch(d.store, ef.target, ef.pending);
    assert(apply_batch(d.store, ef.target, ef.pending).entities[ef.target].values.contains_key(c));
    assert forall|w: WatchView, b: Seq<(u64, Seq<char>)>| w.flags.contains_key(s) && w.flags[s] implies #[trigger] notify_all(w, b)[s] by {
        lemma_notify_keeps(w, b, s);
    }
}

} // verus!
