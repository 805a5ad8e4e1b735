use fragments::dispatch::{Closed, Dispatcher, Event, Outcome};
use fragments::fragment::Fragment;

const X: u64 = 10;
const Y: u64 = 11;
const TEXT: u64 = 12;
const NAME: u64 = 13;
const CONTENT: u64 = 14;

fn spawn(d: &mut Dispatcher, parent: Option<u64>) -> Fragment {
    match d.apply(Event::Spawn(parent)) {
        Outcome::Spawned(Some((e, k))) => Fragment::new(e, k),
        other => panic!("spawn failed: {other:?}"),
    }
}

#[test]
fn enqueue_after_exit_fails() {
    let mut d = Dispatcher::new();
    assert_eq!(d.enqueue(Event::Exit), Ok(()));
    assert_eq!(d.run(), vec![Outcome::Exited]);
    assert!(d.is_closed());
    assert_eq!(d.enqueue(Event::Spawn(None)), Err(Closed));
}

#[test]
fn events_after_exit_are_dropped() {
    let mut d = Dispatcher::new();
    let outs = d.handle_batch(vec![Event::Spawn(None), Event::Exit, Event::Spawn(None)]);
    assert_eq!(outs.len(), 2);
    assert_eq!(outs[1], Outcome::Exited);
    assert_eq!(d.store().len(), 1);
    assert_eq!(d.handle_batch(vec![Event::Spawn(None)]), vec![]);
}

#[test]
fn queued_events_run_in_fifo_order() {
    let mut d = Dispatcher::new();
    let mut f = spawn(&mut d, None);
    f.set(TEXT, "one".to_string());
    d.enqueue(f.commit()).unwrap();
    f.set(TEXT, "two".to_string());
    d.enqueue(f.commit()).unwrap();
    let outs = d.run();
    assert_eq!(outs, vec![Outcome::Done, Outcome::Done]);
    assert_eq!(d.store().get(f.id(), TEXT), Some("two".to_string()));
}

#[test]
fn spawn_under_gone_parent_fails() {
    let mut d = Dispatcher::new();
    let f = spawn(&mut d, None);
    let id = f.id();
    d.handle_batch(f.release());
    assert_eq!(d.apply(Event::Spawn(Some(id))), Outcome::Spawned(None));
}

#[test]
fn guard_batches_never_interleave() {
    let mut d = Dispatcher::new();
    let mut f = spawn(&mut d, None);
    f.set(X, "1".to_string());
    f.set(Y, "2".to_string());
    let a = f.commit();
    f.set(X, "3".to_string());
    let b = f.commit();
    d.apply(a);
    assert_eq!(d.store().get(f.id(), X), Some("1".to_string()));
    assert_eq!(d.store().get(f.id(), Y), Some("2".to_string()));
    d.apply(b);
    assert_eq!(d.store().get(f.id(), X), Some("3".to_string()));
    assert_eq!(d.store().get(f.id(), Y), Some("2".to_string()));
}

#[test]
fn stale_effect_runs_are_no_ops() {
    let mut d = Dispatcher::new();
    let mut f = spawn(&mut d, None);
    let k = f.effect();
    d.apply(Event::RemoveEffect(k));
    f.set(X, "lost".to_string());
    assert_eq!(d.apply(f.commit()), Outcome::Done);
    assert_eq!(d.apply(Event::RunEffect(k)), Outcome::Done);
    assert_eq!(d.store().get(f.id(), X), None);
    assert!(d.store().is_alive(f.id()));
}

#[test]
fn released_child_subtree_is_despawned() {
    let mut d = Dispatcher::new();
    let root = spawn(&mut d, None);
    let child = spawn(&mut d, Some(root.id()));
    let grandchild = spawn(&mut d, Some(child.id()));
    let (c, g) = (child.id(), grandchild.id());
    for ev in child.release() {
        d.enqueue(ev).unwrap();
    }
    d.run();
    assert!(!d.store().is_alive(c));
    assert!(!d.store().is_alive(g));
    assert!(d.store().is_alive(root.id()));
}

#[test]
fn put_keeps_identity_and_replaces_content() {
    let mut d = Dispatcher::new();
    let root = spawn(&mut d, None);
    let mut f = spawn(&mut d, Some(root.id()));
    let inner = spawn(&mut d, Some(f.id()));
    f.set(NAME, "old".to_string());
    f.set(CONTENT, "old content".to_string());
    d.apply(f.commit());
    let id = f.id();
    d.apply(f.clear_event());
    f.set(CONTENT, "new content".to_string());
    d.apply(f.commit());
    assert_eq!(f.id(), id);
    assert!(d.store().is_alive(id));
    assert!(d.store().is_widget(id));
    assert_eq!(d.store().parent(id), Some(root.id()));
    assert_eq!(d.store().get(id, NAME), None);
    assert_eq!(d.store().get(id, CONTENT), Some("new content".to_string()));
    assert!(!d.store().is_alive(inner.id()));
}

#[test]
fn rapid_writes_coalesce_into_one_wake_with_latest_value() {
    let mut d = Dispatcher::new();
    let mut f = spawn(&mut d, None);
    let s = d.new_target().unwrap();
    d.subscribe(vec![TEXT], s);
    assert!(!d.take_wake(s));
    for v in ["a", "b", "c"] {
        f.set(TEXT, v.to_string());
        d.enqueue(f.commit()).unwrap();
    }
    d.run();
    assert!(d.take_wake(s));
    assert_eq!(d.store().get(f.id(), TEXT), Some("c".to_string()));
    assert!(!d.take_wake(s));
}

#[test]
fn unwatched_component_does_not_wake() {
    let mut d = Dispatcher::new();
    let mut f = spawn(&mut d, None);
    let s = d.new_target().unwrap();
    d.subscribe(vec![TEXT], s);
    f.set(NAME, "n".to_string());
    d.apply(f.commit());
    assert!(!d.take_wake(s));
}

#[test]
fn dropped_target_subscription_is_inert() {
    let mut d = Dispatcher::new();
    let mut f = spawn(&mut d, None);
    let s = d.new_target().unwrap();
    d.subscribe(vec![TEXT], s);
    d.drop_target(s);
    f.set(TEXT, "t".to_string());
    d.apply(f.commit());
    assert!(!d.take_wake(s));
}

#[test]
fn application_with_clock_scenario() {
    let mut d = Dispatcher::new();
    let mut root = spawn(&mut d, None);
    root.set(NAME, "Application".to_string());
    d.apply(root.commit());
    let mut clock = spawn(&mut d, Some(root.id()));
    let s = d.new_target().unwrap();
    d.subscribe(vec![CONTENT], s);
    let mut seen: Vec<u64> = Vec::new();
    for elapsed_ms in [0u64, 500, 1000] {
        d.apply(clock.clear_event());
        clock.set(CONTENT, format!("Elapsed: {elapsed_ms}ms"));
        d.apply(clock.commit());
        assert!(d.take_wake(s));
        let text = d.store().get(clock.id(), CONTENT).unwrap();
        let ms: u64 = text
            .trim_start_matches("Elapsed: ")
            .trim_end_matches("ms")
            .parse()
            .unwrap();
        seen.push(ms);
    }
    assert!(seen.len() >= 2);
    assert!(seen.windows(2).all(|w| w[0] < w[1]));
    assert_eq!(d.store().get(root.id(), NAME), Some("Application".to_string()));
    let clock_id = clock.id();
    d.handle_batch(root.release());
    assert!(!d.store().is_alive(clock_id));
}

#[test]
fn direct_wake_is_taken_once() {
    let mut d = Dispatcher::new();
    let s = d.new_target().unwrap();
    d.wake(s);
    d.wake(s);
    assert!(d.take_wake(s));
    assert!(!d.take_wake(s));
    d.drop_target(s);
    d.wake(s);
    assert!(!d.take_wake(s));
}

#[test]
fn stale_despawn_is_a_no_op_and_the_loop_goes_on() {
    let mut d = Dispatcher::new();
    let mut root = spawn(&mut d, None);
    let gone = spawn(&mut d, Some(root.id()));
    let gone_id = gone.id();
    d.handle_batch(gone.release());
    root.set(NAME, "before".to_string());
    d.apply(root.commit());
    root.set(NAME, "after".to_string());
    d.enqueue(Event::Despawn(gone_id)).unwrap();
    d.enqueue(root.commit()).unwrap();
    assert_eq!(d.run(), vec![Outcome::Done, Outcome::Done]);
    assert!(!d.is_closed());
    assert!(d.store().is_alive(root.id()));
    assert_eq!(d.store().get(root.id(), NAME), Some("after".to_string()));
    assert_eq!(d.store().len(), 1);
}

#[test]
fn dropping_a_child_keeps_parent_and_siblings() {
    let mut d = Dispatcher::new();
    let mut root = spawn(&mut d, None);
    root.set(NAME, "root".to_string());
    d.apply(root.commit());
    let mut sibling = spawn(&mut d, Some(root.id()));
    sibling.set(CONTENT, "sibling".to_string());
    d.apply(sibling.commit());
    let child = spawn(&mut d, Some(root.id()));
    assert!(d.store().is_widget(child.id()));
    assert_eq!(d.store().parent(child.id()), Some(root.id()));
    assert_ne!(child.id(), root.id());
    d.handle_batch(child.release());
    assert!(d.store().is_alive(root.id()));
    assert_eq!(d.store().get(root.id(), NAME), Some("root".to_string()));
    assert_eq!(d.store().get(sibling.id(), CONTENT), Some("sibling".to_string()));
    assert_eq!(d.store().children(root.id()), vec![sibling.id()]);
}
