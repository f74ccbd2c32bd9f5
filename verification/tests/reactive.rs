use creamui::reactive::{batch, create_effect, Owner, Runtime, Signal, Tracker};
use std::cell::Cell;
use std::rc::Rc;

type Body = Box<dyn FnMut(&mut Tracker<'_, i32>)>;
type Cleanup = Box<dyn FnOnce()>;
type Rt = Runtime<i32, Body, Cleanup>;

fn counting_reader(signal: Signal, runs: &Rc<Cell<i32>>) -> Body {
    let runs = runs.clone();
    Box::new(move |t: &mut Tracker<'_, i32>| {
        let _ = t.get(signal);
        runs.set(runs.get() + 1);
    })
}

#[test]
fn get_set_roundtrip() {
    let mut rt: Rt = Runtime::new();
    let s = Signal::new(&mut rt, 1);
    assert_eq!(s.get(&rt), 1);
    s.set(&mut rt, 42);
    assert_eq!(s.get(&rt), 42);
}

#[test]
fn effect_runs_immediately_and_on_change() {
    let mut rt: Rt = Runtime::new();
    let s = Signal::new(&mut rt, 0);
    let runs = Rc::new(Cell::new(0));
    let _effect = create_effect(&mut rt, counting_reader(s, &runs));
    assert_eq!(runs.get(), 1);
    s.set(&mut rt, 1);
    assert_eq!(runs.get(), 2);
    s.set(&mut rt, 2);
    assert_eq!(runs.get(), 3);
}

#[test]
fn set_if_changed_skips_notification_when_value_is_equal() {
    let mut rt: Rt = Runtime::new();
    let s = Signal::new(&mut rt, 1);
    let runs = Rc::new(Cell::new(0));
    let _effect = create_effect(&mut rt, counting_reader(s, &runs));
    assert_eq!(runs.get(), 1);

    s.set_if_changed(&mut rt, 1);
    assert_eq!(runs.get(), 1, "an equal value must not trigger a re-run");

    s.set_if_changed(&mut rt, 2);
    assert_eq!(runs.get(), 2, "a changed value must still trigger a re-run");
}

#[test]
fn effect_does_not_run_for_unrelated_signal() {
    let mut rt: Rt = Runtime::new();
    let a = Signal::new(&mut rt, 0);
    let b = Signal::new(&mut rt, 0);
    let runs = Rc::new(Cell::new(0));
    let _effect = create_effect(&mut rt, counting_reader(a, &runs));
    assert_eq!(runs.get(), 1);
    b.set(&mut rt, 99);
    assert_eq!(runs.get(), 1, "unrelated signal must not trigger a re-run");
}

#[test]
fn conditional_effect_unsubscribes_from_the_inactive_branch() {
    let mut rt: Rt = Runtime::new();
    // 1 stands for `true`, 0 for `false`.
    let show_first = Signal::new(&mut rt, 1);
    let first = Signal::new(&mut rt, 0);
    let second = Signal::new(&mut rt, 0);
    let runs = Rc::new(Cell::new(0));
    let observed_runs = runs.clone();
    let _effect = create_effect(
        &mut rt,
        Box::new(move |t: &mut Tracker<'_, i32>| {
            if t.get(show_first) != 0 {
                let _ = t.get(first);
            } else {
                let _ = t.get(second);
            }
            observed_runs.set(observed_runs.get() + 1);
        }) as Body,
    );

    show_first.set(&mut rt, 0);
    assert_eq!(runs.get(), 2);
    first.set(&mut rt, 1);
    assert_eq!(runs.get(), 2, "the hidden branch must no longer invalidate the view");
    second.set(&mut rt, 1);
    assert_eq!(runs.get(), 3);
}

#[test]
fn batch_coalesces_multiple_signal_writes_into_one_effect_run() {
    let mut rt: Rt = Runtime::new();
    let first = Signal::new(&mut rt, 0);
    let second = Signal::new(&mut rt, 0);
    let runs = Rc::new(Cell::new(0));
    let observed_runs = runs.clone();
    let _effect = create_effect(
        &mut rt,
        Box::new(move |t: &mut Tracker<'_, i32>| {
            let _ = (t.get(first), t.get(second));
            observed_runs.set(observed_runs.get() + 1);
        }) as Body,
    );
    batch(&mut rt, |rt: &mut Rt| {
        first.set(rt, 1);
        second.set(rt, 1);
    });
    assert_eq!(runs.get(), 2, "initial render plus one batched update");
}

#[test]
fn peek_does_not_subscribe() {
    let mut rt: Rt = Runtime::new();
    let s = Signal::new(&mut rt, 0);
    let runs = Rc::new(Cell::new(0));
    let runs_clone = runs.clone();
    let _effect = create_effect(
        &mut rt,
        Box::new(move |t: &mut Tracker<'_, i32>| {
            let _ = t.peek(s);
            runs_clone.set(runs_clone.get() + 1);
        }) as Body,
    );
    assert_eq!(runs.get(), 1);
    s.set(&mut rt, 1);
    assert_eq!(runs.get(), 1, "peek must not subscribe the effect");
}

#[test]
fn dropping_effect_stops_updates() {
    let mut rt: Rt = Runtime::new();
    let s = Signal::new(&mut rt, 0);
    let runs = Rc::new(Cell::new(0));
    let effect = create_effect(&mut rt, counting_reader(s, &runs));
    effect.dispose(&mut rt);
    s.set(&mut rt, 1);
    assert_eq!(runs.get(), 1, "dropped effect must not react anymore");
}

#[test]
fn disposing_an_owner_stops_its_effects() {
    let mut rt: Rt = Runtime::new();
    let s = Signal::new(&mut rt, 0);
    let runs = Rc::new(Cell::new(0));
    let owner = Owner::new(&mut rt);
    owner.effect(&mut rt, counting_reader(s, &runs));
    assert_eq!(runs.get(), 1);

    owner.dispose(&mut rt);
    s.set(&mut rt, 1);
    assert_eq!(runs.get(), 1, "a disposed owner's effect must not react anymore");
}

#[test]
fn disposing_a_parent_disposes_children_transitively() {
    let mut rt: Rt = Runtime::new();
    let s = Signal::new(&mut rt, 0);
    let runs = Rc::new(Cell::new(0));
    let parent = Owner::new(&mut rt);
    let child = parent.child(&mut rt);
    child.effect(&mut rt, counting_reader(s, &runs));
    assert_eq!(runs.get(), 1);

    parent.dispose(&mut rt);
    s.set(&mut rt, 1);
    assert_eq!(runs.get(), 1, "disposing the parent must dispose the child's effects too");
}

#[test]
fn dispose_runs_cleanups_exactly_once() {
    let mut rt: Rt = Runtime::new();
    let owner = Owner::new(&mut rt);
    let calls = Rc::new(Cell::new(0));
    let counted = calls.clone();
    owner.on_cleanup(&mut rt, Box::new(move || counted.set(counted.get() + 1)) as Cleanup);

    owner.dispose(&mut rt);
    assert_eq!(calls.get(), 1);
    owner.dispose(&mut rt);
    assert_eq!(calls.get(), 1, "disposing twice must not rerun cleanups");
}

#[test]
fn effect_writes_run_the_effects_they_notify() {
    let mut rt: Rt = Runtime::new();
    let source = Signal::new(&mut rt, 1);
    let doubled = Signal::new(&mut rt, 0);
    let _double = create_effect(
        &mut rt,
        Box::new(move |t: &mut Tracker<'_, i32>| {
            let v = t.get(source);
            t.set(doubled, v * 2);
        }) as Body,
    );
    assert_eq!(doubled.get(&rt), 2);
    source.set(&mut rt, 5);
    assert_eq!(doubled.get(&rt), 10);
}

#[test]
fn nested_batches_flush_only_when_the_outermost_closes() {
    let mut rt: Rt = Runtime::new();
    let s = Signal::new(&mut rt, 0);
    let runs = Rc::new(Cell::new(0));
    let _effect = create_effect(&mut rt, counting_reader(s, &runs));
    let seen = runs.clone();
    batch(&mut rt, |rt: &mut Rt| {
        batch(rt, |rt: &mut Rt| s.set(rt, 1));
        assert_eq!(seen.get(), 1, "the inner batch must not flush");
        s.set(rt, 2);
    });
    assert_eq!(runs.get(), 2);
    assert_eq!(s.get(&rt), 2);
}

#[test]
fn update_mutates_in_place_and_notifies() {
    let mut rt: Rt = Runtime::new();
    let s = Signal::new(&mut rt, 20);
    let runs = Rc::new(Cell::new(0));
    let _effect = create_effect(&mut rt, counting_reader(s, &runs));
    s.update(&mut rt, |v: &mut i32| *v += 1);
    assert_eq!(s.peek(&rt), 21);
    assert_eq!(runs.get(), 2);
}

#[test]
fn disposing_a_child_leaves_the_parent_running() {
    let mut rt: Rt = Runtime::new();
    let s = Signal::new(&mut rt, 0);
    let parent_runs = Rc::new(Cell::new(0));
    let child_runs = Rc::new(Cell::new(0));
    let parent = Owner::new(&mut rt);
    parent.effect(&mut rt, counting_reader(s, &parent_runs));
    let child = parent.child(&mut rt);
    child.effect(&mut rt, counting_reader(s, &child_runs));
    child.dispose(&mut rt);
    s.set(&mut rt, 3);
    assert_eq!(parent_runs.get(), 2);
    assert_eq!(child_runs.get(), 1);
}

#[test]
fn signals_belong_to_their_runtime() {
    let mut rt: Rt = Runtime::new();
    let other: Rt = Runtime::new();
    let s = Signal::new(&mut rt, 7);
    assert!(s.is_in(&rt));
    assert!(!s.is_in(&other));
    let owner = Owner::new(&mut rt);
    assert!(owner.is_in(&rt));
    assert!(!owner.is_in(&other));
}

#[test]
fn disposal_runs_cleanups_children_first_in_creation_order() {
    let mut rt: Rt = Runtime::new();
    let order = Rc::new(std::cell::RefCell::new(Vec::new()));
    let log = |name: &'static str| {
        let order = order.clone();
        Box::new(move || order.borrow_mut().push(name)) as Cleanup
    };
    let root = Owner::new(&mut rt);
    let a = root.child(&mut rt);
    let b = root.child(&mut rt);
    let a1 = a.child(&mut rt);
    root.on_cleanup(&mut rt, log("root"));
    a.on_cleanup(&mut rt, log("a"));
    b.on_cleanup(&mut rt, log("b"));
    a1.on_cleanup(&mut rt, log("a1"));
    a1.on_cleanup(&mut rt, log("a1 again"));

    root.dispose(&mut rt);
    assert_eq!(*order.borrow(), ["a1", "a1 again", "a", "b", "root"]);
}

#[test]
fn an_effect_reads_its_own_writes() {
    let mut rt: Rt = Runtime::new();
    let a = Signal::new(&mut rt, 1);
    let b = Signal::new(&mut rt, 0);
    let seen = Rc::new(Cell::new(0));
    let seen_in = seen.clone();
    let _effect = create_effect(
        &mut rt,
        Box::new(move |t: &mut Tracker<'_, i32>| {
            t.set(a, 7);
            t.set(a, 8);
            seen_in.set(t.peek(a) * 10 + t.peek(b));
        }) as Body,
    );
    assert_eq!(seen.get(), 80);
    assert_eq!(a.get(&rt), 8);
}

#[test]
fn a_write_from_an_effect_runs_its_readers_after_the_current_runs() {
    let mut rt: Rt = Runtime::new();
    let source = Signal::new(&mut rt, 0);
    let derived = Signal::new(&mut rt, 0);
    let order = Rc::new(std::cell::RefCell::new(Vec::new()));
    let copy_order = order.clone();
    let _copy = create_effect(
        &mut rt,
        Box::new(move |t: &mut Tracker<'_, i32>| {
            let v = t.get(source);
            t.set(derived, v * 10);
            copy_order.borrow_mut().push("copy");
        }),
    );
    let read_order = order.clone();
    let seen = Rc::new(Cell::new(0));
    let seen_in = seen.clone();
    let _reader = create_effect(
        &mut rt,
        Box::new(move |t: &mut Tracker<'_, i32>| {
            seen_in.set(t.get(derived));
            read_order.borrow_mut().push("read");
        }),
    );
    order.borrow_mut().clear();
    source.set(&mut rt, 3);
    assert_eq!(derived.get(&rt), 30);
    assert_eq!(seen.get(), 30);
    assert_eq!(*order.borrow(), vec!["copy", "read"]);
}

#[test]
fn each_subscriber_runs_once_per_write() {
    let mut rt: Rt = Runtime::new();
    let s = Signal::new(&mut rt, 0);
    let a = Rc::new(Cell::new(0));
    let b = Rc::new(Cell::new(0));
    let _ea = create_effect(&mut rt, counting_reader(s, &a));
    let _eb = create_effect(&mut rt, counting_reader(s, &b));
    s.set(&mut rt, 1);
    s.set(&mut rt, 2);
    assert_eq!((a.get(), b.get()), (3, 3));
}

#[test]
fn a_disposed_owner_effect_never_runs_again() {
    let mut rt: Rt = Runtime::new();
    let s = Signal::new(&mut rt, 0);
    let runs = Rc::new(Cell::new(0));
    let owner = Owner::new(&mut rt);
    owner.effect(&mut rt, counting_reader(s, &runs));
    owner.dispose(&mut rt);
    batch(&mut rt, |rt: &mut Rt| s.set(rt, 1));
    s.set(&mut rt, 2);
    assert_eq!(runs.get(), 1);
}
