use std::cell::RefCell;
use std::rc::Rc;

use cuite_reactive::create_effect;
use cuite_reactive::create_signal;
use cuite_reactive::node::Computation;
use cuite_reactive::node::NodeId;
use cuite_reactive::runtime::Runtime;
use cuite_reactive::Signal;
use cuite_reactive::Value;

type ComputeFn = dyn Fn(&mut Runtime<TestComputation>, Option<Value>) -> (Value, bool);

/// A computation backed by a shared closure, the way an application embeds
/// arbitrary code in an effect.
#[derive(Clone)]
struct TestComputation {
    func: Rc<ComputeFn>,
}

impl Computation for TestComputation {
    fn run(&self, runtime: &mut Runtime<TestComputation>, prev: Option<Value>) -> (Value, bool) {
        (self.func)(runtime, prev)
    }
}

fn computation(
    f: impl Fn(&mut Runtime<TestComputation>, Option<Value>) -> (Value, bool) + 'static,
) -> TestComputation {
    TestComputation { func: Rc::new(f) }
}

fn int_of(v: Option<Value>) -> i64 {
    match v {
        Some(Value::Int(i)) => i,
        _ => panic!("expected an integer value"),
    }
}

#[test]
fn simple_effect() {
    let ops: Rc<RefCell<Vec<i32>>> = Default::default();

    {
        let mut rt: Runtime<TestComputation> = Runtime::new();
        let signal = create_signal(&mut rt, 0);

        let ops_copy = ops.clone();
        create_effect(
            &mut rt,
            computation(move |rt, _| {
                ops_copy.borrow_mut().push(signal.get(rt));
                (Value::Unit, true)
            }),
        );

        signal.set(&mut rt, 1);
        signal.set(&mut rt, 2);
    }

    assert_eq!(ops.borrow().as_slice(), &[0, 1, 2]);
}

#[test]
fn update_if_necessary_is_idempotent() {
    let mut rt: Runtime<TestComputation> = Runtime::new();
    let runs: Rc<RefCell<i32>> = Default::default();
    let runs_copy = runs.clone();
    let id = rt.create_effect(
        None,
        computation(move |_, _| {
            *runs_copy.borrow_mut() += 1;
            (Value::Unit, true)
        }),
    );
    rt.update_if_necessary(id);
    assert_eq!(*runs.borrow(), 1);
    rt.update_if_necessary(id);
    rt.update_if_necessary(id);
    assert_eq!(*runs.borrow(), 1);
}

#[test]
fn chain_runs_source_before_dependent() {
    let mut rt: Runtime<TestComputation> = Runtime::new();
    let a = create_signal(&mut rt, 0i32);
    let b_out = create_signal(&mut rt, 0i32);
    let order: Rc<RefCell<Vec<&'static str>>> = Default::default();
    let seen: Rc<RefCell<Vec<i32>>> = Default::default();

    let order_b = order.clone();
    create_effect(
        &mut rt,
        computation(move |rt, _| {
            order_b.borrow_mut().push("b");
            let v = a.get(rt);
            b_out.set(rt, v + 1);
            (Value::Unit, true)
        }),
    );
    let order_c = order.clone();
    let seen_c = seen.clone();
    create_effect(
        &mut rt,
        computation(move |rt, _| {
            let v = b_out.get(rt);
            seen_c.borrow_mut().push(v);
            order_c.borrow_mut().push("c");
            (Value::Unit, true)
        }),
    );
    assert_eq!(order.borrow().as_slice(), &["b", "c"]);
    assert_eq!(seen.borrow().as_slice(), &[1]);

    a.set(&mut rt, 5);
    // b ran exactly once more, then c exactly once, seeing b's new output
    assert_eq!(order.borrow().as_slice(), &["b", "c", "b", "c"]);
    assert_eq!(seen.borrow().as_slice(), &[1, 6]);
}

#[test]
fn diamond_runs_join_effect_once() {
    let mut rt: Runtime<TestComputation> = Runtime::new();
    let s = rt.create_signal(Value::Int(1));
    let e1_runs: Rc<RefCell<i32>> = Default::default();
    let e2_runs: Rc<RefCell<i32>> = Default::default();
    let e3_runs: Rc<RefCell<i32>> = Default::default();

    let e1_runs_c = e1_runs.clone();
    let e1 = rt.create_effect(
        None,
        computation(move |rt, _| {
            *e1_runs_c.borrow_mut() += 1;
            rt.track(s);
            let v = int_of(rt.get_node_value(s));
            (Value::Int(v * 10), true)
        }),
    );
    rt.update_if_necessary(e1);

    let e2_runs_c = e2_runs.clone();
    let e2 = rt.create_effect(
        None,
        computation(move |rt, _| {
            *e2_runs_c.borrow_mut() += 1;
            rt.track(s);
            let v = int_of(rt.get_node_value(s));
            (Value::Int(v * 100), true)
        }),
    );
    rt.update_if_necessary(e2);

    let e3_runs_c = e3_runs.clone();
    let e3 = rt.create_effect(
        None,
        computation(move |rt, _| {
            *e3_runs_c.borrow_mut() += 1;
            rt.track(e1);
            rt.update_if_necessary(e1);
            let v1 = int_of(rt.get_node_value(e1));
            rt.track(e2);
            rt.update_if_necessary(e2);
            let v2 = int_of(rt.get_node_value(e2));
            (Value::Int(v1 + v2), true)
        }),
    );
    rt.update_if_necessary(e3);

    assert_eq!(*e1_runs.borrow(), 1);
    assert_eq!(*e2_runs.borrow(), 1);
    assert_eq!(*e3_runs.borrow(), 1);
    assert_eq!(int_of(rt.get_node_value(e3)), 110);

    rt.replace_node_value(s, Value::Int(2));
    rt.mark_descendants_dirty(s);
    rt.run_effects();

    assert_eq!(*e1_runs.borrow(), 2);
    assert_eq!(*e2_runs.borrow(), 2);
    assert_eq!(*e3_runs.borrow(), 2);
    assert_eq!(int_of(rt.get_node_value(e3)), 220);
}

#[test]
fn untracked_read_never_subscribes() {
    let mut rt: Runtime<TestComputation> = Runtime::new();
    let x = create_signal(&mut rt, 0i32);
    let runs: Rc<RefCell<i32>> = Default::default();
    let seen: Rc<RefCell<Vec<i32>>> = Default::default();

    let runs_c = runs.clone();
    let seen_c = seen.clone();
    create_effect(
        &mut rt,
        computation(move |rt, _| {
            *runs_c.borrow_mut() += 1;
            seen_c.borrow_mut().push(x.get_untracked(rt));
            (Value::Unit, true)
        }),
    );
    assert_eq!(*runs.borrow(), 1);
    assert_eq!(seen.borrow().as_slice(), &[0]);

    x.set(&mut rt, 5);
    x.set(&mut rt, 6);
    assert_eq!(*runs.borrow(), 1);
    assert_eq!(x.get_untracked(&rt), 6);
}

#[test]
fn rerun_disposes_nested_nodes() {
    let mut rt: Runtime<TestComputation> = Runtime::new();
    let t = create_signal(&mut rt, 0i32);
    let retrigger = create_signal(&mut rt, 0i32);
    let log: Rc<RefCell<Vec<i32>>> = Default::default();
    let inner: Rc<RefCell<Option<Signal<i32>>>> = Default::default();
    let created: Rc<RefCell<bool>> = Default::default();

    let log_a = log.clone();
    let inner_a = inner.clone();
    let created_a = created.clone();
    create_effect(
        &mut rt,
        computation(move |rt, _| {
            let _ = retrigger.get(rt);
            let first = !*created_a.borrow();
            if first {
                *created_a.borrow_mut() = true;
                let u = create_signal(rt, 7i32);
                *inner_a.borrow_mut() = Some(u);
                let log_b = log_a.clone();
                create_effect(
                    rt,
                    computation(move |rt, _| {
                        log_b.borrow_mut().push(t.get(rt));
                        (Value::Unit, true)
                    }),
                );
            }
            (Value::Unit, true)
        }),
    );
    // the nested effect ran once at creation
    assert_eq!(log.borrow().as_slice(), &[0]);
    let u = inner.borrow().unwrap();
    assert_eq!(u.get_untracked(&rt), 7);

    // the nested effect reacts while its owner has not re-run
    t.set(&mut rt, 1);
    assert_eq!(log.borrow().as_slice(), &[0, 1]);

    // re-running the owner disposes the nodes its previous run created
    retrigger.set(&mut rt, 1);
    assert_eq!(u.set(&mut rt, 8), None);
    assert_eq!(u.set_untracked(&mut rt, 8), None);

    // the disposed nested effect is no longer registered anywhere
    t.set(&mut rt, 2);
    assert_eq!(log.borrow().as_slice(), &[0, 1]);
}

#[test]
fn set_returns_previous_value() {
    let mut rt: Runtime<TestComputation> = Runtime::new();
    let s = create_signal(&mut rt, 3i32);
    assert_eq!(s.set(&mut rt, 4), Some(3));
    assert_eq!(s.set(&mut rt, 9), Some(4));
    assert_eq!(s.get_untracked(&rt), 9);
    assert_eq!(s.set_untracked(&mut rt, 11), Some(9));
    assert_eq!(s.get_untracked(&rt), 11);
}

#[test]
fn update_applies_closure_and_propagates() {
    let mut rt: Runtime<TestComputation> = Runtime::new();
    let s = create_signal(&mut rt, 10i32);
    let seen: Rc<RefCell<Vec<i32>>> = Default::default();
    let seen_c = seen.clone();
    create_effect(
        &mut rt,
        computation(move |rt, _| {
            seen_c.borrow_mut().push(s.get(rt));
            (Value::Unit, true)
        }),
    );
    let doubled = s.update(&mut rt, |v| (v * 2, v));
    assert_eq!(doubled, Some(10));
    assert_eq!(seen.borrow().as_slice(), &[10, 20]);

    let silent = s.update_untracked(&mut rt, |v| (v + 1, v));
    assert_eq!(silent, Some(20));
    assert_eq!(s.get_untracked(&rt), 21);
    // update_untracked propagated nothing
    assert_eq!(seen.borrow().as_slice(), &[10, 20]);
}

#[test]
fn set_untracked_does_not_propagate() {
    let mut rt: Runtime<TestComputation> = Runtime::new();
    let s = create_signal(&mut rt, 0i32);
    let runs: Rc<RefCell<i32>> = Default::default();
    let runs_c = runs.clone();
    create_effect(
        &mut rt,
        computation(move |rt, _| {
            let _ = s.get(rt);
            *runs_c.borrow_mut() += 1;
            (Value::Unit, true)
        }),
    );
    assert_eq!(*runs.borrow(), 1);
    s.set_untracked(&mut rt, 5);
    assert_eq!(*runs.borrow(), 1);
    // the write is visible even though nothing re-ran
    assert_eq!(s.get_untracked(&rt), 5);
    // a propagating write afterwards still works
    s.set(&mut rt, 6);
    assert_eq!(*runs.borrow(), 2);
}

#[test]
fn with_reads_by_reference() {
    let mut rt: Runtime<TestComputation> = Runtime::new();
    let s = create_signal(&mut rt, 21i32);
    let doubled = s.with(&mut rt, |v| v * 2);
    assert_eq!(doubled, 42);
    let tripled = s.with_untracked(&rt, |v| v * 3);
    assert_eq!(tripled, 63);
}

#[test]
fn signals_hold_each_value_kind() {
    let mut rt: Runtime<TestComputation> = Runtime::new();
    let b = create_signal(&mut rt, true);
    let wide = create_signal(&mut rt, 1i64 << 40);
    let unit = create_signal(&mut rt, ());
    assert_eq!(b.get_untracked(&rt), true);
    assert_eq!(b.set(&mut rt, false), Some(true));
    assert_eq!(wide.get_untracked(&rt), 1i64 << 40);
    assert_eq!(unit.get_untracked(&rt), ());
    assert_eq!(cuite_reactive::wrap_value(3i32), Value::Int(3));
    assert_eq!(cuite_reactive::wrap_value(true), Value::Bool(true));
    assert_eq!(cuite_reactive::wrap_value(()), Value::Unit);

    let extremes = create_signal(&mut rt, i32::MAX);
    assert_eq!(extremes.get_untracked(&rt), i32::MAX);
    assert_eq!(extremes.set(&mut rt, i32::MIN), Some(i32::MAX));
    assert_eq!(extremes.get_untracked(&rt), i32::MIN);
    let wide_min = create_signal(&mut rt, i64::MIN);
    assert_eq!(wide_min.get_untracked(&rt), i64::MIN);
}

#[test]
fn dirty_subscriber_is_picked_up_by_next_pass() {
    let mut rt: Runtime<TestComputation> = Runtime::new();
    let s = rt.create_signal(Value::Int(1));
    let f = rt.create_effect(
        None,
        computation(move |rt, _| {
            rt.track(s);
            let v = int_of(rt.get_node_value(s));
            (Value::Int(v * 10), true)
        }),
    );
    rt.update_if_necessary(f);

    // begin a pass, then subscribe a new effect to f after the marking
    rt.replace_node_value(s, Value::Int(2));
    rt.mark_descendants_dirty(s);
    let e_runs: Rc<RefCell<i32>> = Default::default();
    let e_runs_c = e_runs.clone();
    let e = rt.create_effect(
        None,
        computation(move |rt, _| {
            *e_runs_c.borrow_mut() += 1;
            rt.track(f);
            (Value::Int(int_of(rt.get_node_value(f))), true)
        }),
    );
    rt.update_if_necessary(e);
    assert_eq!(*e_runs.borrow(), 1);
    assert_eq!(int_of(rt.get_node_value(e)), 10);

    // the flush re-runs f; its change escalates e straight to dirty
    // without queueing it, so e ends the flush dirty and unqueued
    rt.run_effects();
    assert_eq!(*e_runs.borrow(), 1);
    assert_eq!(int_of(rt.get_node_value(e)), 10);

    // the next pass must visit the dirty subscriber and queue it
    rt.replace_node_value(s, Value::Int(3));
    rt.mark_descendants_dirty(s);
    rt.run_effects();
    assert_eq!(*e_runs.borrow(), 2);
    assert_eq!(int_of(rt.get_node_value(e)), 30);
}

#[test]
fn stale_handle_reads_degrade_to_absent() {
    let mut rt: Runtime<TestComputation> = Runtime::new();
    let retrigger = create_signal(&mut rt, 0i32);
    let inner: Rc<RefCell<Option<Signal<i32>>>> = Default::default();
    let created: Rc<RefCell<bool>> = Default::default();

    let inner_a = inner.clone();
    let created_a = created.clone();
    create_effect(
        &mut rt,
        computation(move |rt, _| {
            let _ = retrigger.get(rt);
            let first = !*created_a.borrow();
            if first {
                *created_a.borrow_mut() = true;
                *inner_a.borrow_mut() = Some(create_signal(rt, 42i32));
            }
            (Value::Unit, true)
        }),
    );
    let u = inner.borrow().unwrap();
    assert_eq!(u.try_get(&mut rt), Some(42));
    assert_eq!(u.try_get_untracked(&rt), Some(42));
    assert_eq!(u.try_with(&mut rt, |v| v + 1), Some(43));
    assert_eq!(u.try_with_untracked(&rt, |v| v + 1), Some(43));
    // the owner's re-run disposes the nested signal; reads degrade to absent
    retrigger.set(&mut rt, 1);
    assert_eq!(u.try_get(&mut rt), None);
    assert_eq!(u.try_get_untracked(&rt), None);
    assert_eq!(u.try_with(&mut rt, |v| v + 1), None);
    assert_eq!(u.try_with_untracked(&rt, |v| v + 1), None);
}

#[test]
fn unwatched_set_stores_and_triggers_nothing() {
    let mut rt: Runtime<TestComputation> = Runtime::new();
    let watched = create_signal(&mut rt, 0i32);
    let unwatched = create_signal(&mut rt, 10i32);
    let runs: Rc<RefCell<i32>> = Default::default();
    let runs_c = runs.clone();
    create_effect(
        &mut rt,
        computation(move |rt, _| {
            let _ = watched.get(rt);
            *runs_c.borrow_mut() += 1;
            (Value::Unit, true)
        }),
    );
    assert_eq!(*runs.borrow(), 1);
    // nothing subscribes to `unwatched`: the write lands, nothing runs
    assert_eq!(unwatched.set(&mut rt, 11), Some(10));
    assert_eq!(unwatched.get_untracked(&rt), 11);
    assert_eq!(*runs.borrow(), 1);
    // and a later write keeps working the same way
    assert_eq!(unwatched.set(&mut rt, 12), Some(11));
    assert_eq!(unwatched.get_untracked(&rt), 12);
    assert_eq!(*runs.borrow(), 1);
    // a quiet read-modify-write behaves the same way
    assert_eq!(unwatched.update(&mut rt, |v| (v * 2, v)), Some(12));
    assert_eq!(unwatched.get_untracked(&rt), 24);
    assert_eq!(*runs.borrow(), 1);
    // the watched signal still propagates
    watched.set(&mut rt, 1);
    assert_eq!(*runs.borrow(), 2);
}

#[test]
fn signals_hold_text() {
    let mut rt: Runtime<TestComputation> = Runtime::new();
    let s = create_signal(&mut rt, String::from("first"));
    assert_eq!(s.get_untracked(&rt), "first");
    assert_eq!(s.set(&mut rt, String::from("second")), Some(String::from("first")));
    assert_eq!(s.get_untracked(&rt), "second");
    assert_eq!(
        cuite_reactive::wrap_value(String::from("tag")),
        Value::Text(String::from("tag"))
    );
}

#[test]
fn stale_ids_read_as_absent() {
    let mut rt: Runtime<TestComputation> = Runtime::new();
    let s = rt.create_signal(Value::Int(1));
    assert!(rt.is_live(s));
    assert_eq!(rt.get_node_value(s), Some(Value::Int(1)));
    let unknown = NodeId { idx: 100 };
    assert!(!rt.is_live(unknown));
    assert_eq!(rt.get_node_value(unknown), None);
    assert_eq!(rt.replace_node_value(unknown, Value::Int(5)), None);
    // marking or flushing through an unknown id is a no-op
    rt.mark_descendants_dirty(unknown);
    rt.update_if_necessary(unknown);
    assert_eq!(rt.get_node_value(s), Some(Value::Int(1)));
}
