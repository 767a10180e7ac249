use luna::signals::{
    create_effect, create_memo, create_signal, derive_again, init_reactivity, run_pending,
    EffectId, NodeId, Runtime,
    ScopedNodeContext, Subscriber,
};

#[test]
fn a_signal_holds_what_was_written_last() {
    let mut rt: Runtime<String> = Runtime::new();
    let (read, write) = create_signal(&mut rt, "one".to_string());
    assert_eq!(read.get(&mut rt), "one");
    let pending = write.set(&mut rt, "two".to_string());
    assert!(pending.is_empty());
    assert_eq!(read.get(&mut rt), "two");
    let pending = write.update(&mut rt, |v| v.push_str(" and a half"));
    assert!(pending.is_empty());
    assert_eq!(read.get(&mut rt), "two and a half");
}

#[test]
fn signals_are_independent() {
    let mut rt: Runtime<i32> = Runtime::new();
    let (a, wa) = create_signal(&mut rt, 1);
    let (b, _wb) = create_signal(&mut rt, 2);
    wa.set(&mut rt, 10);
    assert_eq!(a.get(&mut rt), 10);
    assert_eq!(b.get(&mut rt), 2);
}

#[test]
fn node_ids_are_consecutive_and_distinct() {
    let mut rt: Runtime<i32> = Runtime::new();
    let a = NodeId::new(&mut rt);
    let b = NodeId::new(&mut rt);
    let c = NodeId::new(&mut rt);
    assert_eq!((a.raw(), b.raw(), c.raw()), (0, 1, 2));
    assert_ne!(a, b);
    assert_ne!(b, c);
    let e = EffectId::new(&mut rt);
    let f = EffectId::new(&mut rt);
    assert_eq!((e.raw(), f.raw()), (0, 1));
}

#[test]
fn a_write_without_subscribers_notifies_nobody() {
    let mut rt: Runtime<i32> = Runtime::new();
    init_reactivity(&mut rt);
    let (_read, write) = create_signal(&mut rt, 1);
    assert!(write.set(&mut rt, 2).is_empty());
    assert!(rt.drain_dirty().is_empty());
}

#[test]
fn a_read_outside_any_scope_subscribes_nobody() {
    let mut rt: Runtime<i32> = Runtime::new();
    init_reactivity(&mut rt);
    let (read, write) = create_signal(&mut rt, 1);
    assert_eq!(read.get(&mut rt), 1);
    assert!(write.set(&mut rt, 2).is_empty());
    assert!(rt.drain_dirty().is_empty());
}

#[test]
fn a_node_that_reads_twice_is_notified_once() {
    let mut rt: Runtime<i32> = Runtime::new();
    init_reactivity(&mut rt);
    let (read, write) = create_signal(&mut rt, 1);
    let node = NodeId::new(&mut rt);
    let scope = ScopedNodeContext::new(&mut rt, node);
    read.get(&mut rt);
    read.get(&mut rt);
    scope.exit(&mut rt);
    write.set(&mut rt, 2);
    assert_eq!(rt.drain_dirty(), vec![node]);
    // the subscription lasts
    write.set(&mut rt, 3);
    assert_eq!(rt.drain_dirty(), vec![node]);
}

#[test]
fn a_write_reaches_every_node_and_every_effect_once() {
    let mut rt: Runtime<i32> = Runtime::new();
    init_reactivity(&mut rt);
    let (read, write) = create_signal(&mut rt, 1);
    let n1 = NodeId::new(&mut rt);
    let n2 = NodeId::new(&mut rt);
    let n3 = NodeId::new(&mut rt);

    let e1 = create_effect(&mut rt);
    read.get(&mut rt);
    rt.end_effect();

    for node in [n1, n2, n3] {
        let scope = ScopedNodeContext::new(&mut rt, node);
        read.get(&mut rt);
        read.get(&mut rt);
        scope.exit(&mut rt);
    }

    let e2 = create_effect(&mut rt);
    read.get(&mut rt);
    read.get(&mut rt);
    rt.end_effect();

    let pending = write.set(&mut rt, 2);
    assert_eq!(pending, vec![e1, e2]);
    assert_eq!(rt.drain_dirty(), vec![n1, n2, n3]);
    assert!(rt.drain_dirty().is_empty());
}

#[test]
fn notifications_are_dropped_until_the_queue_is_open() {
    let mut rt: Runtime<i32> = Runtime::new();
    let (read, write) = create_signal(&mut rt, 1);
    let node = NodeId::new(&mut rt);
    let scope = ScopedNodeContext::new(&mut rt, node);
    read.get(&mut rt);
    scope.exit(&mut rt);
    write.set(&mut rt, 2);
    assert!(rt.drain_dirty().is_empty());
    init_reactivity(&mut rt);
    write.set(&mut rt, 3);
    assert_eq!(rt.drain_dirty(), vec![node]);
}

#[test]
fn opening_the_queue_again_empties_it() {
    let mut rt: Runtime<i32> = Runtime::new();
    init_reactivity(&mut rt);
    let (read, write) = create_signal(&mut rt, 1);
    let node = NodeId::new(&mut rt);
    let scope = ScopedNodeContext::new(&mut rt, node);
    read.get(&mut rt);
    scope.exit(&mut rt);
    write.set(&mut rt, 2);
    init_reactivity(&mut rt);
    assert!(rt.drain_dirty().is_empty());
}

#[test]
fn scopes_nest_and_the_innermost_subscribes() {
    let mut rt: Runtime<i32> = Runtime::new();
    init_reactivity(&mut rt);
    let (a, wa) = create_signal(&mut rt, 1);
    let (b, wb) = create_signal(&mut rt, 1);
    let outer = NodeId::new(&mut rt);
    let inner = NodeId::new(&mut rt);
    let s1 = ScopedNodeContext::new(&mut rt, outer);
    let s2 = ScopedNodeContext::new(&mut rt, inner);
    a.get(&mut rt);
    s2.exit(&mut rt);
    b.get(&mut rt);
    s1.exit(&mut rt);
    wa.set(&mut rt, 2);
    assert_eq!(rt.drain_dirty(), vec![inner]);
    wb.set(&mut rt, 2);
    assert_eq!(rt.drain_dirty(), vec![outer]);
}

#[test]
fn leaving_without_a_scope_changes_nothing() {
    let mut rt: Runtime<i32> = Runtime::new();
    rt.leave();
    rt.end_effect();
    let (read, write) = create_signal(&mut rt, 1);
    read.get(&mut rt);
    assert!(write.set(&mut rt, 2).is_empty());
}

#[test]
fn an_effect_subscribes_during_its_run_only() {
    let mut rt: Runtime<i32> = Runtime::new();
    let (a, wa) = create_signal(&mut rt, 1);
    let (b, wb) = create_signal(&mut rt, 1);
    let effect = create_effect(&mut rt);
    a.get(&mut rt);
    rt.end_effect();
    b.get(&mut rt);
    assert_eq!(wa.set(&mut rt, 2), vec![effect]);
    assert!(wb.set(&mut rt, 2).is_empty());
    // a later run subscribes to what it reads then
    rt.begin_effect(effect);
    b.get(&mut rt);
    rt.end_effect();
    assert_eq!(wb.set(&mut rt, 3), vec![effect]);
}

#[test]
fn a_memo_is_a_signal_kept_by_an_effect() {
    let mut rt: Runtime<i32> = Runtime::new();
    let (source, write_source) = create_signal(&mut rt, 2);
    let (memo, write_memo, effect) =
        create_memo(&mut rt, |rt: &mut Runtime<i32>| source.get(rt) * 10);
    assert_eq!(memo.get(&mut rt), 20);

    let pending = write_source.set(&mut rt, 5);
    assert_eq!(pending, vec![effect]);
    rt.begin_effect(effect);
    let derived = source.get(&mut rt) * 10;
    write_memo.set(&mut rt, derived);
    rt.end_effect();
    assert_eq!(memo.get(&mut rt), 50);
}

#[test]
fn notify_alone_leaves_the_value() {
    let mut rt: Runtime<i32> = Runtime::new();
    init_reactivity(&mut rt);
    let (read, write) = create_signal(&mut rt, 7);
    let node = NodeId::new(&mut rt);
    let scope = ScopedNodeContext::new(&mut rt, node);
    read.get(&mut rt);
    scope.exit(&mut rt);
    assert!(write.notify_subscribers(&mut rt).is_empty());
    assert_eq!(rt.drain_dirty(), vec![node]);
    assert_eq!(read.get(&mut rt), 7);
}

#[test]
fn subscribers_compare_by_kind_and_number() {
    let mut rt: Runtime<i32> = Runtime::new();
    let n = NodeId::new(&mut rt);
    let e = EffectId::new(&mut rt);
    assert_eq!(n.raw(), e.raw());
    assert_ne!(Subscriber::Node(n), Subscriber::Effect(e));
    assert_eq!(Subscriber::Node(n), Subscriber::Node(n));
}

#[test]
fn a_memo_derives_its_first_value_once_as_the_running_effect() {
    let mut rt: Runtime<i32> = Runtime::new();
    let (source, write_source) = create_signal(&mut rt, 4);
    let mut calls = 0;
    let (memo, _write_memo, effect) = create_memo(&mut rt, |rt: &mut Runtime<i32>| {
        calls += 1;
        source.get(rt) + 1
    });
    assert_eq!(calls, 1);
    assert_eq!(memo.get(&mut rt), 5);
    // the read inside the first run subscribed the effect, and the run is over
    assert_eq!(write_source.notify_subscribers(&mut rt), vec![effect]);
    let (other, write_other) = create_signal(&mut rt, 0);
    other.get(&mut rt);
    assert!(write_other.notify_subscribers(&mut rt).is_empty());
}

#[test]
fn pending_effects_run_once_each_in_their_order_as_the_running_subscriber() {
    let mut rt: Runtime<i32> = Runtime::new();
    let (read, write) = create_signal(&mut rt, 1);
    let first = EffectId::new(&mut rt);
    let second = EffectId::new(&mut rt);
    let ran: std::cell::RefCell<Vec<u64>> = std::cell::RefCell::new(Vec::new());
    run_pending(&mut rt, &vec![second, first], &|rt: &mut Runtime<i32>, id: EffectId| {
        ran.borrow_mut().push(id.raw());
        read.get(rt);
    });
    assert_eq!(*ran.borrow(), vec![second.raw(), first.raw()]);
    // each read subscribed the effect that was running
    assert_eq!(write.set(&mut rt, 2), vec![second, first]);
    // and no run is left open
    let (other, write_other) = create_signal(&mut rt, 0);
    other.get(&mut rt);
    assert!(write_other.set(&mut rt, 1).is_empty());
    run_pending(&mut rt, &vec![], &|_rt: &mut Runtime<i32>, _id: EffectId| {
        ran.borrow_mut().push(0);
    });
    assert_eq!(ran.borrow().len(), 2);
}

#[test]
fn a_memo_follows_its_source_when_its_effect_runs_again() {
    let mut rt: Runtime<i32> = Runtime::new();
    let (source, write_source) = create_signal(&mut rt, 2);
    let derive = |rt: &mut Runtime<i32>| source.get(rt) * 10;
    let (memo, write_memo, effect) = create_memo(&mut rt, derive);
    assert_eq!(memo.get(&mut rt), 20);
    let pending = write_source.set(&mut rt, 7);
    assert_eq!(pending, vec![effect]);
    run_pending(&mut rt, &pending, &|rt: &mut Runtime<i32>, _id: EffectId| {
        assert_eq!(derive_again(rt, write_memo, &derive), Some(vec![]));
    });
    assert_eq!(memo.get(&mut rt), 70);
}

#[test]
fn a_memo_of_another_runtime_is_not_written() {
    let mut big: Runtime<i32> = Runtime::new();
    create_signal(&mut big, 0);
    let (_, stranger) = create_signal(&mut big, 0);
    let mut rt: Runtime<i32> = Runtime::new();
    let (read, _write) = create_signal(&mut rt, 3);
    assert_eq!(derive_again(&mut rt, stranger, &|rt: &mut Runtime<i32>| read.get(rt)), None);
    assert_eq!(read.get(&mut rt), 3);
}
