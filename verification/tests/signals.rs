use flexui::signals::{
    create_effect, create_memo, create_root, create_signal, on_cleanup, reset_runtime, HostRef,
    Runtime,
};
use std::cell::RefCell;
use std::rc::Rc;

#[test]
fn test_basic_signal() {
    let mut rt = Runtime::new();
    let (count, set_count) = create_signal(&mut rt, 0i32);
    assert_eq!(count.get(&mut rt), 0);

    set_count.set(&mut rt, 5);
    assert_eq!(count.get(&mut rt), 5);
}

#[test]
fn test_effect() {
    let mut rt = Runtime::new();
    let (count, set_count) = create_signal(&mut rt, 0i32);
    let result = Rc::new(RefCell::new(0));
    let result_clone = result.clone();

    create_effect(&mut rt, move |h: HostRef<'_>| {
        *result_clone.borrow_mut() = count.get(h.host) * 2;
    });

    assert_eq!(*result.borrow(), 0);
    set_count.set(&mut rt, 10);
    assert_eq!(*result.borrow(), 20);
}

#[test]
fn test_stale_subscription_leak() {
    let mut rt = Runtime::new();
    let (read_cond, write_cond) = create_signal(&mut rt, true);
    let (read_a, write_a) = create_signal(&mut rt, 1i32);
    let (read_b, write_b) = create_signal(&mut rt, 10i32);

    let call_count = Rc::new(RefCell::new(0));
    let cc = call_count.clone();

    create_effect(&mut rt, move |h: HostRef<'_>| {
        *cc.borrow_mut() += 1;
        if read_cond.get(&mut *h.host) {
            read_a.get(&mut *h.host);
        } else {
            read_b.get(&mut *h.host);
        }
    });

    assert_eq!(*call_count.borrow(), 1);

    // Writing A re-runs the effect.
    write_a.set(&mut rt, 2i32);
    assert_eq!(*call_count.borrow(), 2);

    // Switching the condition re-runs it.
    write_cond.set(&mut rt, false);
    assert_eq!(*call_count.borrow(), 3);

    // A is no longer read, so writing it does nothing.
    write_a.set(&mut rt, 3i32);
    assert_eq!(*call_count.borrow(), 3);

    // B is read now.
    write_b.set(&mut rt, 11i32);
    assert_eq!(*call_count.borrow(), 4);
}

#[test]
fn test_subscriber_cleanup() {
    let mut rt = Runtime::new();
    reset_runtime(&mut rt);
    let (read_a, _write_a) = create_signal(&mut rt, 1i32);

    assert_eq!(rt.subscriber_count(), 0);

    let scope = create_root(&mut rt, |rt: &mut Runtime, s| {
        create_effect(rt, move |h: HostRef<'_>| {
            read_a.get(h.host);
        });
        s
    });

    assert_eq!(rt.subscriber_count(), 1);

    scope.dispose(&mut rt);

    assert_eq!(
        rt.subscriber_count(),
        0,
        "Subscribers map should be empty after scope disposal"
    );
}

#[test]
fn set_same_value_still_notifies() {
    let mut rt = Runtime::new();
    let (count, set_count) = create_signal(&mut rt, 3u32);
    let runs = Rc::new(RefCell::new(0));
    let r = runs.clone();
    create_effect(&mut rt, move |h: HostRef<'_>| {
        count.get(h.host);
        *r.borrow_mut() += 1;
    });
    set_count.set(&mut rt, 3);
    assert_eq!(*runs.borrow(), 2);
}

#[test]
fn update_applies_function() {
    let mut rt = Runtime::new();
    let (count, set_count) = create_signal(&mut rt, 7i64);
    set_count.update(&mut rt, |v: &i64| *v * 3);
    assert_eq!(count.get(&mut rt), 21);
}

#[test]
fn string_signal_round_trip() {
    let mut rt = Runtime::new();
    let (name, set_name) = create_signal(&mut rt, "a".to_string());
    set_name.set(&mut rt, "hello".to_string());
    assert_eq!(name.get(&mut rt), "hello");
}

#[test]
fn memo_follows_its_source() {
    let mut rt = Runtime::new();
    let (count, set_count) = create_signal(&mut rt, 2i32);
    let doubled = create_memo(&mut rt, move |h: HostRef<'_>| count.get(h.host) * 2).unwrap();
    assert_eq!(doubled.get(&mut rt), 4);
    set_count.set(&mut rt, 21);
    assert_eq!(doubled.get(&mut rt), 42);
}

#[test]
fn dispose_runs_cleanups_once() {
    let mut rt = Runtime::new();
    let ran = Rc::new(RefCell::new(0));
    let r = ran.clone();
    let scope = create_root(&mut rt, move |rt: &mut Runtime, s| {
        on_cleanup(rt, move || {
            *r.borrow_mut() += 1;
        });
        s
    });
    assert_eq!(*ran.borrow(), 0);
    let again = flexui::signals::Scope { id: scope.id };
    scope.dispose(&mut rt);
    assert_eq!(*ran.borrow(), 1);
    again.dispose(&mut rt);
    assert_eq!(*ran.borrow(), 1);
}

#[test]
fn disposed_effect_stops_running() {
    let mut rt = Runtime::new();
    let (count, set_count) = create_signal(&mut rt, 0i32);
    let runs = Rc::new(RefCell::new(0));
    let r = runs.clone();
    let scope = create_root(&mut rt, move |rt: &mut Runtime, s| {
        create_effect(rt, move |h: HostRef<'_>| {
            count.get(h.host);
            *r.borrow_mut() += 1;
        });
        s
    });
    assert_eq!(*runs.borrow(), 1);
    scope.dispose(&mut rt);
    set_count.set(&mut rt, 1);
    assert_eq!(*runs.borrow(), 1);
}

#[test]
fn cleanup_outside_scope_never_runs() {
    let mut rt = Runtime::new();
    let ran = Rc::new(RefCell::new(false));
    let r = ran.clone();
    on_cleanup(&mut rt, move || {
        *r.borrow_mut() = true;
    });
    reset_runtime(&mut rt);
    assert!(!*ran.borrow());
}

#[test]
fn reset_clears_subscriptions() {
    let mut rt = Runtime::new();
    let (a, _set_a) = create_signal(&mut rt, 1i32);
    create_effect(&mut rt, move |h: HostRef<'_>| {
        a.get(h.host);
    });
    assert_eq!(rt.subscriber_count(), 1);
    reset_runtime(&mut rt);
    assert_eq!(rt.subscriber_count(), 0);
    assert_eq!(rt.next_signal_id(), 0);
}

#[test]
fn set_on_disposed_signal_stores_again() {
    let mut rt = Runtime::new();
    let (sig, scope) = create_root(&mut rt, |rt: &mut Runtime, s| (create_signal(rt, 1i32), s));
    scope.dispose(&mut rt);
    let (read, write) = sig;
    write.set(&mut rt, 7);
    assert_eq!(read.get(&mut rt), 7);
}

#[test]
fn cleanups_run_in_registration_order() {
    let mut rt = Runtime::new();
    let order = Rc::new(RefCell::new(Vec::new()));
    let (o1, o2) = (order.clone(), order.clone());
    let scope = create_root(&mut rt, move |rt: &mut Runtime, s| {
        on_cleanup(rt, move || o1.borrow_mut().push(1));
        on_cleanup(rt, move || o2.borrow_mut().push(2));
        s
    });
    scope.dispose(&mut rt);
    assert_eq!(*order.borrow(), vec![1, 2]);
}

#[test]
fn sub_scope_cleanups_run_before_the_parents() {
    let mut rt = Runtime::new();
    let order = Rc::new(RefCell::new(Vec::new()));
    let (o1, o2) = (order.clone(), order.clone());
    let scope = create_root(&mut rt, move |rt: &mut Runtime, s| {
        on_cleanup(rt, move || o1.borrow_mut().push("parent"));
        create_root(rt, move |rt: &mut Runtime, _inner| {
            on_cleanup(rt, move || o2.borrow_mut().push("child"));
        });
        s
    });
    scope.dispose(&mut rt);
    assert_eq!(*order.borrow(), vec!["child", "parent"]);
}

#[test]
fn memo_holds_its_first_value() {
    let mut rt = Runtime::new();
    let (a, set_a) = create_signal(&mut rt, 3i32);
    let (b, _) = create_signal(&mut rt, 4i32);
    let sum = create_memo(&mut rt, move |h: HostRef<'_>| a.get(h.host) + b.get(h.host)).unwrap();
    assert_eq!(sum.id, 2);
    assert_eq!(sum.get(&mut rt), 7);
    set_a.set(&mut rt, 10);
    assert_eq!(sum.get(&mut rt), 14);
}
