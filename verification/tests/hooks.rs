//! The interleave hooks.

use std::cell::RefCell;

use arc_swap::strategy::test_hooks::{fire, install_hook, HookPoint, Hooks};

#[test]
fn a_registered_callback_gets_point_and_address() {
    let seen: RefCell<Vec<(HookPoint, usize)>> = RefCell::new(Vec::new());
    let callback = |point: HookPoint, addr: usize| seen.borrow_mut().push((point, addr));
    let mut hooks = Hooks::new();
    fire(hooks, HookPoint::CasWon, 1);
    install_hook(&mut hooks, Some(&callback));
    fire(hooks, HookPoint::FastPreConfirm, 7);
    fire(hooks, HookPoint::WriterNodeSlotsDone, 9);
    install_hook(&mut hooks, None);
    fire(hooks, HookPoint::CasObservedEqual, 2);
    assert_eq!(
        *seen.borrow(),
        vec![(HookPoint::FastPreConfirm, 7), (HookPoint::WriterNodeSlotsDone, 9)]
    );
}

#[test]
fn the_last_installed_callback_counts() {
    let calls: RefCell<Vec<u32>> = RefCell::new(Vec::new());
    let first = |_: HookPoint, _: usize| calls.borrow_mut().push(1);
    let second = |_: HookPoint, _: usize| calls.borrow_mut().push(2);
    let callbacks: [&dyn Fn(HookPoint, usize); 2] = [&first, &second];
    let mut hooks = Hooks::new();
    install_hook(&mut hooks, Some(callbacks[0]));
    install_hook(&mut hooks, Some(callbacks[1]));
    fire(hooks, HookPoint::WriterPayAllStart, 0);
    let copied = hooks;
    fire(copied, HookPoint::FallbackLoaded, 0);
    assert_eq!(*calls.borrow(), vec![2, 2]);
}

#[test]
fn reports_and_calls_are_one_for_one() {
    let seen: RefCell<Vec<(HookPoint, usize)>> = RefCell::new(Vec::new());
    let callback = |point: HookPoint, addr: usize| seen.borrow_mut().push((point, addr));
    let mut hooks = Hooks::new();
    install_hook(&mut hooks, Some(&callback));
    fire(hooks, HookPoint::FastPreConfirm, 0x1000);
    fire(hooks, HookPoint::FastPreConfirm, 0x1000);
    fire(hooks, HookPoint::WriterNodeSlotsDone, 0);
    assert_eq!(
        *seen.borrow(),
        vec![
            (HookPoint::FastPreConfirm, 0x1000),
            (HookPoint::FastPreConfirm, 0x1000),
            (HookPoint::WriterNodeSlotsDone, 0)
        ]
    );
}

#[test]
fn a_replaced_callback_is_not_called() {
    let first_seen: RefCell<Vec<(HookPoint, usize)>> = RefCell::new(Vec::new());
    let second_seen: RefCell<Vec<(HookPoint, usize)>> = RefCell::new(Vec::new());
    let first = |point: HookPoint, addr: usize| first_seen.borrow_mut().push((point, addr));
    let second = |point: HookPoint, addr: usize| second_seen.borrow_mut().push((point, addr));
    let callbacks: [&dyn Fn(HookPoint, usize); 2] = [&first, &second];
    let mut hooks = Hooks::new();
    install_hook(&mut hooks, Some(callbacks[0]));
    install_hook(&mut hooks, Some(callbacks[1]));
    fire(hooks, HookPoint::CasWon, 1);
    install_hook(&mut hooks, None);
    fire(hooks, HookPoint::CasWon, 2);
    assert_eq!(*first_seen.borrow(), vec![]);
    assert_eq!(*second_seen.borrow(), vec![(HookPoint::CasWon, 1)]);
}
