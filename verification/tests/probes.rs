//! The counters and checkpoints by themselves.

use arc_swap::litmus;
use arc_swap::litmus::{
    Arrival, Probes, Wait, CHECKPOINTS, COUNTERS, CP_FALLBACK_GEN, CP_FAST_CLAIMED, CP_INTO_INNER,
    FAST_CONFIRMED, HELP_SUCCESS, INTO_INNER_ALREADY_PAID, PAY_SLOT, WAIT_LIMIT_NANOS,
};
use arc_swap::text::append_decimal;

const ZEROS: &str = "FAST_CONFIRMED=0,FAST_ALREADY_PAID=0,FALLBACK_CONFIRMED=0,\
FALLBACK_UPGRADED=0,PAY_SLOT=0,HELP_SUCCESS=0,GUARD_DROP_DEBT_PAID=0,\
GUARD_DROP_ALREADY_PAID=0,INTO_INNER_DEBT_PAID=0,INTO_INNER_ALREADY_PAID=0";

#[test]
fn a_fresh_snapshot_shows_every_counter_at_zero() {
    assert_eq!(litmus::snapshot(&Probes::new()), ZEROS);
}

#[test]
fn a_snapshot_shows_what_was_counted() {
    let mut probes = Probes::new();
    for _ in 0..12 {
        litmus::count(&mut probes, FAST_CONFIRMED);
    }
    litmus::count(&mut probes, PAY_SLOT);
    for _ in 0..305 {
        litmus::count(&mut probes, INTO_INNER_ALREADY_PAID);
    }
    assert_eq!(
        litmus::snapshot(&probes),
        "FAST_CONFIRMED=12,FAST_ALREADY_PAID=0,FALLBACK_CONFIRMED=0,FALLBACK_UPGRADED=0,\
PAY_SLOT=1,HELP_SUCCESS=0,GUARD_DROP_DEBT_PAID=0,GUARD_DROP_ALREADY_PAID=0,\
INTO_INNER_DEBT_PAID=0,INTO_INNER_ALREADY_PAID=305"
    );
}

#[test]
fn counters_are_independent() {
    let mut probes = Probes::new();
    litmus::count(&mut probes, HELP_SUCCESS);
    litmus::count(&mut probes, HELP_SUCCESS);
    for idx in 0..COUNTERS {
        let expected = if idx == HELP_SUCCESS { 2 } else { 0 };
        assert_eq!(litmus::counter(&probes, idx), expected);
    }
}

#[test]
fn an_unarmed_checkpoint_lets_everyone_pass() {
    let mut probes = Probes::new();
    for idx in 0..CHECKPOINTS {
        assert_eq!(litmus::checkpoint(&mut probes, idx), Arrival::Pass);
        assert_eq!(litmus::wait_fired(&probes, idx, 0), Wait::Pending);
        litmus::release(&mut probes, idx);
        assert_eq!(litmus::checkpoint(&mut probes, idx), Arrival::Pass);
    }
}

#[test]
fn only_the_first_arrival_parks() {
    let mut probes = Probes::new();
    litmus::arm(&mut probes, CP_FALLBACK_GEN);
    assert_eq!(litmus::wait_fired(&probes, CP_FALLBACK_GEN, 0), Wait::Pending);
    assert_eq!(litmus::checkpoint(&mut probes, CP_FAST_CLAIMED), Arrival::Pass);
    assert_eq!(litmus::checkpoint(&mut probes, CP_FALLBACK_GEN), Arrival::Park);
    assert_eq!(litmus::wait_fired(&probes, CP_FALLBACK_GEN, 0), Wait::Ready);
    assert_eq!(litmus::checkpoint(&mut probes, CP_FALLBACK_GEN), Arrival::Pass);
    assert_eq!(litmus::checkpoint_wait(&probes, CP_FALLBACK_GEN, 0), Wait::Pending);
    litmus::release(&mut probes, CP_FALLBACK_GEN);
    assert_eq!(litmus::checkpoint_wait(&probes, CP_FALLBACK_GEN, 0), Wait::Ready);
    // The arrival is still seen after the release, and arming again lets one more thread park.
    assert_eq!(litmus::wait_fired(&probes, CP_FALLBACK_GEN, 0), Wait::Ready);
    litmus::arm(&mut probes, CP_FALLBACK_GEN);
    assert_eq!(litmus::checkpoint(&mut probes, CP_FALLBACK_GEN), Arrival::Park);
}

#[test]
fn reset_leaves_no_leftovers() {
    let mut probes = Probes::new();
    litmus::count(&mut probes, PAY_SLOT);
    litmus::arm(&mut probes, CP_INTO_INNER);
    litmus::arm(&mut probes, CP_FAST_CLAIMED);
    assert_eq!(litmus::checkpoint(&mut probes, CP_FAST_CLAIMED), Arrival::Park);
    litmus::reset(&mut probes);
    assert_eq!(litmus::counter(&probes, PAY_SLOT), 0);
    assert_eq!(litmus::checkpoint(&mut probes, CP_INTO_INNER), Arrival::Pass);
    assert_eq!(litmus::wait_fired(&probes, CP_FAST_CLAIMED, 0), Wait::Pending);
    assert_eq!(litmus::checkpoint_wait(&probes, CP_FAST_CLAIMED, 0), Wait::Ready);
}

#[test]
fn a_stuck_thread_fails_with_the_counters() {
    let mut probes = Probes::new();
    litmus::arm(&mut probes, CP_INTO_INNER);
    litmus::checkpoint(&mut probes, CP_INTO_INNER);
    assert_eq!(
        litmus::checkpoint_wait(&probes, CP_INTO_INNER, WAIT_LIMIT_NANOS - 1),
        Wait::Pending
    );
    assert_eq!(
        litmus::checkpoint_wait(&probes, CP_INTO_INNER, WAIT_LIMIT_NANOS),
        Wait::TimedOut(format!(
            "litmus checkpoint CP_INTO_INNER stuck while armed; counters = {}",
            ZEROS
        ))
    );
    litmus::release(&mut probes, CP_INTO_INNER);
    assert_eq!(litmus::checkpoint_wait(&probes, CP_INTO_INNER, WAIT_LIMIT_NANOS), Wait::Ready);
}

#[test]
fn an_unreached_checkpoint_fails_with_the_counters() {
    let names = [
        "CP_FAST_CLAIMED",
        "CP_FAST_CONFIRM",
        "CP_FALLBACK_GEN",
        "CP_FALLBACK_CANDIDATE",
        "CP_FALLBACK_CONFIRM",
        "CP_INTO_INNER",
    ];
    let mut probes = Probes::new();
    for idx in 0..CHECKPOINTS {
        litmus::arm(&mut probes, idx);
        assert_eq!(litmus::wait_fired(&probes, idx, WAIT_LIMIT_NANOS - 1), Wait::Pending);
        assert_eq!(
            litmus::wait_fired(&probes, idx, WAIT_LIMIT_NANOS),
            Wait::TimedOut(format!(
                "litmus timed out waiting for {}; counters = {}",
                names[idx], ZEROS
            ))
        );
    }
    assert_eq!(WAIT_LIMIT_NANOS, 15_000_000_000);
}

#[test]
fn decimal_notation() {
    for n in [0, 7, 10, 99, 100, 1234567890, u64::MAX] {
        let mut text = String::from("n=");
        append_decimal(&mut text, n);
        assert_eq!(text, format!("n={}", n));
    }
}
