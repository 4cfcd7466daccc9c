//! The rendezvous seam and its diagnostics.

use arc_swap::debt::books::Strategy;
use arc_swap::debt::domain::Domain;
use arc_swap::litmus::Probes;
use arc_swap::strategy::test_ctl::{
    arm, arm_diagnostic, helper_counters, helper_handover_ok, helper_saw_gen, maybe_pause, release,
    release_acknowledged, release_diagnostic, storage_addr_of, try_resume, wait_entered, Helpers, Pause, Phase, Seam,
    Window,
};

#[test]
fn a_rendezvous_runs_its_phases() {
    for window in [Window::AfterReserve, Window::AfterLoad, Window::BeforeConfirm] {
        let mut seam = Seam::new();
        assert_eq!(arm(&mut seam, 64, window), Ok(()));
        assert!(!wait_entered(&seam));
        assert_eq!(maybe_pause(&mut seam, 64, window), Pause::Park);
        assert!(wait_entered(&seam));
        assert!(!try_resume(&mut seam));
        assert_eq!(release(&mut seam), Ok(()));
        assert!(!wait_entered(&seam));
        assert!(!release_acknowledged(&seam));
        assert!(try_resume(&mut seam));
        assert!(release_acknowledged(&seam));
        assert!(!try_resume(&mut seam));
    }
}

#[test]
fn only_the_armed_key_parks() {
    let mut seam = Seam::new();
    assert_eq!(maybe_pause(&mut seam, 0, Window::AfterReserve), Pause::Continue);
    assert_eq!(arm(&mut seam, 8, Window::AfterLoad), Ok(()));
    assert_eq!(maybe_pause(&mut seam, 9, Window::AfterLoad), Pause::Continue);
    assert_eq!(maybe_pause(&mut seam, 8, Window::AfterReserve), Pause::Continue);
    assert_eq!(maybe_pause(&mut seam, 8, Window::BeforeConfirm), Pause::Continue);
    assert!(!wait_entered(&seam));
    assert_eq!(maybe_pause(&mut seam, 8, Window::AfterLoad), Pause::Park);
}

#[test]
fn nested_loads_never_block() {
    let mut seam = Seam::new();
    assert_eq!(arm(&mut seam, 8, Window::AfterReserve), Ok(()));
    assert_eq!(maybe_pause(&mut seam, 8, Window::AfterReserve), Pause::Park);
    assert_eq!(maybe_pause(&mut seam, 8, Window::AfterReserve), Pause::Continue);
    assert_eq!(release(&mut seam), Ok(()));
    assert_eq!(maybe_pause(&mut seam, 8, Window::AfterReserve), Pause::Continue);
    assert!(try_resume(&mut seam));
    assert_eq!(maybe_pause(&mut seam, 8, Window::AfterReserve), Pause::Continue);
}

#[test]
fn arming_an_active_seam_is_reported() {
    let mut seam = Seam::new();
    assert_eq!(arm(&mut seam, 1, Window::AfterLoad), Ok(()));
    assert_eq!(arm(&mut seam, 2, Window::AfterLoad), Err(Phase::Armed));
    assert!(release_acknowledged(&seam));
    assert_eq!(arm(&mut seam, 2, Window::AfterLoad), Ok(()));
    assert_eq!(maybe_pause(&mut seam, 2, Window::AfterLoad), Pause::Park);
    assert_eq!(arm(&mut seam, 3, Window::AfterLoad), Err(Phase::Entered));
}

#[test]
fn releasing_nobody_is_reported() {
    let mut seam = Seam::new();
    assert_eq!(release(&mut seam), Err(Phase::Disarmed));
    assert_eq!(release(&mut seam), Err(Phase::Released));
    assert_eq!(arm(&mut seam, 2, Window::AfterLoad), Err(Phase::Released));
    assert_eq!(arm(&mut seam, 2, Window::AfterLoad), Ok(()));
    assert_eq!(release(&mut seam), Err(Phase::Armed));
}

#[test]
fn window_codes() {
    assert_eq!(Window::AfterReserve.code(), 1);
    assert_eq!(Window::AfterLoad.code(), 2);
    assert_eq!(Window::BeforeConfirm.code(), 3);
}

#[test]
fn helper_diagnostics_are_counted_apart() {
    let mut helpers = Helpers::new();
    assert_eq!(helper_counters(&helpers), (0, 0));
    helper_saw_gen(&mut helpers);
    helper_saw_gen(&mut helpers);
    helper_handover_ok(&mut helpers);
    assert_eq!(helper_counters(&helpers), (2, 1));
}

#[test]
fn storages_have_addresses_of_their_own() {
    let mut domain = Domain::new();
    let (a, _) = domain.token(1);
    let b = domain.share(a);
    let first = domain.storage(a, Strategy::Hybrid);
    let second = domain.storage(b, Strategy::Hybrid);
    assert_ne!(storage_addr_of(&first), storage_addr_of(&second));
    assert_eq!(storage_addr_of(&first), first.storage_addr());

    let mut seam = Seam::new();
    assert_eq!(arm(&mut seam, storage_addr_of(&second), Window::AfterLoad), Ok(()));
    assert_eq!(
        maybe_pause(&mut seam, storage_addr_of(&first), Window::AfterLoad),
        Pause::Continue
    );
    assert_eq!(maybe_pause(&mut seam, storage_addr_of(&second), Window::AfterLoad), Pause::Park);
}

#[test]
fn mistakes_are_described() {
    assert_eq!(
        arm_diagnostic(),
        "litmus seam armed while a previous rendezvous was still active"
    );
    let mut seam = Seam::new();
    assert_eq!(arm(&mut seam, 0x1000, Window::AfterLoad), Ok(()));
    let found = release(&mut seam).unwrap_err();
    assert_eq!(
        release_diagnostic(found),
        "litmus seam released without a parked reader (state 1)"
    );
    assert_eq!(
        release_diagnostic(Phase::Disarmed),
        "litmus seam released without a parked reader (state 0)"
    );
    assert_eq!(
        release_diagnostic(Phase::Released),
        "litmus seam released without a parked reader (state 3)"
    );
    assert_eq!(Phase::Entered.code(), 2);
}

#[test]
fn an_address_survives_writes() {
    let (mut domain, mut probes) = (Domain::new(), Probes::new());
    let main = domain.join();
    let (a, _) = domain.token(1);
    let b = domain.share(a);
    let first = domain.storage(a, Strategy::Hybrid);
    let addr = storage_addr_of(&first);
    domain.store(&mut probes, main, &first, b);
    let (c, _) = domain.token(2);
    let old = domain.swap(&mut probes, main, &first, c);
    assert_eq!(storage_addr_of(&first), addr);
    // The value that the first storage held goes into another one.
    let second = domain.storage(old, Strategy::Hybrid);
    assert_ne!(storage_addr_of(&second), addr);
}

#[test]
fn exactly_one_matching_call_parks() {
    let mut seam = Seam::new();
    assert_eq!(arm(&mut seam, 8, Window::BeforeConfirm), Ok(()));
    let mut parked = 0;
    for window in [
        Window::AfterReserve,
        Window::AfterLoad,
        Window::BeforeConfirm,
        Window::BeforeConfirm,
        Window::AfterReserve,
        Window::BeforeConfirm,
    ] {
        if maybe_pause(&mut seam, 8, window) == Pause::Park {
            parked += 1;
        }
    }
    assert_eq!(parked, 1);
}
