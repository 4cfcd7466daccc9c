//! The accounting of references and debts.

use arc_swap::debt::books::Strategy;
use arc_swap::debt::domain::Domain;
use arc_swap::debt::flow::Progress;
use arc_swap::litmus;
use arc_swap::litmus::{
    Probes, CP_FALLBACK_CANDIDATE, CP_FALLBACK_GEN, CP_FAST_CLAIMED, CP_FAST_CONFIRM, CP_INTO_INNER,
};

fn done(progress: Progress) -> usize {
    match progress {
        Progress::Done(c) => c,
        Progress::Parked(cp) => panic!("parked at checkpoint {}", cp),
    }
}

#[test]
fn into_inner_repays_on_both_paths() {
    let (mut d, mut p) = (Domain::new(), Probes::new());
    let main = d.join();
    let upgrader = d.join();
    let (v, v_drops) = d.token(80);
    let copy = d.share(v);
    let shared = d.storage(copy, Strategy::Hybrid);

    // Live debt: one increment transfers the protection to the produced reference.
    let guard = done(d.load(&mut p, main, &shared));
    assert_eq!(d.strong_count(v), 2);
    let owned = done(d.into_inner(&mut p, main, guard));
    assert_eq!(litmus::counter(&p, litmus::INTO_INNER_DEBT_PAID), 1);
    assert_eq!(d.strong_count(v), 3);
    d.drop_claim(&mut p, owned);
    assert_eq!(d.strong_count(v), 2);

    // Already paid: a writer pays the debt of a thread that is parked at the entry.
    litmus::arm(&mut p, CP_INTO_INNER);
    let guard = done(d.load(&mut p, upgrader, &shared));
    assert_eq!(d.into_inner(&mut p, upgrader, guard), Progress::Parked(CP_INTO_INNER));
    let (new, _) = d.token(81);
    let before = d.strong_count(v);
    d.store(&mut p, main, &shared, new);
    assert_eq!(d.strong_count(v), before);
    assert_eq!(d.resume(&mut p, upgrader), Progress::Parked(CP_INTO_INNER));
    litmus::release(&mut p, CP_INTO_INNER);
    let owned = done(d.resume(&mut p, upgrader));
    assert_eq!(owned, guard);
    assert_eq!(litmus::counter(&p, litmus::INTO_INNER_ALREADY_PAID), 1);
    assert_eq!(d.strong_count(v), 2);
    d.drop_claim(&mut p, owned);
    assert_eq!(d.strong_count(v), 1);
    d.drop_claim(&mut p, v);
    assert_eq!(d.drops(v_drops), 1);
}

#[test]
fn a_won_exchange_pays_the_outstanding_reader() {
    let (mut d, mut p) = (Domain::new(), Probes::new());
    let main = d.join();
    let (old, old_drops) = d.token(90);
    let copy = d.share(old);
    let shared = d.storage(copy, Strategy::Hybrid);
    assert_eq!(d.strong_count(old), 2);

    let guard = done(d.load(&mut p, main, &shared));
    assert_eq!(d.strong_count(old), 2);
    let (next, next_drops) = d.token(91);
    let prev = done(d.compare_and_swap(&mut p, main, &shared, old, next));
    assert_eq!(d.id(prev), 90);
    // The reader's guard and the returned guard own the value now, besides `old`.
    assert_eq!(litmus::counter(&p, litmus::PAY_SLOT), 2);
    assert_eq!(d.strong_count(old), 3);
    d.drop_claim(&mut p, prev);
    assert_eq!(d.strong_count(old), 2);
    assert_eq!(d.drops(old_drops), 0);
    d.drop_claim(&mut p, guard);
    d.drop_claim(&mut p, old);
    assert_eq!(d.drops(old_drops), 1);
    let seen = done(d.load(&mut p, main, &shared));
    assert_eq!(d.id(seen), 91);
    d.drop_claim(&mut p, seen);
    d.drop_storage(&mut p, main, shared);
    assert_eq!(d.drops(next_drops), 1);
}

#[test]
fn dropping_a_guard_undoes_the_load() {
    for strategy in [Strategy::Hybrid, Strategy::FillFastSlots, Strategy::RwLock] {
        let (mut d, mut p) = (Domain::new(), Probes::new());
        let main = d.join();
        let (v, v_drops) = d.token(1);
        let copy = d.share(v);
        let shared = d.storage(copy, strategy);
        for _ in 0..20 {
            let guard = done(d.load(&mut p, main, &shared));
            assert_eq!(d.strong_count(v), if strategy == Strategy::Hybrid { 2 } else { 3 });
            d.drop_claim(&mut p, guard);
            assert_eq!(d.strong_count(v), 2);
        }
        d.drop_storage(&mut p, main, shared);
        assert_eq!(d.strong_count(v), 1);
        assert_eq!(d.drops(v_drops), 0);
    }
}

#[test]
fn an_owned_load_costs_one_count_everywhere() {
    for strategy in [Strategy::Hybrid, Strategy::FillFastSlots, Strategy::RwLock] {
        let (mut d, mut p) = (Domain::new(), Probes::new());
        let main = d.join();
        let (v, _) = d.token(1);
        let copy = d.share(v);
        let shared = d.storage(copy, strategy);
        let guard = done(d.load(&mut p, main, &shared));
        let owned = done(d.into_inner(&mut p, main, guard));
        assert_eq!(owned, guard);
        assert_eq!(d.id(owned), 1);
        assert_eq!(d.strong_count(v), 3);
    }
}

/// A reader that has loaded its candidate and is then helped returns the new value and never touches
/// the old one, which is already gone.
#[test]
fn a_helped_candidate_is_abandoned() {
    let (mut d, mut p) = (Domain::new(), Probes::new());
    let main = d.join();
    let reader = d.join();
    let (old, old_drops) = d.token(1);
    let shared = d.storage(old, Strategy::FillFastSlots);
    litmus::arm(&mut p, CP_FALLBACK_CANDIDATE);
    assert_eq!(d.load(&mut p, reader, &shared), Progress::Parked(CP_FALLBACK_CANDIDATE));
    let (new, new_drops) = d.token(2);
    d.store(&mut p, main, &shared, new);
    assert_eq!(d.drops(old_drops), 1);
    litmus::release(&mut p, CP_FALLBACK_CANDIDATE);
    let guard = done(d.resume(&mut p, reader));
    assert_eq!(d.id(guard), 2);
    assert_eq!(litmus::counter(&p, litmus::FALLBACK_UPGRADED), 1);
    assert_eq!(d.drops(old_drops), 1);
    d.drop_storage(&mut p, main, shared);
    assert_eq!(d.drops(new_drops), 0);
    d.drop_claim(&mut p, guard);
    assert_eq!(d.drops(new_drops), 1);
}

/// In a domain a fast load reads the storage and claims its slot in one step, so every later write
/// finds the debt and pays it. The reader keeps the value it claimed.
#[test]
fn a_claimed_slot_survives_two_writes() {
    let (mut d, mut p) = (Domain::new(), Probes::new());
    let main = d.join();
    let reader = d.join();
    let (old, old_drops) = d.token(1);
    let shared = d.storage(old, Strategy::Hybrid);
    litmus::arm(&mut p, CP_FAST_CLAIMED);
    litmus::arm(&mut p, CP_FAST_CONFIRM);
    assert_eq!(d.load(&mut p, reader, &shared), Progress::Parked(CP_FAST_CLAIMED));
    let (second, _) = d.token(2);
    d.store(&mut p, main, &shared, second);
    litmus::release(&mut p, CP_FAST_CLAIMED);
    assert_eq!(d.resume(&mut p, reader), Progress::Parked(CP_FAST_CONFIRM));
    let (third, _) = d.token(3);
    d.store(&mut p, main, &shared, third);
    litmus::release(&mut p, CP_FAST_CONFIRM);
    let guard = done(d.resume(&mut p, reader));
    assert_eq!(d.id(guard), 1);
    assert_eq!(d.drops(old_drops), 0);
    d.drop_claim(&mut p, guard);
    assert_eq!(d.drops(old_drops), 1);
}

/// A writer helps only the readers of its own storage.
#[test]
fn a_writer_leaves_other_storages_alone() {
    let (mut d, mut p) = (Domain::new(), Probes::new());
    let main = d.join();
    let reader = d.join();
    let (a, _) = d.token(1);
    let (b, _) = d.token(2);
    let first = d.storage(a, Strategy::FillFastSlots);
    let second = d.storage(b, Strategy::FillFastSlots);
    litmus::arm(&mut p, CP_FALLBACK_GEN);
    assert_eq!(d.load(&mut p, reader, &first), Progress::Parked(CP_FALLBACK_GEN));
    let (new, _) = d.token(3);
    d.store(&mut p, main, &second, new);
    assert_eq!(litmus::counter(&p, litmus::HELP_SUCCESS), 0);
    litmus::release(&mut p, CP_FALLBACK_GEN);
    let guard = done(d.resume(&mut p, reader));
    assert_eq!(d.id(guard), 1);
    assert_eq!(litmus::counter(&p, litmus::FALLBACK_CONFIRMED), 1);
}

/// The help of a writer leaves the events of a load of its own that is turned into an owned
/// reference: through a fast slot if the writer has one, else through the fallback.
#[test]
fn help_is_a_load_by_the_writer() {
    for (strategy, path) in [
        (Strategy::Hybrid, litmus::FAST_CONFIRMED),
        (Strategy::FillFastSlots, litmus::FALLBACK_CONFIRMED),
    ] {
        let (mut d, mut p) = (Domain::new(), Probes::new());
        let main = d.join();
        let reader = d.join();
        let (old, _) = d.token(1);
        let shared = d.storage(old, strategy);
        // Fill the fast slots of the reader, so that its next load takes the fallback.
        let mut guards = Vec::new();
        for _ in 0..8 {
            guards.push(done(d.load(&mut p, reader, &shared)));
        }
        litmus::arm(&mut p, CP_FALLBACK_GEN);
        assert_eq!(d.load(&mut p, reader, &shared), Progress::Parked(CP_FALLBACK_GEN));
        let before = litmus::counter(&p, path);
        let promoted = litmus::counter(&p, litmus::INTO_INNER_DEBT_PAID);
        let (new, _) = d.token(2);
        let copy = d.share(new);
        d.store(&mut p, main, &shared, copy);
        assert_eq!(litmus::counter(&p, path), before + 1);
        assert_eq!(litmus::counter(&p, litmus::INTO_INNER_DEBT_PAID), promoted + 1);
        assert_eq!(litmus::counter(&p, litmus::HELP_SUCCESS), 1);
        // `new`, the storage and the replacement.
        assert_eq!(d.strong_count(new), 3);
        litmus::release(&mut p, CP_FALLBACK_GEN);
        let guard = done(d.resume(&mut p, reader));
        assert_eq!(d.id(guard), 2);
        assert_eq!(d.strong_count(new), 3);
    }
}
