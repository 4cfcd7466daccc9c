//! Deterministic interleavings of the debt and helping protocol.
//!
//! Every scenario places one thread at an exact point of the reader or writer protocol and then
//! checks the outcome that a naive or weakened implementation would violate. Scenarios are also run
//! with the lock-based and the helping-only strategy, so that their results can be cross-checked.

use arc_swap::debt::books::Strategy;
use arc_swap::debt::domain::{ArcSwapAny, Domain};
use arc_swap::debt::flow::Progress;
use arc_swap::litmus;
use arc_swap::litmus::{
    Probes, Wait, CP_FALLBACK_CONFIRM, CP_FALLBACK_GEN, CP_FAST_CLAIMED, CP_FAST_CONFIRM,
};

/// A domain, its probes, and two threads of it.
struct Bench {
    domain: Domain,
    probes: Probes,
    main: usize,
    other: usize,
}

impl Bench {
    fn new() -> Bench {
        let mut domain = Domain::new();
        let main = domain.join();
        let other = domain.join();
        Bench { domain, probes: Probes::new(), main, other }
    }

    fn token(&mut self, id: u32) -> (usize, usize) {
        self.domain.token(id)
    }

    fn share(&mut self, c: usize) -> usize {
        self.domain.share(c)
    }

    fn storage(&mut self, c: usize, strategy: Strategy) -> ArcSwapAny {
        self.domain.storage(c, strategy)
    }

    fn load(&mut self, shared: &ArcSwapAny) -> usize {
        done(self.domain.load(&mut self.probes, self.main, shared))
    }

    fn load_full(&mut self, shared: &ArcSwapAny) -> usize {
        let guard = self.load(shared);
        self.into_inner(guard)
    }

    fn into_inner(&mut self, guard: usize) -> usize {
        done(self.domain.into_inner(&mut self.probes, self.main, guard))
    }

    /// Starts a load on the other thread and checks that it parks at the checkpoint.
    fn load_until(&mut self, shared: &ArcSwapAny, cp: usize) {
        let progress = self.domain.load(&mut self.probes, self.other, shared);
        assert_eq!(progress, Progress::Parked(cp));
        assert_eq!(litmus::wait_fired(&self.probes, cp, 0), Wait::Ready);
    }

    /// Lets the other thread go on after a release.
    fn finish(&mut self) -> usize {
        done(self.domain.resume(&mut self.probes, self.other))
    }

    fn swap(&mut self, shared: &ArcSwapAny, new: usize) {
        let old = self.domain.swap(&mut self.probes, self.main, shared, new);
        self.drop(old);
    }

    fn compare_and_swap(&mut self, shared: &ArcSwapAny, current: usize, new: usize) -> usize {
        done(self.domain.compare_and_swap(&mut self.probes, self.main, shared, current, new))
    }

    fn drop(&mut self, c: usize) {
        self.domain.drop_claim(&mut self.probes, c);
    }

    fn drop_storage(&mut self, shared: ArcSwapAny) {
        self.domain.drop_storage(&mut self.probes, self.main, shared);
    }

    fn counter(&self, idx: usize) -> u64 {
        litmus::counter(&self.probes, idx)
    }
}

fn done(progress: Progress) -> usize {
    match progress {
        Progress::Done(c) => c,
        Progress::Parked(cp) => panic!("parked at checkpoint {}", cp),
    }
}

/// Step result of "swap while N guards are alive": drop counters plus surviving strong counts.
#[derive(Debug, Clone, Copy, PartialEq, Eq)]
struct SwapTrace {
    old_dropped_after_swap: usize,
    old_dropped_after_guards: usize,
    old_dropped_final: usize,
    surviving_strong_after: u128,
}

fn run_swap_with_guards(make_guards: usize) -> SwapTrace {
    let mut b = Bench::new();
    let (old, old_drops) = b.token(1);
    let (new, _new_drops) = b.token(2);
    let copy = b.share(old);
    let shared = b.storage(copy, Strategy::Hybrid);
    let guards: Vec<usize> = (0..make_guards).map(|_| b.load(&shared)).collect();
    b.swap(&shared, new);
    let after_swap = b.domain.drops(old_drops);
    for guard in guards {
        b.drop(guard);
    }
    let surviving = b.load_full(&shared);
    b.drop(old);
    SwapTrace {
        old_dropped_after_swap: after_swap,
        old_dropped_after_guards: b.domain.drops(old_drops),
        old_dropped_final: b.domain.drops(old_drops),
        surviving_strong_after: b.domain.strong_count(surviving),
    }
}

/// Result of the same step sequence under a lock-based strategy.
fn run_swap_with_guards_locked(make_guards: usize) -> SwapTrace {
    let mut b = Bench::new();
    let (old, old_drops) = b.token(101);
    let (new, _) = b.token(102);
    let copy = b.share(old);
    let shared = b.storage(copy, Strategy::RwLock);
    let guards: Vec<usize> = (0..make_guards).map(|_| b.load(&shared)).collect();
    b.swap(&shared, new);
    let after_swap = b.domain.drops(old_drops);
    for guard in guards {
        b.drop(guard);
    }
    let surviving = b.load_full(&shared);
    b.drop(old);
    b.drop_storage(shared);
    SwapTrace {
        old_dropped_after_swap: after_swap,
        old_dropped_after_guards: b.domain.drops(old_drops),
        old_dropped_final: b.domain.drops(old_drops),
        surviving_strong_after: b.domain.strong_count(surviving),
    }
}

/// One thread can hold more than eight guards simultaneously: the first eight stay debts, later
/// loads fall back to counted references, and every guard observes a live value.
#[test]
fn more_than_eight_guards_same_thread() {
    let mut b = Bench::new();
    litmus::reset(&mut b.probes);
    const GUARDS: usize = 24;
    let (old, old_drops) = b.token(1);
    let copy = b.share(old);
    let shared = b.storage(copy, Strategy::Hybrid);

    let guards: Vec<usize> = (0..GUARDS).map(|_| b.load(&shared)).collect();
    for guard in &guards {
        assert_eq!(b.domain.id(*guard), 1, "guard observed a value it never loaded");
    }
    assert_eq!(b.counter(litmus::FAST_CONFIRMED), 8);
    assert!(b.counter(litmus::FALLBACK_CONFIRMED) + b.counter(litmus::FALLBACK_UPGRADED) >= 1);

    // A swap while every guard is alive must not free the old value.
    let (new, _) = b.token(2);
    b.swap(&shared, new);
    assert_eq!(b.domain.drops(old_drops), 0, "old value dropped under live guards");
    assert!(b.domain.strong_count(old) >= 2, "all live guards observe an alive value");
    for guard in guards {
        b.drop(guard);
    }
    b.drop(old);
    assert_eq!(b.domain.drops(old_drops), 1, "old value must drop exactly once");

    // Vacating a fast guard frees its slot: a new load then reuses it without another fallback.
    let baseline = b.counter(litmus::FALLBACK_CONFIRMED);
    let _reuse = b.load(&shared);
    assert_eq!(b.counter(litmus::FAST_CONFIRMED), 9);
    assert_eq!(b.counter(litmus::FALLBACK_CONFIRMED), baseline);
}

/// Forcing every load through the helping fallback yields the same accounting with no fast-slot
/// confirmations.
#[test]
fn more_than_eight_guards_helping_only() {
    let mut b = Bench::new();
    litmus::reset(&mut b.probes);
    const GUARDS: usize = 16;
    let (old, old_drops) = b.token(11);
    let copy = b.share(old);
    let shared = b.storage(copy, Strategy::FillFastSlots);

    let guards: Vec<usize> = (0..GUARDS).map(|_| b.load(&shared)).collect();
    for guard in &guards {
        assert_eq!(b.domain.id(*guard), 11);
    }
    assert_eq!(b.counter(litmus::FAST_CONFIRMED), 0);
    assert_eq!(
        b.counter(litmus::FALLBACK_CONFIRMED) + b.counter(litmus::FALLBACK_UPGRADED),
        GUARDS as u64
    );
    let (new, new_drops) = b.token(12);
    let copy = b.share(new);
    b.swap(&shared, copy);
    assert_eq!(b.domain.drops(old_drops), 0);
    for guard in guards {
        b.drop(guard);
    }
    b.drop(old);
    assert_eq!(b.domain.drops(old_drops), 1);
    b.drop(new);
    b.drop_storage(shared);
    assert_eq!(b.domain.drops(new_drops), 1);
}

/// The same steps with the lock-based strategy: the same final ownership accounting.
#[test]
fn more_than_eight_guards_rwlock_crosscheck() {
    let trace_hybrid_fast = run_swap_with_guards(3);
    let trace_hybrid_overflow = run_swap_with_guards(12);
    let trace_locked_fast = run_swap_with_guards_locked(3);
    let trace_locked_overflow = run_swap_with_guards_locked(12);

    // While guards are alive no strategy may free the old value, regardless of slot mechanics.
    for trace in [
        trace_hybrid_fast,
        trace_hybrid_overflow,
        trace_locked_fast,
        trace_locked_overflow,
    ] {
        assert_eq!(trace.old_dropped_after_swap, 0, "no free while guards are live");
        assert_eq!(trace.old_dropped_final, 1, "exactly one drop of the old value");
        assert!(trace.surviving_strong_after >= 1);
    }
    assert_eq!(trace_locked_fast.surviving_strong_after, 1);
    assert!(trace_hybrid_fast.surviving_strong_after >= trace_locked_fast.surviving_strong_after);
}

/// Helping collision at the generation publication window: the writer finishes the reservation for
/// the reader, without waiting.
#[test]
fn fallback_help_collision_at_generation() {
    let mut b = Bench::new();
    litmus::reset(&mut b.probes);
    let (old, old_drops) = b.token(21);
    let copy = b.share(old);
    let shared = b.storage(copy, Strategy::FillFastSlots);

    litmus::arm(&mut b.probes, CP_FALLBACK_GEN);
    b.load_until(&shared, CP_FALLBACK_GEN);

    let (new, _) = b.token(22);
    b.swap(&shared, new);
    assert_eq!(
        b.counter(litmus::HELP_SUCCESS),
        1,
        "writer must complete the reader's reservation itself"
    );
    assert_eq!(b.domain.drops(old_drops), 0);

    litmus::release(&mut b.probes, CP_FALLBACK_GEN);
    let observed = b.finish();

    // The reader was handed the *new* value, already protected; its own stale debt was paid back.
    assert_eq!(b.domain.id(observed), 22);
    assert_eq!(b.counter(litmus::FALLBACK_UPGRADED), 1);
    b.drop(observed);
    b.drop(old);
    assert_eq!(b.domain.drops(old_drops), 1);
}

/// A fast slot whose debt is paid by the writer between the two pointer reads: the reader becomes
/// the owner of a counted reference.
#[test]
fn fast_debt_already_paid_between_reads() {
    let mut b = Bench::new();
    litmus::reset(&mut b.probes);
    let (old, old_drops) = b.token(31);
    let copy = b.share(old);
    let shared = b.storage(copy, Strategy::Hybrid);

    litmus::arm(&mut b.probes, CP_FAST_CONFIRM);
    b.load_until(&shared, CP_FAST_CONFIRM);

    let (new, _) = b.token(32);
    b.swap(&shared, new);
    // The writer traversed the node and paid the debt that protects the reader's candidate.
    assert!(b.counter(litmus::PAY_SLOT) >= 1);
    assert_eq!(b.domain.drops(old_drops), 0);

    litmus::release(&mut b.probes, CP_FAST_CONFIRM);
    let observed = b.finish();

    assert_eq!(b.domain.id(observed), 31);
    assert_eq!(b.counter(litmus::FAST_ALREADY_PAID), 1);
    assert_eq!(b.counter(litmus::FAST_CONFIRMED), 0);
    b.drop(observed);
    b.drop(old);
    assert_eq!(b.domain.drops(old_drops), 1);
}

/// Helping collision in the narrowest window: the reader's debt is already installed in the helping
/// slot while the control still carries the generation. Each rendez-vous is consumed exactly once.
#[test]
fn fallback_help_collision_at_confirm_window() {
    let mut b = Bench::new();
    const ROUNDS: u64 = 8;
    for round in 0..ROUNDS {
        litmus::reset(&mut b.probes);
        let (old, old_drops) = b.token(40 + round as u32);
        let shared = b.storage(old, Strategy::FillFastSlots);

        litmus::arm(&mut b.probes, CP_FALLBACK_CONFIRM);
        b.load_until(&shared, CP_FALLBACK_CONFIRM);

        let (new, _) = b.token(60 + round as u32);
        b.swap(&shared, new);
        // Exactly one round trip through the help hand-over.
        assert_eq!(b.counter(litmus::HELP_SUCCESS), 1);
        // The old value is reachable through the reader's parked debt, so it must survive.
        assert_eq!(b.domain.drops(old_drops), 0);

        litmus::release(&mut b.probes, CP_FALLBACK_CONFIRM);
        let observed = b.finish();

        // The reader discovers the replacement, aborts its own debt and keeps the new value.
        assert_eq!(b.domain.id(observed), 60 + round as u32);
        assert_eq!(b.counter(litmus::FALLBACK_UPGRADED), 1);
        b.drop(observed);
        assert_eq!(
            b.domain.drops(old_drops),
            1,
            "round {round}: old value must drop exactly once, not zero (leak) or twice (double dec)"
        );
    }
}

/// Writer liveness: the writer helps and returns instead of waiting for the reader.
#[test]
fn fallback_writer_never_waits_for_reader() {
    let mut b = Bench::new();
    litmus::reset(&mut b.probes);
    let (old, old_drops) = b.token(51);
    let shared = b.storage(old, Strategy::FillFastSlots);

    litmus::arm(&mut b.probes, CP_FALLBACK_GEN);
    b.load_until(&shared, CP_FALLBACK_GEN);
    let (new, _) = b.token(52);
    b.domain.store(&mut b.probes, b.main, &shared, new);
    litmus::release(&mut b.probes, CP_FALLBACK_GEN);
    let guard = b.finish();
    assert_eq!(b.domain.id(guard), 52);
    b.drop(guard);
    // The reader protected the new value; the old one had no remaining protector.
    assert_eq!(b.domain.drops(old_drops), 1);
}

/// The two guard-drop repayment paths.
#[test]
fn guard_drop_two_repayment_paths() {
    let mut b = Bench::new();
    litmus::reset(&mut b.probes);
    let (v, v_drops) = b.token(70);
    let shared = b.storage(v, Strategy::Hybrid);

    // Quiet path: nobody writes, the debt is returned by the guard itself.
    let quiet = b.load(&shared);
    b.drop(quiet);
    assert_eq!(b.counter(litmus::GUARD_DROP_DEBT_PAID), 1);
    assert_eq!(b.counter(litmus::GUARD_DROP_ALREADY_PAID), 0);
    assert_eq!(b.domain.drops(v_drops), 0);

    // Helped path: a confirmed fast guard is bumped by a writer; its drop owns the reference.
    let (new, new_drops) = b.token(71);
    let before_second_load = b.counter(litmus::FAST_CONFIRMED);
    let guard = b.load(&shared);
    assert_eq!(b.counter(litmus::FAST_CONFIRMED), before_second_load + 1);
    b.swap(&shared, new);
    assert_eq!(b.domain.drops(v_drops), 0, "writer must not free a guarded value");
    b.drop_storage(shared);
    assert_eq!(b.domain.drops(v_drops), 0, "the helped guard still keeps the value alive");
    b.drop(guard);
    assert_eq!(b.counter(litmus::GUARD_DROP_ALREADY_PAID), 1);
    assert_eq!(b.domain.drops(v_drops), 1, "exactly one final drop, from the helped guard");
    assert_eq!(b.domain.drops(new_drops), 1);
}

/// A compare-and-swap loses when the storage changes after its load: it reports the newer value and
/// drops its own candidate exactly once.
#[test]
fn cas_loses_to_concurrent_swap() {
    let mut b = Bench::new();
    litmus::reset(&mut b.probes);
    let (old, old_drops) = b.token(100);
    let copy = b.share(old);
    let shared = b.storage(copy, Strategy::Hybrid);

    // The checkpoint fires inside the internal load; the operation has then only performed the
    // first of its two storage reads.
    litmus::arm(&mut b.probes, CP_FAST_CLAIMED);
    let cas_old = b.share(old);
    let (candidate, candidate_drops) = b.token(102);
    let progress =
        b.domain.compare_and_swap(&mut b.probes, b.other, &shared, cas_old, candidate);
    assert_eq!(progress, Progress::Parked(CP_FAST_CLAIMED));
    assert_eq!(litmus::wait_fired(&b.probes, CP_FAST_CLAIMED, 0), Wait::Ready);

    let (winner, winner_drops) = b.token(101);
    b.swap(&shared, winner);
    litmus::release(&mut b.probes, CP_FAST_CLAIMED);

    // The load kept the old value alive, but the exchange finds another one and starts over.
    let stale = b.finish();
    assert_eq!(b.domain.id(stale), 100);
    let retry = b.domain.decide(&mut b.probes, b.other, &shared, stale, cas_old, candidate);
    assert_eq!(retry, None);
    let prev =
        done(b.domain.compare_and_swap(&mut b.probes, b.other, &shared, cas_old, candidate));
    b.drop(cas_old);

    assert_eq!(b.domain.id(prev), 101);
    let seen = b.load(&shared);
    assert_eq!(b.domain.id(seen), 101);
    b.drop(seen);
    assert_eq!(b.domain.drops(candidate_drops), 1, "rejected candidate dropped once");
    b.drop(prev);
    b.drop(old);
    b.drop_storage(shared);
    assert_eq!(b.domain.drops(old_drops), 1);
    assert_eq!(b.domain.drops(winner_drops), 1);
}

/// Compare-and-swap accounting cross-checked against the lock-based strategy with identical steps.
#[test]
fn cas_accounting_crosschecked_with_rwlock() {
    fn profile(strategy: Strategy, id_base: u32) -> (u128, usize, usize) {
        let mut b = Bench::new();
        let (old, _) = b.token(id_base);
        let copy = b.share(old);
        let shared = b.storage(copy, strategy);
        let (win, win_drops) = b.token(id_base + 1);
        let (lose, lose_drops) = b.token(id_base + 2);

        let prev = b.compare_and_swap(&shared, old, win);
        assert_eq!(b.domain.id(prev), id_base);
        let guard = b.compare_and_swap(&shared, old, lose);
        let prev2 = b.into_inner(guard);
        assert_eq!(b.domain.id(prev2), id_base + 1);
        let current = b.load_full(&shared);
        let stored_count = b.domain.strong_count(current);
        b.drop(current);
        b.drop(prev);
        b.drop(prev2);
        b.drop_storage(shared);
        (stored_count, b.domain.drops(win_drops), b.domain.drops(lose_drops))
    }

    let hybrid = profile(Strategy::Hybrid, 110);
    let locked = profile(Strategy::RwLock, 120);
    assert_eq!(hybrid, (3, 1, 1));
    assert_eq!(hybrid, locked);
}

/// Dropping the storage pays debts as well: a guard acquired before keeps the value alive.
#[test]
fn arcswap_drop_pays_debts_before_dec() {
    let mut b = Bench::new();
    litmus::reset(&mut b.probes);
    let (value, drops) = b.token(130);
    let shared = b.storage(value, Strategy::Hybrid);
    let guard = b.load(&shared);

    b.drop_storage(shared);
    assert_eq!(b.domain.drops(drops), 0, "storage destruction must not kill a guarded value");
    assert_eq!(b.domain.id(guard), 130, "guard remains usable after the ArcSwap is gone");
    b.drop(guard);
    assert_eq!(b.domain.drops(drops), 1);
    assert_eq!(b.counter(litmus::PAY_SLOT) >= 1, true);
}

/// Extracting the value pays every debt; the extracted reference and the guard share the value.
#[test]
fn arcswap_into_inner_pays_debts() {
    let mut b = Bench::new();
    litmus::reset(&mut b.probes);
    let (value, drops) = b.token(140);
    let shared = b.storage(value, Strategy::Hybrid);
    let guard = b.load(&shared);

    let extracted = b.domain.take(&mut b.probes, b.main, shared);
    assert_eq!(b.domain.id(extracted), 140);
    assert_eq!(b.domain.drops(drops), 0);
    b.drop(guard);
    assert_eq!(b.domain.drops(drops), 0);
    b.drop(extracted);
    assert_eq!(b.domain.drops(drops), 1);
}
