//! What a thread does that is let go from a checkpoint, whatever was written while it was parked,
//! and what turning a guard into an owned reference costs.

use vstd::prelude::*;

use crate::debt::balance;
use crate::debt::books;
use crate::debt::books::{Books, Claim, Control, Op, Owner};
use crate::debt::flow::{Progress, World};
use crate::debt::steps;
use crate::laws::loads::{
    finished, gained, gained_nothing, none_fired, nothing_waits, only_fired, others_stay, recounted,
    waits,
};
use crate::litmus;
use crate::litmus::ProbesView;

verus! {

/// The checkpoint at which a thread stands before its next step.
pub open spec fn stands_at(op: Op) -> usize {
    match op {
        Op::FastClaimed { .. } => litmus::CP_FAST_CLAIMED,
        Op::FastConfirming { .. } => litmus::CP_FAST_CONFIRM,
        Op::Reserved { .. } => litmus::CP_FALLBACK_GEN,
        Op::Loaded { .. } => litmus::CP_FALLBACK_CANDIDATE,
        Op::Published { .. } => litmus::CP_FALLBACK_CONFIRM,
        _ => litmus::CP_INTO_INNER,
    }
}

/// What is asked of a resumption: the thread is in the middle of something, and there is room.
pub open spec fn may_resume(w: World, t: usize) -> bool {
    &&& w.books.wf()
    &&& w.probes.wf()
    &&& w.books.roomy()
    &&& t < w.books.nodes.len()
    &&& w.books.nodes[t as int].op !is Idle
    &&& stands_at(w.books.nodes[t as int].op) <= litmus::CP_FALLBACK_CANDIDATE
        ==> w.books.claims.len() < usize::MAX
}

/// The thread is let go: its checkpoint is not armed any more, and nobody is awaited further on.
pub open spec fn let_go(w: World, t: usize) -> bool {
    &&& may_resume(w, t)
    &&& !w.probes.armed[stands_at(w.books.nodes[t as int].op) as int]
    &&& nothing_waits(w.probes)
}

/// A claim is still protected by the debt that it was made with: nobody has paid it.
pub open spec fn unpaid(b: Books, c: int) -> bool {
    b.claims[c].slot matches Some(k) && b.slots[k as int] == Some(b.claims[c].ptr)
}

/// The claims before are the same, but that these two may have changed.
pub open spec fn claims_stay(before: Books, after: Books, c: int, d: int) -> bool {
    &&& after.claims.len() >= before.claims.len()
    &&& forall|e: int|
        0 <= e < before.claims.len() && e != c && e != d ==> #[trigger] after.claims[e]
            == before.claims[e]
}

/// As long as its checkpoint is armed, a parked thread that looks stays where it is: nothing
/// changes, and it is still parked there.
pub proof fn law_an_armed_checkpoint_holds_its_thread(w: World, t: usize)
    requires
        t < w.books.nodes.len(),
        w.books.nodes[t as int].op !is Idle,
        w.probes.armed[stands_at(w.books.nodes[t as int].op) as int],
    ensures
        w.resumed(t) == (w, Progress::Parked(stands_at(w.books.nodes[t as int].op))),
{
}

/// As soon as its checkpoint is not armed, be it by a release or by a reset, and whatever else is
/// armed, a parked thread that looks goes on, and does not stop at that checkpoint again.
pub proof fn law_a_released_thread_goes_on(w: World, t: usize)
    requires
        may_resume(w, t),
        !w.probes.armed[stands_at(w.books.nodes[t as int].op) as int],
    ensures
        w.resumed(t) == w.run(t, true),
        w.resumed(t).1 matches Progress::Parked(idx) ==> idx > stands_at(
            w.books.nodes[t as int].op,
        ),
{
    law_a_run_parks_at_the_first_checkpoint_that_waits(w, t, true);
}

/// A thread that runs parks at the first checkpoint ahead of it that waits, and at no other; while
/// it is parked no count has changed. If it is done, it has passed all of them.
pub proof fn law_a_run_parks_at_the_first_checkpoint_that_waits(w: World, t: usize, released: bool)
    requires
        may_resume(w, t),
    ensures
        ({
            let node = w.books.nodes[t as int];
            let first = stands_at(node.op) + (if released {
                1int
            } else {
                0int
            });
            let (x, progress) = w.run(t, released);
            match progress {
                Progress::Parked(idx) => {
                    &&& first <= idx < litmus::CHECKPOINTS
                    &&& waits(w.probes, idx as int)
                    &&& forall|j: int| first <= j < idx ==> !#[trigger] waits(w.probes, j)
                    &&& only_fired(w.probes, x.probes, idx as int)
                    &&& stands_at(x.books.nodes[t as int].op) == idx
                    &&& x.books.nodes[t as int].op !is Idle
                    &&& x.books.objects == w.books.objects
                },
                Progress::Done(_) => {
                    &&& none_fired(w.probes, x.probes)
                    &&& x.books.nodes[t as int].op is Idle
                    &&& forall|j: int|
                        first <= j <= (if node.op is FastClaimed || node.op is FastConfirming {
                            litmus::CP_FAST_CONFIRM
                        } else if node.control is Replacement {
                            litmus::CP_FALLBACK_CONFIRM
                        } else {
                            litmus::CP_INTO_INNER
                        }) ==> !#[trigger] waits(w.probes, j)
                },
            }
        }),
    decreases w.books.nodes[t as int].op.steps_left(),
{
    let b = w.books;
    let op = b.nodes[t as int].op;
    assert(b.node_fits(t as int));
    if released || !waits(w.probes, stands_at(op) as int) {
        let d = b.stepped(t);
        steps::lemma_stepped(b, t);
        if b.yields(t) is None {
            let next = World { books: d, probes: w.probes.noted(b.step_event(t as int)) };
            law_a_run_parks_at_the_first_checkpoint_that_waits(next, t, false);
            assert forall|j: int| 0 <= j < litmus::CHECKPOINTS implies #[trigger] waits(
                next.probes,
                j,
            ) == waits(w.probes, j) by {}
        }
    } else {
        assert(w.run(t, released).1 == Progress::Parked(stands_at(op)));
    }
}

/// These two worlds differ in nothing but in whether the arming of one checkpoint, which is over,
/// had been consumed.
pub open spec fn same_but_fired(a: World, b: World, idx: int) -> bool {
    &&& a.books == b.books
    &&& a.probes.counts == b.probes.counts
    &&& a.probes.armed == b.probes.armed
    &&& !a.probes.armed[idx]
    &&& a.probes.fired.len() == b.probes.fired.len()
    &&& forall|j: int|
        0 <= j < a.probes.fired.len() && j != idx ==> #[trigger] a.probes.fired[j]
            == b.probes.fired[j]
}

/// A run does not see what an arming that is over had caught.
proof fn lemma_a_consumed_arming_is_not_seen(a: World, b: World, t: usize, released: bool, idx: int)
    requires
        may_resume(a, t),
        b.probes.wf(),
        0 <= idx < litmus::CHECKPOINTS,
        same_but_fired(a, b, idx),
    ensures
        same_but_fired(a.run(t, released).0, b.run(t, released).0, idx),
        a.run(t, released).1 == b.run(t, released).1,
    decreases a.books.nodes[t as int].op.steps_left(),
{
    let op = a.books.nodes[t as int].op;
    assert(a.books.node_fits(t as int));
    if released || !waits(a.probes, stands_at(op) as int) {
        steps::lemma_stepped(a.books, t);
        if a.books.yields(t) is None {
            let event = a.books.step_event(t as int);
            let next_a = World { books: a.books.stepped(t), probes: a.probes.noted(event) };
            let next_b = World { books: b.books.stepped(t), probes: b.probes.noted(event) };
            lemma_a_consumed_arming_is_not_seen(next_a, next_b, t, false, idx);
        }
    }
}

/// Parking does not change what a thread does: if it parks, is let go at once and resumes, it comes
/// to the same end, with the same books and the same counters, as if the checkpoint had not been
/// armed.
pub proof fn law_parking_is_transparent(w: World, t: usize, released: bool)
    requires
        may_resume(w, t),
    ensures
        w.run(t, released).1 matches Progress::Parked(idx) ==> {
            let parked = w.run(t, released).0;
            let after_release = World {
                probes: ProbesView {
                    armed: parked.probes.armed.update(idx as int, false),
                    ..parked.probes
                },
                ..parked
            };
            let never_armed = World {
                probes: ProbesView { armed: w.probes.armed.update(idx as int, false), ..w.probes },
                ..w
            };
            &&& same_but_fired(
                after_release.resumed(t).0,
                never_armed.run(t, released).0,
                idx as int,
            )
            &&& after_release.resumed(t).1 == never_armed.run(t, released).1
        },
    decreases w.books.nodes[t as int].op.steps_left(),
{
    let op = w.books.nodes[t as int].op;
    assert(w.books.node_fits(t as int));
    let (parked, progress) = w.run(t, released);
    if let Progress::Parked(idx) = progress {
        law_a_run_parks_at_the_first_checkpoint_that_waits(w, t, released);
        let never_armed = World {
            probes: ProbesView { armed: w.probes.armed.update(idx as int, false), ..w.probes },
            ..w
        };
        if !released && waits(w.probes, stands_at(op) as int) {
            let after_release = World {
                probes: ProbesView {
                    armed: parked.probes.armed.update(idx as int, false),
                    ..parked.probes
                },
                ..parked
            };
            lemma_a_consumed_arming_is_not_seen(after_release, never_armed, t, true, idx as int);
            assert(never_armed.run(t, false) == never_armed.run(t, true));
        } else {
            steps::lemma_stepped(w.books, t);
            let event = w.books.step_event(t as int);
            let next = World { books: w.books.stepped(t), probes: w.probes.noted(event) };
            let next_unarmed = World {
                probes: ProbesView {
                    armed: next.probes.armed.update(idx as int, false),
                    ..next.probes
                },
                ..next
            };
            law_parking_is_transparent(next, t, false);
            assert(next_unarmed.probes =~= never_armed.probes.noted(event));
            assert(!waits(never_armed.probes, stands_at(op) as int) || released);
            assert(never_armed.run(t, released) == next_unarmed.run(t, false));
        }
    }
}

/// The same world with no checkpoint armed.
pub open spec fn disarmed(w: World) -> World {
    World {
        probes: ProbesView {
            armed: Seq::new(litmus::CHECKPOINTS as nat, |i: int| false),
            ..w.probes
        },
        ..w
    }
}

/// A run that does not park does the same as if no checkpoint were armed: an armed checkpoint that
/// a thread does not stop at, or does not come by, is nothing to it.
pub proof fn law_a_run_that_does_not_park_sees_no_checkpoint(w: World, t: usize, released: bool)
    requires
        may_resume(w, t),
    ensures
        w.run(t, released).1 is Done ==> {
            let (x, progress) = w.run(t, released);
            let (y, undisturbed) = disarmed(w).run(t, released);
            &&& progress == undisturbed
            &&& x.books == y.books
            &&& x.probes.counts == y.probes.counts
            &&& x.probes.fired == y.probes.fired
            &&& x.probes.armed == w.probes.armed
        },
    decreases w.books.nodes[t as int].op.steps_left(),
{
    let op = w.books.nodes[t as int].op;
    assert(w.books.node_fits(t as int));
    if released || !waits(w.probes, stands_at(op) as int) {
        steps::lemma_stepped(w.books, t);
        if w.books.yields(t) is None {
            let event = w.books.step_event(t as int);
            let next = World { books: w.books.stepped(t), probes: w.probes.noted(event) };
            law_a_run_that_does_not_park_sees_no_checkpoint(next, t, false);
            assert(disarmed(next).probes =~= disarmed(w).probes.noted(event));
            assert(!waits(disarmed(w).probes, stands_at(op) as int));
            assert(disarmed(w).run(t, released) == disarmed(next).run(t, false));
        }
    }
}

/// A fast load that is let go. If the storage still holds what it claimed, it is confirmed: the
/// guard keeps its debt. If the storage has changed and a writer has paid the debt, the guard is an
/// owned reference to what it claimed. If the storage has changed and nobody has paid, the debt is
/// taken back and the load starts over in the fallback.
pub proof fn law_a_fast_load_goes_on(w: World, t: usize, s: usize, c: usize)
    requires
        let_go(w, t),
        w.books.nodes[t as int].op == (Op::FastClaimed { storage: s, claim: c })
            || w.books.nodes[t as int].op == (Op::FastConfirming { storage: s, claim: c }),
    ensures
        ({
            let b = w.books;
            let p = b.claims[c as int].ptr;
            let (x, progress) = w.resumed(t);
            &&& x.books.storages == b.storages
            &&& none_fired(w.probes, x.probes)
            &&& finished(
                b,
                x.books,
                t as int,
                if b.storages[s as int].ptr != Some(p) && unpaid(b, c as int) {
                    s
                } else {
                    b.nodes[t as int].active_addr
                },
            )
            &&& claims_stay(b, x.books, c as int, c as int)
            &&& if b.storages[s as int].ptr == Some(p) {
                &&& progress == Progress::Done(c)
                &&& x.books.objects == b.objects
                &&& x.books.slots == b.slots
                &&& x.books.claims.len() == b.claims.len()
                &&& x.books.claims[c as int] == (Claim {
                    owner: Owner::Handle,
                    ..b.claims[c as int]
                })
                &&& gained(
                    w.probes,
                    x.probes,
                    |i: int|
                        if i == litmus::FAST_CONFIRMED {
                            1nat
                        } else {
                            0nat
                        },
                )
            } else if !unpaid(b, c as int) {
                &&& progress == Progress::Done(c)
                &&& x.books.objects == b.objects
                &&& x.books.slots == b.slots
                &&& x.books.claims.len() == b.claims.len()
                &&& x.books.claims[c as int] == (Claim {
                    ptr: p,
                    slot: None,
                    owner: Owner::Handle,
                    live: true,
                })
                &&& gained(
                    w.probes,
                    x.probes,
                    |i: int|
                        if i == litmus::FAST_ALREADY_PAID {
                            1nat
                        } else {
                            0nat
                        },
                )
            } else {
                let q = b.storages[s as int].ptr->0;
                let d = b.claims.len() as usize;
                &&& progress == Progress::Done(d)
                &&& recounted(b, x.books, q as int, 1)
                &&& x.books.slots == b.slots.update(b.claims[c as int].slot->0 as int, None)
                &&& !x.books.claims[c as int].live
                &&& x.books.claims.len() == b.claims.len() + 1
                &&& x.books.claims[d as int] == (Claim {
                    ptr: q,
                    slot: None,
                    owner: Owner::Handle,
                    live: true,
                })
                &&& gained(
                    w.probes,
                    x.probes,
                    |i: int|
                        if i == litmus::FALLBACK_CONFIRMED || i == litmus::INTO_INNER_DEBT_PAID {
                            1nat
                        } else {
                            0nat
                        },
                )
            }
        }),
{
    let b = w.books;
    let p = b.claims[c as int].ptr;
    let op = b.nodes[t as int].op;
    assert(b.node_fits(t as int));
    assert(!waits(w.probes, litmus::CP_FAST_CONFIRM as int));
    let confirming = if op is FastClaimed {
        b.stepped(t)
    } else {
        b
    };
    reveal_with_fuel(World::run, 2);
    let w0 = World { books: confirming, ..w };
    assert(confirming.nodes[t as int].op == (Op::FastConfirming { storage: s, claim: c }));
    assert(w.resumed(t) == w0.run(t, true));
    if b.storages[s as int].ptr != Some(p) && unpaid(b, c as int) {
        let k = b.claims[c as int].slot->0 as int;
        let q = b.storages[s as int].ptr->0;
        let d = b.claims.len() as usize;
        let h = books::helping_slot_of(t as int);
        balance::lemma_slot_of(k, t as int);
        steps::lemma_count_in_range(b, q);
        let reserved = confirming.stepped(t);
        assert(reserved.nodes[t as int].op == (Op::Reserved { storage: s }));
        assert(reserved.slots == b.slots.update(k, None));
        let w1 = World { books: reserved, ..w };
        assert(w0.run(t, true) == w1.run(t, false));
        lemma_fallback_runs_out(w1, t, q, d);
        assert(w1.books.slots.update(h, None) =~= w1.books.slots);
    }
}

/// A fallback load from its reservation on, when nobody waits for it and nobody has helped it.
proof fn lemma_fallback_runs_out(w: World, t: usize, p: usize, c: usize)
    requires
        nothing_waits(w.probes),
        w.probes.wf(),
        t < w.books.nodes.len(),
        w.books.claims.len() == c,
        w.books.nodes[t as int].control is Generation,
        0 <= 9 * t + 8 < w.books.slots.len() <= usize::MAX,
        p < w.books.objects.len(),
        w.books.objects[p as int].strong < u128::MAX,
        match w.books.nodes[t as int].op {
            Op::Reserved { storage } => w.books.storages[storage as int].ptr == Some(p),
            Op::Loaded { storage: _, ptr } => ptr == p,
            _ => false,
        },
    ensures
        ({
            let b = w.books;
            let (x, progress) = w.run(t, false);
            &&& progress == Progress::Done(c)
            &&& x.books.storages == b.storages
            &&& none_fired(w.probes, x.probes)
            &&& finished(b, x.books, t as int, b.nodes[t as int].active_addr)
            &&& claims_stay(b, x.books, -1, -1)
            &&& recounted(b, x.books, p as int, 1)
            &&& x.books.slots == b.slots.update(9 * t + 8, None)
            &&& x.books.claims.len() == b.claims.len() + 1
            &&& x.books.claims[c as int] == (Claim {
                ptr: p,
                slot: None,
                owner: Owner::Handle,
                live: true,
            })
            &&& gained(
                w.probes,
                x.probes,
                |i: int|
                    if i == litmus::FALLBACK_CONFIRMED || i == litmus::INTO_INNER_DEBT_PAID {
                        1nat
                    } else {
                        0nat
                    },
            )
        }),
    decreases w.books.nodes[t as int].op.steps_left(),
{
    let b = w.books;
    let h = books::helping_slot_of(t as int);
    assert(!waits(w.probes, litmus::CP_FALLBACK_GEN as int));
    assert(!waits(w.probes, litmus::CP_FALLBACK_CANDIDATE as int));
    assert(!waits(w.probes, litmus::CP_FALLBACK_CONFIRM as int));
    assert(!waits(w.probes, litmus::CP_INTO_INNER as int));
    reveal_with_fuel(World::run, 2);
    match b.nodes[t as int].op {
        Op::Reserved { storage } => {
            let loaded = b.stepped(t);
            assert(loaded.nodes[t as int].op == (Op::Loaded { storage, ptr: p }));
            let next = World { books: loaded, ..w };
            assert(w.run(t, false) == next.run(t, false));
            lemma_fallback_runs_out(next, t, p, c);
        },
        Op::Loaded { storage, ptr } => {
            let published = b.stepped(t);
            assert(published.nodes[t as int].op == (Op::Published { storage, claim: c }));
            let promoting = published.stepped(t);
            assert(promoting.nodes[t as int].op == (Op::Promoting { claim: c }));
            assert(promoting.is_debt(c as int));
            let done = promoting.stepped(t);
            let confirmed = w.probes.noted(Some(litmus::FALLBACK_CONFIRMED));
            let w3 = World { books: published, ..w };
            let w4 = World { books: promoting, probes: confirmed };
            assert(w4.run(t, false).1 == Progress::Done(c));
            assert(w4.run(t, false).0.books == done);
            assert(w3.run(t, false) == w4.run(t, false));
            assert(w.run(t, false) == w3.run(t, false));
            assert(done.slots =~= b.slots.update(h, None));
        },
        _ => {},
    }
}

/// A fallback load that is let go before it has published its debt, and that nobody has helped,
/// returns an owned reference: to what the storage holds now, or to the candidate that it had
/// already read.
pub proof fn law_an_unhelped_fallback_load_goes_on(w: World, t: usize, s: usize)
    requires
        let_go(w, t),
        w.books.nodes[t as int].control is Generation,
        w.books.nodes[t as int].op == (Op::Reserved { storage: s })
            || (w.books.nodes[t as int].op matches Op::Loaded { storage, .. } && storage == s),
    ensures
        ({
            let b = w.books;
            let p = match b.nodes[t as int].op {
                Op::Loaded { storage: _, ptr } => ptr,
                _ => b.storages[s as int].ptr->0,
            };
            let c = b.claims.len() as usize;
            let (x, progress) = w.resumed(t);
            &&& progress == Progress::Done(c)
            &&& x.books.storages == b.storages
            &&& none_fired(w.probes, x.probes)
            &&& finished(b, x.books, t as int, b.nodes[t as int].active_addr)
            &&& claims_stay(b, x.books, -1, -1)
            &&& recounted(b, x.books, p as int, 1)
            &&& x.books.slots == b.slots
            &&& x.books.claims.len() == b.claims.len() + 1
            &&& x.books.claims[c as int] == (Claim {
                ptr: p,
                slot: None,
                owner: Owner::Handle,
                live: true,
            })
            &&& gained(
                w.probes,
                x.probes,
                |i: int|
                    if i == litmus::FALLBACK_CONFIRMED || i == litmus::INTO_INNER_DEBT_PAID {
                        1nat
                    } else {
                        0nat
                    },
            )
        }),
{
    let b = w.books;
    let c = b.claims.len() as usize;
    let p = match b.nodes[t as int].op {
        Op::Loaded { storage: _, ptr } => ptr,
        _ => b.storages[s as int].ptr->0,
    };
    assert(b.node_fits(t as int));
    steps::lemma_count_in_range(b, p);
    assert(!waits(w.probes, stands_at(b.nodes[t as int].op) as int));
    assert(w.resumed(t) == w.run(t, true));
    assert(w.run(t, true) == w.run(t, false)) by {
        reveal_with_fuel(World::run, 1);
    }
    lemma_fallback_runs_out(w, t, p, c);
    assert(b.slots.update(9 * t + 8, None) =~= b.slots);
}

/// A load or promotion that is let go at the last two checkpoints, and that nobody has helped. If
/// its debt is unpaid, it is exchanged for a counted reference; if a writer has paid it, the count
/// is already there. A claim that was counted from the start stays as it is.
pub proof fn law_a_promotion_goes_on(w: World, t: usize, c: usize)
    requires
        let_go(w, t),
        w.books.nodes[t as int].op == (Op::Promoting { claim: c }) || {
            &&& w.books.nodes[t as int].op matches Op::Published { claim, .. } && claim == c
            &&& w.books.nodes[t as int].control is Generation
        },
    ensures
        ({
            let b = w.books;
            let p = b.claims[c as int].ptr;
            let confirming = b.nodes[t as int].op is Published;
            let (x, progress) = w.resumed(t);
            &&& progress == Progress::Done(c)
            &&& x.books.storages == b.storages
            &&& none_fired(w.probes, x.probes)
            &&& finished(b, x.books, t as int, b.nodes[t as int].active_addr)
            &&& claims_stay(b, x.books, c as int, c as int)
            &&& x.books.claims.len() == b.claims.len()
            &&& x.books.claims[c as int] == (Claim {
                ptr: p,
                slot: None,
                owner: Owner::Handle,
                live: true,
            })
            &&& if unpaid(b, c as int) {
                &&& recounted(b, x.books, p as int, 1)
                &&& x.books.slots == b.slots.update(b.claims[c as int].slot->0 as int, None)
            } else {
                &&& x.books.objects == b.objects
                &&& x.books.slots == b.slots
            }
            &&& gained(
                w.probes,
                x.probes,
                |i: int|
                    if i == litmus::FALLBACK_CONFIRMED && confirming {
                        1nat
                    } else if i == litmus::INTO_INNER_DEBT_PAID && unpaid(b, c as int) {
                        1nat
                    } else if i == litmus::INTO_INNER_ALREADY_PAID
                        && b.claims[c as int].slot is Some && !unpaid(b, c as int) {
                        1nat
                    } else {
                        0nat
                    },
            )
        }),
{
    let b = w.books;
    let p = b.claims[c as int].ptr;
    assert(b.node_fits(t as int));
    steps::lemma_count_in_range(b, p);
    assert(!waits(w.probes, litmus::CP_INTO_INNER as int));
    reveal_with_fuel(World::run, 2);
    let confirming = b.nodes[t as int].op is Published;
    let promoting = if confirming {
        b.stepped(t)
    } else {
        b
    };
    let probes = if confirming {
        w.probes.noted(Some(litmus::FALLBACK_CONFIRMED))
    } else {
        w.probes
    };
    assert(promoting.nodes[t as int].op == (Op::Promoting { claim: c }));
    assert(promoting.is_debt(c as int) == unpaid(b, c as int));
    let w1 = World { books: promoting, probes };
    assert(w.resumed(t) == w1.run(t, true));
}

/// A load that a writer has helped returns the replacement, now an owned reference in the reader's
/// hands. Its own debt, if it had published one, is taken back; if a writer has paid that too, the
/// count is given up. What it would have loaded afterwards leaves no trace.
pub proof fn law_a_helped_load_goes_on(w: World, t: usize, r: usize)
    requires
        let_go(w, t),
        w.books.nodes[t as int].control == Control::Replacement(r),
    ensures
        ({
            let b = w.books;
            let (x, progress) = w.resumed(t);
            &&& progress == Progress::Done(r)
            &&& x.books.storages == b.storages
            &&& none_fired(w.probes, x.probes)
            &&& finished(b, x.books, t as int, b.nodes[t as int].active_addr)
            &&& x.books.claims[r as int] == (Claim {
                owner: Owner::Handle,
                ..b.claims[r as int]
            })
            &&& gained(
                w.probes,
                x.probes,
                |i: int|
                    if i == litmus::FALLBACK_UPGRADED {
                        1nat
                    } else {
                        0nat
                    },
            )
            &&& match b.nodes[t as int].op {
                Op::Published { storage: _, claim } => {
                    let p = b.claims[claim as int].ptr;
                    &&& claims_stay(b, x.books, claim as int, r as int)
                    &&& x.books.claims.len() == b.claims.len()
                    &&& !x.books.claims[claim as int].live
                    &&& if unpaid(b, claim as int) {
                        &&& x.books.objects == b.objects
                        &&& x.books.slots == b.slots.update(
                            b.claims[claim as int].slot->0 as int,
                            None,
                        )
                    } else {
                        &&& recounted(b, x.books, p as int, -1)
                        &&& x.books.slots == b.slots
                    }
                },
                _ => {
                    &&& claims_stay(b, x.books, r as int, r as int)
                    &&& x.books.claims.len() == b.claims.len() + 1
                    &&& !x.books.claims.last().live
                    &&& x.books.objects == b.objects
                    &&& x.books.slots == b.slots
                },
            }
        }),
{
    let b = w.books;
    assert(b.node_fits(t as int));
    assert(!waits(w.probes, litmus::CP_FALLBACK_CANDIDATE as int));
    assert(!waits(w.probes, litmus::CP_FALLBACK_CONFIRM as int));
    reveal_with_fuel(World::run, 2);
    match b.nodes[t as int].op {
        Op::Published { storage, claim } => {
            assert(b.claims[claim as int].owner == Owner::Op(t));
            assert(claim != r);
            balance::lemma_given_up(b, claim as int);
        },
        Op::Loaded { storage, ptr } => {
            lemma_helped_before_publishing(w, t, r, storage, ptr);
        },
        Op::Reserved { storage } => {
            let ptr = b.storages[storage as int].ptr->0;
            let loaded = b.stepped(t);
            assert(loaded.nodes[t as int].op == (Op::Loaded { storage, ptr }));
            let w1 = World { books: loaded, ..w };
            assert(w.resumed(t) == w1.run(t, true));
            lemma_helped_before_publishing(w1, t, r, storage, ptr);
        },
        _ => {},
    }
}

proof fn lemma_helped_before_publishing(w: World, t: usize, r: usize, storage: usize, ptr: usize)
    requires
        nothing_waits(w.probes),
        w.probes.wf(),
        t < w.books.nodes.len(),
        w.books.claims.len() < usize::MAX,
        r < w.books.claims.len(),
        w.books.nodes[t as int].op == (Op::Loaded { storage, ptr }),
        w.books.nodes[t as int].control == Control::Replacement(r),
        0 <= 9 * t + 8 < w.books.slots.len() <= usize::MAX,
        w.books.slots[9 * t + 8] is None,
    ensures
        ({
            let b = w.books;
            let (x, progress) = w.run(t, true);
            &&& progress == Progress::Done(r)
            &&& x.books.storages == b.storages
            &&& x.probes == w.probes.noted(Some(litmus::FALLBACK_UPGRADED))
            &&& finished(b, x.books, t as int, b.nodes[t as int].active_addr)
            &&& x.books.claims[r as int] == (Claim {
                owner: Owner::Handle,
                ..b.claims[r as int]
            })
            &&& claims_stay(b, x.books, r as int, r as int)
            &&& x.books.claims.len() == b.claims.len() + 1
            &&& !x.books.claims.last().live
            &&& x.books.objects == b.objects
            &&& x.books.slots == b.slots
        }),
{
    let b = w.books;
    let c = b.claims.len() as usize;
    let h = books::helping_slot_of(t as int);
    assert(!waits(w.probes, litmus::CP_FALLBACK_CONFIRM as int));
    reveal_with_fuel(World::run, 2);
    let published = b.stepped(t);
    assert(published.nodes[t as int].op == (Op::Published { storage, claim: c }));
    assert(published.is_debt(c as int));
    let done = published.stepped(t);
    let w1 = World { books: published, ..w };
    assert(w.run(t, true) == w1.run(t, false));
    assert(w1.run(t, false).0.books == done);
    assert(done.slots =~= b.slots);
}

/// Turning a guard into an owned reference. It parks first if its checkpoint waits, and nothing is
/// paid yet. Else an unpaid debt is exchanged for a counted reference, while a guard whose debt a
/// writer has paid, or that had none, has its count already.
pub proof fn law_into_inner_costs_a_count_for_a_debt(w: World, t: usize, c: usize)
    requires
        w.books.wf(),
        w.probes.wf(),
        w.books.roomy(),
        t < w.books.nodes.len(),
        w.books.nodes[t as int].op is Idle,
        w.books.is_handle(c as int),
    ensures
        ({
            let b = w.books;
            let p = b.claims[c as int].ptr;
            let (x, progress) = w.into_inner(t, c);
            &&& x.books.storages == b.storages
            &&& others_stay(b, x.books, t as int)
            &&& claims_stay(b, x.books, c as int, c as int)
            &&& x.books.claims.len() == b.claims.len()
            &&& if waits(w.probes, litmus::CP_INTO_INNER as int) {
                &&& progress == Progress::Parked(litmus::CP_INTO_INNER)
                &&& only_fired(w.probes, x.probes, litmus::CP_INTO_INNER as int)
                &&& gained_nothing(w.probes, x.probes)
                &&& x.books.objects == b.objects
                &&& x.books.slots == b.slots
                &&& x.books.claims[c as int] == (Claim {
                    owner: Owner::Op(t),
                    ..b.claims[c as int]
                })
                &&& x.books.nodes[t as int].op == (Op::Promoting { claim: c })
            } else {
                &&& progress == Progress::Done(c)
                &&& none_fired(w.probes, x.probes)
                &&& finished(b, x.books, t as int, b.nodes[t as int].active_addr)
                &&& x.books.claims[c as int] == (Claim {
                    ptr: p,
                    slot: None,
                    owner: Owner::Handle,
                    live: true,
                })
                &&& if unpaid(b, c as int) {
                    &&& recounted(b, x.books, p as int, 1)
                    &&& x.books.slots == b.slots.update(b.claims[c as int].slot->0 as int, None)
                } else {
                    &&& x.books.objects == b.objects
                    &&& x.books.slots == b.slots
                }
                &&& gained(
                    w.probes,
                    x.probes,
                    |i: int|
                        if i == litmus::INTO_INNER_DEBT_PAID && unpaid(b, c as int) {
                            1nat
                        } else if i == litmus::INTO_INNER_ALREADY_PAID
                            && b.claims[c as int].slot is Some && !unpaid(b, c as int) {
                            1nat
                        } else {
                            0nat
                        },
                )
            }
        }),
{
    let b = w.books;
    let p = b.claims[c as int].ptr;
    assert(b.node_fits(t as int));
    steps::lemma_count_in_range(b, p);
    reveal_with_fuel(World::run, 2);
    let promoting = b.promoting(t, c);
    assert(promoting.nodes[t as int].op == (Op::Promoting { claim: c }));
    assert(promoting.is_debt(c as int) == unpaid(b, c as int));
}

} // verus!
