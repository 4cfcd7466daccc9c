//! What a load gives and what it costs, in terms of the slots, counts and counters that a driver
//! can look at.

use vstd::prelude::*;

use crate::debt::balance;
use crate::debt::books;
use crate::debt::books::{Books, Claim, Control, Node, Op, Owner};
use crate::debt::flow::{Progress, World};
use crate::debt::steps;
use crate::litmus;
use crate::litmus::ProbesView;

verus! {

/// The checkpoint is armed and nobody has parked at it since: the next arrival parks.
pub open spec fn waits(v: ProbesView, idx: int) -> bool {
    v.armed[idx] && !v.fired[idx]
}

/// No checkpoint waits for anybody.
pub open spec fn nothing_waits(v: ProbesView) -> bool {
    forall|idx: int| 0 <= idx < litmus::CHECKPOINTS ==> !#[trigger] waits(v, idx)
}

/// Every counter has gained this many events, modulo 2^64.
pub open spec fn gained(
    before: ProbesView,
    after: ProbesView,
    events: spec_fn(int) -> nat,
) -> bool {
    &&& after.counts.len() == before.counts.len()
    &&& forall|i: int|
        0 <= i < litmus::COUNTERS ==> #[trigger] after.counts[i] as int == (before.counts[i]
            + events(i)) % 0x1_0000_0000_0000_0000
}

/// No counter has moved.
pub open spec fn gained_nothing(before: ProbesView, after: ProbesView) -> bool {
    after.counts == before.counts
}

/// Nothing happened at the checkpoints, but for one at which a thread parked.
pub open spec fn only_fired(before: ProbesView, after: ProbesView, idx: int) -> bool {
    after.armed == before.armed && after.fired == before.fired.update(idx, true)
}

/// Nothing happened at the checkpoints.
pub open spec fn none_fired(before: ProbesView, after: ProbesView) -> bool {
    after.armed == before.armed && after.fired == before.fired
}

/// The objects are the same, but that one has so many counted references more or less. It has been
/// dropped once more if none is left.
pub open spec fn recounted(before: Books, after: Books, p: int, change: int) -> bool {
    &&& after.objects.len() == before.objects.len()
    &&& forall|q: int|
        0 <= q < before.objects.len() && q != p ==> #[trigger] after.objects[q]
            == before.objects[q]
    &&& after.objects[p].id == before.objects[p].id
    &&& after.objects[p].strong == before.objects[p].strong + change
    &&& after.objects[p].drops == before.objects[p].drops + (if change < 0
        && before.objects[p].strong + change == 0 {
        1int
    } else {
        0int
    })
}

/// Only this thread has moved, and it is now in the middle of nothing, with its control idle and
/// with the address that it published last.
pub open spec fn finished(before: Books, after: Books, t: int, active_addr: usize) -> bool {
    &&& others_stay(before, after, t)
    &&& after.nodes[t] == (Node { control: Control::Idle, active_addr, op: Op::Idle })
}

/// The other threads are where they were.
pub open spec fn others_stay(before: Books, after: Books, t: int) -> bool {
    &&& after.nodes.len() == before.nodes.len()
    &&& forall|u: int|
        0 <= u < before.nodes.len() && u != t ==> #[trigger] after.nodes[u] == before.nodes[u]
}

/// A fast slot of thread `t` is free.
pub open spec fn has_free_fast_slot(b: Books, t: int) -> bool {
    exists|k: int| 9 * t <= k < 9 * t + 8 && #[trigger] b.slots[k] is None
}

/// Whether a fast load could find a slot: with all eight taken, none is found, and with one free,
/// one is.
pub proof fn lemma_first_free_complete(b: Books, from: int, n: nat)
    ensures
        match b.first_free(from, n) {
            Some(k) => from <= k < from + n && b.slots[k] is None,
            None => forall|k: int| from <= k < from + n ==> #[trigger] b.slots[k] is Some,
        },
    decreases n,
{
    if n > 0 && b.slots[from] is Some {
        lemma_first_free_complete(b, from + 1, (n - 1) as nat);
    }
}

/// What is asked of a load: the thread is idle, the storage holds something, and there is room.
pub open spec fn may_load(w: World, t: usize, s: usize) -> bool {
    &&& w.books.wf()
    &&& w.probes.wf()
    &&& w.books.roomy()
    &&& w.books.claims.len() < usize::MAX
    &&& t < w.books.nodes.len()
    &&& w.books.nodes[t as int].op is Idle
    &&& s < w.books.storages.len()
    &&& w.books.storages[s as int].ptr is Some
}

/// A load from a hybrid storage by a thread with a free fast slot makes a debt there: no count
/// changes, and the guard names the slot and the object that the storage holds. It parks right
/// after the claim if the first checkpoint waits, else before the confirming read if the second
/// does, else it is done and counted as confirmed.
pub proof fn law_a_load_takes_a_free_fast_slot(w: World, t: usize, s: usize) -> (k: int)
    requires
        may_load(w, t, s),
        w.books.storages[s as int].strategy is Hybrid,
        has_free_fast_slot(w.books, t as int),
    ensures
        9 * t <= k < 9 * t + 8,
        w.books.slots[k] is None,
        ({
            let b = w.books;
            let p = b.storages[s as int].ptr->0;
            let c = b.claims.len() as usize;
            let (x, progress) = w.load(t, s);
            &&& x.books.storages == b.storages
            &&& x.books.objects == b.objects
            &&& x.books.slots == b.slots.update(k, Some(p))
            &&& others_stay(b, x.books, t as int)
            &&& x.books.nodes[t as int].control is Idle
            &&& x.books.nodes[t as int].active_addr == b.nodes[t as int].active_addr
            &&& x.books.claims.len() == b.claims.len() + 1
            &&& forall|e: int|
                0 <= e < b.claims.len() ==> #[trigger] x.books.claims[e] == b.claims[e]
            &&& x.books.claims[c as int].ptr == p
            &&& x.books.claims[c as int].slot == Some(k as usize)
            &&& x.books.claims[c as int].live
            &&& if waits(w.probes, litmus::CP_FAST_CLAIMED as int) {
                &&& progress == Progress::Parked(litmus::CP_FAST_CLAIMED)
                &&& only_fired(w.probes, x.probes, litmus::CP_FAST_CLAIMED as int)
                &&& gained_nothing(w.probes, x.probes)
                &&& x.books.claims[c as int].owner == Owner::Op(t)
                &&& x.books.nodes[t as int].op == (Op::FastClaimed { storage: s, claim: c })
            } else if waits(w.probes, litmus::CP_FAST_CONFIRM as int) {
                &&& progress == Progress::Parked(litmus::CP_FAST_CONFIRM)
                &&& only_fired(w.probes, x.probes, litmus::CP_FAST_CONFIRM as int)
                &&& gained_nothing(w.probes, x.probes)
                &&& x.books.claims[c as int].owner == Owner::Op(t)
                &&& x.books.nodes[t as int].op == (Op::FastConfirming { storage: s, claim: c })
            } else {
                &&& progress == Progress::Done(c)
                &&& none_fired(w.probes, x.probes)
                &&& gained(
                    w.probes,
                    x.probes,
                    |i: int|
                        if i == litmus::FAST_CONFIRMED {
                            1nat
                        } else {
                            0nat
                        },
                )
                &&& x.books.claims[c as int].owner is Handle
                &&& x.books.nodes[t as int].op is Idle
            }
        }),
{
    let b = w.books;
    let p = b.storages[s as int].ptr->0;
    lemma_first_free_complete(b, 9 * t, 8);
    assert(b.node_fits(t as int));
    let k = b.fast_slot_for(t as int, s as int)->0;
    reveal_with_fuel(World::run, 3);
    let x = w.load(t, s).0;
    assert(x.books.slots =~= b.slots.update(k, Some(p)));
    k
}

/// A load from a hybrid storage takes the fallback only if all eight fast slots of its thread are
/// taken, and one from a storage without fast slots always does. On the fallback the object that
/// the storage holds gets one counted reference more, and no debt is left. While the load is parked
/// on the way no count has changed: first only its generation is published, then its debt stands in
/// the helping slot, then it is confirmed.
pub proof fn law_a_load_without_a_fast_slot_falls_back(w: World, t: usize, s: usize)
    requires
        may_load(w, t, s),
        w.books.storages[s as int].strategy is FillFastSlots || (
        w.books.storages[s as int].strategy is Hybrid && !has_free_fast_slot(w.books, t as int)),
    ensures
        ({
            let b = w.books;
            let p = b.storages[s as int].ptr->0;
            let c = b.claims.len() as usize;
            let h = 9 * t + 8;
            let (x, progress) = w.load(t, s);
            &&& x.books.storages == b.storages
            &&& others_stay(b, x.books, t as int)
            &&& forall|e: int|
                0 <= e < b.claims.len() ==> #[trigger] x.books.claims[e] == b.claims[e]
            &&& if waits(w.probes, litmus::CP_FALLBACK_GEN as int) {
                &&& progress == Progress::Parked(litmus::CP_FALLBACK_GEN)
                &&& only_fired(w.probes, x.probes, litmus::CP_FALLBACK_GEN as int)
                &&& unclaimed(w, x, t as int, s)
                &&& x.books.nodes[t as int].op == (Op::Reserved { storage: s })
            } else if waits(w.probes, litmus::CP_FALLBACK_CANDIDATE as int) {
                &&& progress == Progress::Parked(litmus::CP_FALLBACK_CANDIDATE)
                &&& only_fired(w.probes, x.probes, litmus::CP_FALLBACK_CANDIDATE as int)
                &&& unclaimed(w, x, t as int, s)
                &&& x.books.nodes[t as int].op == (Op::Loaded { storage: s, ptr: p })
            } else if waits(w.probes, litmus::CP_FALLBACK_CONFIRM as int) {
                &&& progress == Progress::Parked(litmus::CP_FALLBACK_CONFIRM)
                &&& only_fired(w.probes, x.probes, litmus::CP_FALLBACK_CONFIRM as int)
                &&& gained_nothing(w.probes, x.probes)
                &&& published(b, x.books, t, p)
                &&& x.books.nodes[t as int].control is Generation
                &&& x.books.nodes[t as int].active_addr == s
                &&& x.books.nodes[t as int].op == (Op::Published { storage: s, claim: c })
            } else if waits(w.probes, litmus::CP_INTO_INNER as int) {
                &&& progress == Progress::Parked(litmus::CP_INTO_INNER)
                &&& only_fired(w.probes, x.probes, litmus::CP_INTO_INNER as int)
                &&& gained(
                    w.probes,
                    x.probes,
                    |i: int|
                        if i == litmus::FALLBACK_CONFIRMED {
                            1nat
                        } else {
                            0nat
                        },
                )
                &&& published(b, x.books, t, p)
                &&& x.books.nodes[t as int].control is Idle
                &&& x.books.nodes[t as int].active_addr == s
                &&& x.books.nodes[t as int].op == (Op::Promoting { claim: c })
            } else {
                &&& progress == Progress::Done(c)
                &&& none_fired(w.probes, x.probes)
                &&& gained(
                    w.probes,
                    x.probes,
                    |i: int|
                        if i == litmus::FALLBACK_CONFIRMED || i == litmus::INTO_INNER_DEBT_PAID {
                            1nat
                        } else {
                            0nat
                        },
                )
                &&& recounted(b, x.books, p as int, 1)
                &&& x.books.slots == b.slots
                &&& x.books.claims.len() == b.claims.len() + 1
                &&& x.books.claims[c as int] == (Claim {
                    ptr: p,
                    slot: None,
                    owner: Owner::Handle,
                    live: true,
                })
                &&& finished(b, x.books, t as int, s)
            }
        }),
{
    let b = w.books;
    let p = b.storages[s as int].ptr->0;
    let c = b.claims.len() as usize;
    let h = books::helping_slot_of(t as int);
    lemma_first_free_complete(b, 9 * t, 8);
    assert(b.fast_slot_for(t as int, s as int) is None) by {
        if b.storages[s as int].strategy is Hybrid && b.first_free(9 * t as int, 8) is Some {
            assert(b.slots[b.first_free(9 * t as int, 8)->0] is None);
        }
    }
    assert(b.node_fits(t as int));
    balance::lemma_stored_alive(b, s as int);
    steps::lemma_count_in_range(b, p);
    reveal_with_fuel(World::run, 2);
    let reserved = b.reserved(t as int, s);
    let loaded = reserved.stepped(t);
    assert(loaded.nodes[t as int].op == (Op::Loaded { storage: s, ptr: p }));
    let published = loaded.stepped(t);
    assert(published.nodes[t as int].op == (Op::Published { storage: s, claim: c }));
    assert(published.slots == b.slots.update(h, Some(p)));
    let promoting = published.stepped(t);
    assert(promoting.nodes[t as int].op == (Op::Promoting { claim: c }));
    assert(promoting.is_debt(c as int));
    let done = promoting.stepped(t);
    assert(done.slots =~= b.slots);
    let confirmed = w.probes.noted(Some(litmus::FALLBACK_CONFIRMED));
    let w1 = World { books: reserved, ..w };
    let w2 = World { books: loaded, ..w };
    let w3 = World { books: published, ..w };
    let w4 = World { books: promoting, probes: confirmed };
    assert(w.load(t, s) == w1.run(t, false));
    if !waits(w.probes, litmus::CP_FALLBACK_GEN as int) {
        assert(w1.run(t, false) == w2.run(t, false));
        if !waits(w.probes, litmus::CP_FALLBACK_CANDIDATE as int) {
            assert(w2.run(t, false) == w3.run(t, false));
            if !waits(w.probes, litmus::CP_FALLBACK_CONFIRM as int) {
                assert(w3.run(t, false) == w4.run(t, false));
                if !waits(w.probes, litmus::CP_INTO_INNER as int) {
                    assert(w4.run(t, false).0.books == done);
                }
            }
        }
    }
}

/// A fallback load that has published its generation and nothing else.
pub open spec fn unclaimed(w: World, x: World, t: int, s: usize) -> bool {
    &&& gained_nothing(w.probes, x.probes)
    &&& x.books.objects == w.books.objects
    &&& x.books.slots == w.books.slots
    &&& x.books.claims == w.books.claims
    &&& x.books.nodes[t].control is Generation
    &&& x.books.nodes[t].active_addr == s
}

/// A fallback load whose debt on `p` stands in the helping slot of its thread.
pub open spec fn published(before: Books, after: Books, t: usize, p: usize) -> bool {
    &&& after.objects == before.objects
    &&& after.slots == before.slots.update(9 * t + 8, Some(p))
    &&& after.claims.len() == before.claims.len() + 1
    &&& after.claims.last().ptr == p
    &&& after.claims.last().slot matches Some(k) && k == 9 * t + 8
    &&& after.claims.last().owner == Owner::Op(t)
    &&& after.claims.last().live
}

/// A load from a locked storage takes one counted reference. It passes no checkpoint, makes no debt
/// and counts nothing.
pub proof fn law_a_locked_load_takes_a_count(w: World, t: usize, s: usize)
    requires
        may_load(w, t, s),
        w.books.storages[s as int].strategy is RwLock,
    ensures
        ({
            let b = w.books;
            let p = b.storages[s as int].ptr->0;
            let (x, progress) = w.load(t, s);
            &&& progress == Progress::Done(b.claims.len() as usize)
            &&& x.probes == w.probes
            &&& x.books.storages == b.storages
            &&& x.books.nodes == b.nodes
            &&& x.books.slots == b.slots
            &&& recounted(b, x.books, p as int, 1)
            &&& x.books.claims == b.claims.push(
                Claim { ptr: p, slot: None, owner: Owner::Handle, live: true },
            )
        }),
{
    let b = w.books;
    let p = b.storages[s as int].ptr->0;
    steps::lemma_count_in_range(b, p);
}

} // verus!
