//! What the debt protocol promises to readers and writers.

use vstd::prelude::*;

use crate::debt::balance;
use crate::debt::books;
use crate::debt::books::{Books, Claim, Control, Op, Owner};
use crate::debt::flow;
use crate::debt::flow::{Progress, World};
use crate::debt::steps;
use crate::debt::tally;
use crate::debt::writes;
use crate::litmus;

verus! {

/// While a reference or guard is there, the object that it protects has not been dropped, whatever
/// has been written since.
pub proof fn law_a_handle_protects_its_object(b: Books, c: int)
    requires
        b.at_rest(),
        b.is_handle(c),
    ensures
        b.objects[b.claims[c].ptr as int].strong > 0,
        b.objects[b.claims[c].ptr as int].drops == 0,
{
    balance::lemma_claim_alive(b, c);
}

/// The same holds of what a load under way protects, at every point where it may be parked, unless
/// a writer has handed it a replacement: then the load does not use what it had loaded itself.
pub proof fn law_a_parked_load_protects_its_object(b: Books, c: int)
    requires
        b.at_rest(),
        b.is_good(c),
    ensures
        b.objects[b.claims[c].ptr as int].strong > 0,
        b.objects[b.claims[c].ptr as int].drops == 0,
{
    balance::lemma_claim_alive(b, c);
}

/// What a storage holds has not been dropped.
pub proof fn law_a_storage_protects_its_object(b: Books, s: usize)
    requires
        b.at_rest(),
        b.is_open(s),
    ensures
        b.objects[b.storages[s as int].ptr->0 as int].strong > 0,
        b.objects[b.storages[s as int].ptr->0 as int].drops == 0,
{
    balance::lemma_stored_alive(b, s as int);
}

/// An object is never dropped twice, and it is dropped as soon as no storage holds it and no claim
/// on it is left.
pub proof fn law_an_object_is_dropped_exactly_once(b: Books, p: usize)
    requires
        b.at_rest(),
        p < b.objects.len(),
    ensures
        b.objects[p as int].drops <= 1,
        b.stored(p) == 0 && b.claimed(p) == 0 ==> b.objects[p as int].drops == 1,
        b.objects[p as int].drops == 1 ==> b.stored(p) == 0,
{
    assert(b.balanced(p));
    balance::lemma_owed_within_claims(b, p);
}

/// The count of an object is the number of storages and claims that it has, less the debts on it: a
/// debt is a reference that nobody has counted.
pub proof fn law_every_reference_is_counted_or_owed(b: Books, p: usize)
    requires
        b.at_rest(),
        p < b.objects.len(),
    ensures
        b.objects[p as int].strong + b.owed(p) == b.stored(p) + b.claimed(p),
        b.owed(p) <= b.claimed(p),
{
    assert(b.balanced(p));
    balance::lemma_owed_within_claims(b, p);
}

/// A write to a storage that owes its readers pays every debt on what the storage held: all
/// protection that is left of it is counted.
pub proof fn law_a_write_pays_every_debt(w: World, t: int, s: usize, new: Option<usize>)
    requires
        w.at_rest(),
        w.books.roomy(),
        w.books.claims.len() + 1 + w.books.nodes.len() <= usize::MAX,
        w.books.loadable(s as int),
        new matches Some(c) ==> w.books.is_owned(c as int),
        new is None ==> w.books.quiet(s as int),
    ensures
        w.written(t, s, new).books.owed(w.books.storages[s as int].ptr->0) == 0,
{
    flow::lemma_written(w, t, s, new);
    let x = w.written(t, s, new);
    let q = w.books.storages[s as int].ptr->0;
    assert forall|k: int| 0 <= k < x.books.slots.len() implies !books::names(q)(
        #[trigger] x.books.slots[k],
    ) by {
        assert(x.books.slots[k] != w.books.storages[s as int].ptr);
    }
    tally::lemma_none(x.books.slots, books::names(q));
}

/// What is at the loads on the storage when the first `n` thread nodes have been walked: each that
/// needed help has been handed an owned reference to what the storage holds.
proof fn lemma_walked_hands_over(w: World, t: int, q: usize, s: usize, n: nat, u: int)
    requires
        w.books.wf(),
        w.probes.wf(),
        w.books.roomy(),
        w.books.pending == Some((q, s)),
        n <= w.books.nodes.len(),
        w.books.claims.len() + n <= usize::MAX,
        0 <= u < w.books.nodes.len(),
        w.books.needs_help(u, s),
    ensures
        ({
            let x = w.walked(t, q, s, n);
            if u < n {
                &&& x.books.nodes[u].control matches Control::Replacement(r)
                &&& r < x.books.claims.len()
                &&& Some(x.books.claims[r as int].ptr) == w.books.storages[s as int].ptr
            } else {
                x.books.nodes[u] == w.books.nodes[u]
            }
        }),
    decreases n,
{
    if n > 0 {
        let v = (n - 1) as nat;
        lemma_walked_hands_over(w, t, q, s, v, u);
        flow::lemma_walked(w, t, q, s, v);
        let x = w.walked(t, q, s, v);
        let y = x.helped(t, v as usize, s);
        assert(v < usize::MAX) by {
            assert(x.books.slots.len() <= usize::MAX);
        }
        if x.books.needs_help(v as int, s) {
            writes::lemma_helped(x.books, v as usize);
            assert(x.books.node_fits(v as int));
        }
        flow::lemma_scanned(y, q, s, books::SLOTS * v, books::SLOTS as nat);
    }
}

/// A writer that finds a half-finished fallback load on its storage finishes it for the reader: the
/// reader is handed an owned reference to the new value. The writer does not wait for the reader,
/// who may be parked at any point between publishing its generation and confirming it.
pub proof fn law_a_writer_finishes_the_load_for_the_reader(
    w: World,
    t: int,
    s: usize,
    new: usize,
    u: int,
)
    requires
        w.at_rest(),
        w.books.roomy(),
        w.books.claims.len() + 1 + w.books.nodes.len() <= usize::MAX,
        w.books.loadable(s as int),
        w.books.is_owned(new as int),
        0 <= u < w.books.nodes.len(),
        w.books.needs_help(u, s),
    ensures
        ({
            let x = w.written(t, s, Some(new)).books;
            &&& x.nodes[u].op == w.books.nodes[u].op
            &&& x.nodes[u].control matches Control::Replacement(r)
            &&& x.claims[r as int].live
            &&& x.claims[r as int].slot is None
            &&& x.claims[r as int].ptr == w.books.claims[new as int].ptr
        }),
{
    let q = w.books.storages[s as int].ptr->0;
    flow::lemma_written(w, t, s, Some(new));
    writes::lemma_opened(w.books, s, Some(new));
    let y = World { books: w.books.opened(s, Some(new)), ..w };
    lemma_walked_hands_over(y, t, q, s, w.books.nodes.len(), u);
    let x = w.written(t, s, Some(new)).books;
    assert(x.node_fits(u));
}

/// A reader that has been handed a replacement returns it, whatever it had loaded itself.
pub proof fn law_a_helped_reader_returns_the_replacement(
    w: World,
    t: usize,
    r: usize,
    released: bool,
)
    requires
        w.at_rest(),
        w.books.roomy(),
        w.books.claims.len() + w.books.nodes[t as int].op.claims_ahead() <= usize::MAX,
        t < w.books.nodes.len(),
        w.books.nodes[t as int].control == Control::Replacement(r),
    ensures
        ({
            let (x, progress) = w.run(t, released);
            &&& progress is Done ==> progress == Progress::Done(r)
            &&& progress is Parked ==> x.books.nodes[t as int].control == Control::Replacement(r)
            &&& x.books.claims[r as int].ptr == w.books.claims[r as int].ptr
        }),
    decreases w.books.nodes[t as int].op.steps_left(),
{
    let b = w.books;
    assert(b.node_fits(t as int));
    let op = b.nodes[t as int].op;
    if released || !w.probes.parks(op.checkpoint() as int) {
        let d = b.stepped(t);
        steps::lemma_stepped(b, t);
        if b.yields(t) is None {
            let next = World { books: d, probes: w.probes.noted(b.step_event(t as int)) };
            law_a_helped_reader_returns_the_replacement(next, t, r, false);
        }
    }
}

/// A load that is neither parked nor raced returns what the storage holds.
pub proof fn law_an_undisturbed_load_returns_what_is_stored(w: World, t: usize, s: usize)
    requires
        w.at_rest(),
        w.probes.lets_all_pass(),
        w.books.roomy(),
        w.books.claims.len() + 2 <= usize::MAX,
        t < w.books.nodes.len(),
        w.books.nodes[t as int].op is Idle,
        w.books.is_open(s),
    ensures
        w.load(t, s).1 matches Progress::Done(c) && Some(w.load(t, s).0.books.claims[c as int].ptr)
            == w.books.storages[s as int].ptr,
{
    flow::lemma_load(w, t, s);
    lemma_load_outcome(w, t, s);
}

/// What an undisturbed load does: it makes one debt in a fast slot, or it takes one counted
/// reference.
pub proof fn lemma_load_outcome(w: World, t: usize, s: usize)
    requires
        w.books.wf(),
        w.probes.lets_all_pass(),
        w.books.slots.len() <= usize::MAX,
        w.books.claims.len() < usize::MAX,
        t < w.books.nodes.len(),
        w.books.nodes[t as int].op is Idle,
        w.books.is_open(s),
    ensures
        ({
            let b = w.books;
            let p = b.storages[s as int].ptr->0;
            let (x, progress) = w.load(t, s);
            let fast = b.fast_slot_for(t as int, s as int);
            &&& progress == Progress::Done(b.claims.len() as usize)
            &&& x.books.storages == b.storages
            &&& x.books.nodes.len() == b.nodes.len()
            &&& x.books.nodes[t as int].op is Idle
            &&& x.books.claims == b.claims.push(
                Claim {
                    ptr: p,
                    slot: match fast {
                        Some(k) => Some(k as usize),
                        None => None,
                    },
                    owner: Owner::Handle,
                    live: true,
                },
            )
            &&& match fast {
                Some(k) => {
                    &&& x.books.objects == b.objects
                    &&& x.books.slots == b.slots.update(k, Some(p))
                    &&& x.probes == w.probes.counted(litmus::FAST_CONFIRMED as int)
                },
                None => {
                    &&& x.books.objects == b.raised(p).objects
                    &&& x.books.slots == b.slots
                    &&& x.probes == (if b.storages[s as int].strategy.owes() {
                        w.probes.counted(litmus::FALLBACK_CONFIRMED as int).counted(
                            litmus::INTO_INNER_DEBT_PAID as int,
                        )
                    } else {
                        w.probes
                    })
                },
            }
        }),
{
    let b = w.books;
    let p = b.storages[s as int].ptr->0;
    let c = b.claims.len() as usize;
    flow::lemma_fast_slot(b, t as int, s as int);
    assert(b.node_fits(t as int));
    reveal_with_fuel(World::run, 6);
    if b.storages[s as int].strategy.owes() {
        match b.fast_slot_for(t as int, s as int) {
            Some(k) => {
                let x = w.load(t, s).0;
                assert(x.books.slots =~= b.slots.update(k, Some(p)));
                assert(x.books.claims =~= b.claims.push(
                    Claim { ptr: p, slot: Some(k as usize), owner: Owner::Handle, live: true },
                ));
            },
            None => {
                let h = books::helping_slot_of(t as int);
                let reserved = b.reserved(t as int, s);
                let loaded = reserved.stepped(t);
                assert(loaded.nodes[t as int].op == (Op::Loaded { storage: s, ptr: p }));
                let published = loaded.stepped(t);
                assert(published.nodes[t as int].op == (Op::Published { storage: s, claim: c }));
                assert(published.slots == b.slots.update(h, Some(p)));
                let promoting = published.stepped(t);
                assert(promoting.nodes[t as int].op == (Op::Promoting { claim: c }));
                assert(promoting.is_debt(c as int));
                let done = promoting.stepped(t);
                assert(done.slots =~= b.slots);
                assert(done.claims =~= b.claims.push(
                    Claim { ptr: p, slot: None, owner: Owner::Handle, live: true },
                ));
                let confirmed = w.probes.noted(Some(litmus::FALLBACK_CONFIRMED));
                assert(!w.probes.parks(litmus::CP_INTO_INNER as int));
                let w1 = World { books: reserved, ..w };
                let w2 = World { books: loaded, ..w };
                let w3 = World { books: published, ..w };
                let w4 = World { books: promoting, probes: confirmed };
                assert(w4.run(t, false).1 == Progress::Done(c));
                assert(w4.run(t, false).0.books == done);
                assert(w3.run(t, false) == w4.run(t, false));
                assert(w2.run(t, false) == w3.run(t, false));
                assert(w1.run(t, false) == w2.run(t, false));
                assert(w.load(t, s) == w1.run(t, false));
            },
        }
    }
}

/// The replacement that a writer hands over is the result of a full load of its own, turned into an
/// owned reference over the same probes: the same counts, debts, storages, claims and events, with
/// the reference in the reader's hands and one more event for the help itself.
pub proof fn law_help_is_a_load_by_the_writer(w: World, t: usize, u: usize, s: usize)
    requires
        w.books.wf(),
        w.probes.lets_all_pass(),
        w.books.roomy(),
        w.books.claims.len() < usize::MAX,
        t < w.books.nodes.len(),
        w.books.nodes[t as int].op is Idle,
        u < w.books.nodes.len(),
        w.books.needs_help(u as int, s),
    ensures
        ({
            let c = w.books.claims.len() as usize;
            let (x, loaded) = w.load(t, s);
            let (y, owned) = x.into_inner(t, c);
            let helped = w.helped(t as int, u, s);
            &&& loaded == Progress::Done(c)
            &&& owned == Progress::Done(c)
            &&& helped.books.objects == y.books.objects
            &&& helped.books.slots == y.books.slots
            &&& helped.books.storages == y.books.storages
            &&& helped.books.claims == y.books.claims.update(
                c as int,
                y.books.claims[c as int].passed_to(Owner::Handover(u)),
            )
            &&& helped.books.nodes[u as int].control == Control::Replacement(c)
            &&& helped.probes == y.probes.counted(litmus::HELP_SUCCESS as int)
        }),
{
    let b = w.books;
    let p = b.storages[s as int].ptr->0;
    let c = b.claims.len() as usize;
    assert(b.node_fits(u as int));
    lemma_load_outcome(w, t, s);
    flow::lemma_fast_slot(b, t as int, s as int);
    let (x, _) = w.load(t, s);
    assert(!w.probes.parks(litmus::CP_INTO_INNER as int));
    assert(!x.probes.parks(litmus::CP_INTO_INNER as int));
    let promoting = World { books: x.books.promoting(t, c), ..x };
    assert(promoting.books.nodes[t as int].op == (Op::Promoting { claim: c }));
    let (y, owned) = x.into_inner(t, c);
    assert(y.books == promoting.books.stepped(t));
    assert(y.books.slots =~= b.slots);
    assert(y.books.claims =~= b.claims.push(
        Claim { ptr: p, slot: None, owner: Owner::Handle, live: true },
    ));
    let helped = w.helped(t as int, u, s);
    assert(helped.books.claims =~= y.books.claims.update(
        c as int,
        y.books.claims[c as int].passed_to(Owner::Handover(u)),
    ));
}

/// Giving up a guard undoes the load: the counts, the debts and the storages are as before.
pub proof fn law_dropping_a_guard_undoes_the_load(w: World, t: usize, s: usize)
    requires
        w.at_rest(),
        w.probes.lets_all_pass(),
        w.books.roomy(),
        w.books.claims.len() + 2 <= usize::MAX,
        t < w.books.nodes.len(),
        w.books.nodes[t as int].op is Idle,
        w.books.is_open(s),
    ensures
        ({
            let (x, progress) = w.load(t, s);
            let y = x.dropped(w.books.claims.len() as int);
            &&& progress == Progress::Done(w.books.claims.len() as usize)
            &&& y.books.objects == w.books.objects
            &&& y.books.slots == w.books.slots
            &&& y.books.storages == w.books.storages
        }),
{
    let b = w.books;
    let p = b.storages[s as int].ptr->0;
    flow::lemma_load(w, t, s);
    lemma_load_outcome(w, t, s);
    flow::lemma_fast_slot(b, t as int, s as int);
    balance::lemma_stored_alive(b, s as int);
    steps::lemma_count_in_range(b, p);
    let (x, _) = w.load(t, s);
    let y = x.dropped(b.claims.len() as int);
    assert(x.books.claims.last() == x.books.claims[b.claims.len() as int]);
    assert(x.books.claims[b.claims.len() as int].ptr == p);
    assert(y.books.slots =~= b.slots);
    assert(y.books.objects =~= b.objects);
}

/// However a storage protects its readers, a load that is turned into an owned reference costs one
/// count and leaves no debt.
pub proof fn law_an_owned_load_costs_one_count(w: World, t: usize, s: usize)
    requires
        w.at_rest(),
        w.probes.lets_all_pass(),
        w.books.roomy(),
        w.books.claims.len() + 2 <= usize::MAX,
        t < w.books.nodes.len(),
        w.books.nodes[t as int].op is Idle,
        w.books.is_open(s),
    ensures
        ({
            let c = w.books.claims.len() as usize;
            let (x, loaded) = w.load(t, s);
            let (y, owned) = x.into_inner(t, c);
            &&& loaded == Progress::Done(c)
            &&& owned == Progress::Done(c)
            &&& y.books.is_owned(c as int)
            &&& y.books.objects == w.books.raised(w.books.storages[s as int].ptr->0).objects
            &&& y.books.slots == w.books.slots
            &&& y.books.storages == w.books.storages
        }),
{
    let b = w.books;
    let c = b.claims.len() as usize;
    flow::lemma_load(w, t, s);
    lemma_load_outcome(w, t, s);
    flow::lemma_fast_slot(b, t as int, s as int);
    let (x, _) = w.load(t, s);
    assert(x.books.claims.last() == x.books.claims[c as int]);
    assert(!w.probes.parks(litmus::CP_INTO_INNER as int));
    assert(!x.probes.parks(litmus::CP_INTO_INNER as int));
    flow::lemma_into_inner(x, t, c);
    let (y, _) = x.into_inner(t, c);
    assert(y.books.slots =~= b.slots);
    assert(y.books.objects =~= b.raised(b.storages[s as int].ptr->0).objects);
}

/// A compare-and-swap that finds another object changes neither the storages nor any count but that
/// of the rejected candidate, which it gives up.
pub proof fn law_a_rejected_candidate_is_given_up(
    w: World,
    t: int,
    s: usize,
    guard: usize,
    current: int,
    new: usize,
)
    requires
        w.at_rest(),
        w.books.is_owned(new as int),
        w.books.claims[guard as int].ptr != w.books.claims[current].ptr,
    ensures
        ({
            let (x, result) = w.decided(t, s, guard, current, new);
            let p = w.books.claims[new as int].ptr;
            &&& result == Some(guard)
            &&& x.books.storages == w.books.storages
            &&& x.books.slots == w.books.slots
            &&& x.books.objects == w.books.lowered(p).objects
        }),
{
}

/// A compare-and-swap that wins puts the candidate in place and pays every debt on what it
/// displaced, like any other write.
pub proof fn law_a_won_exchange_pays_every_debt(
    w: World,
    t: int,
    s: usize,
    guard: usize,
    current: int,
    new: usize,
)
    requires
        w.at_rest(),
        w.books.roomy(),
        w.books.claims.len() + 1 + w.books.nodes.len() <= usize::MAX,
        w.books.loadable(s as int),
        w.books.is_owned(new as int),
        w.books.is_handle(guard as int),
        guard != new,
        w.books.claims[guard as int].ptr == w.books.claims[current].ptr,
        w.books.storages[s as int].ptr == Some(w.books.claims[guard as int].ptr),
    ensures
        ({
            let (x, result) = w.decided(t, s, guard, current, new);
            &&& result == Some(guard)
            &&& x.books.storages[s as int].ptr == Some(w.books.claims[new as int].ptr)
            &&& x.books.owed(w.books.claims[guard as int].ptr) == 0
            &&& x.books.is_handle(guard as int)
        }),
{
    flow::lemma_written(w, t, s, Some(new));
    law_a_write_pays_every_debt(w, t, s, Some(new));
    let y = w.written(t, s, Some(new));
    assert(y.books.claims[guard as int] == w.books.claims[guard as int]);
}

} // verus!
