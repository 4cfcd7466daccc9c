//! Why the counts of a domain stay right.

use vstd::prelude::*;

use crate::debt::books;
use crate::debt::books::{Books, Claim, Owner, Storage};
use crate::debt::tally;

verus! {

/// The claims on `p` that are protected by a debt in one of the first `n` slots.
pub open spec fn indebted_below(b: Books, p: usize, n: int) -> spec_fn(Claim) -> bool {
    |claim: Claim|
        {
            &&& claim.live
            &&& claim.ptr == p
            &&& claim.slot matches Some(k) && k < n && b.slots[k as int] == Some(p)
        }
}

/// A claim of its own stands behind every debt.
proof fn lemma_a_claim_per_debt(b: Books, p: usize, n: int)
    requires
        b.in_range(),
        b.covered(),
        0 <= n <= b.slots.len(),
    ensures
        tally::tally(b.slots.take(n), books::names(p)) <= tally::tally(
            b.claims,
            indebted_below(b, p, n),
        ),
    decreases n,
{
    if n > 0 {
        let k = n - 1;
        lemma_a_claim_per_debt(b, p, k);
        assert(b.slots.take(n).drop_last() =~= b.slots.take(k));
        assert(b.slots.take(n).last() == b.slots[k]);
        let narrow = indebted_below(b, p, k);
        let wide = indebted_below(b, p, n);
        if b.slots[k] == Some(p) {
            let c = choose|c: int| b.covers(c, k);
            assert(b.covers(c, k));
            tally::lemma_strictly_wider(b.claims, narrow, wide, c);
        } else {
            tally::lemma_wider(b.claims, narrow, wide);
        }
    }
}

/// No more is owed on an object than there are claims on it; what its storages need is counted.
pub proof fn lemma_owed_within_claims(b: Books, p: usize)
    requires
        b.accounted(),
        p < b.objects.len(),
    ensures
        b.owed(p) <= b.claimed(p),
        b.objects[p as int].strong >= b.stored(p),
        b.objects[p as int].strong <= b.storages.len() + b.claims.len(),
{
    let n = b.slots.len() as int;
    lemma_a_claim_per_debt(b, p, n);
    assert(b.slots.take(n) =~= b.slots);
    tally::lemma_wider(b.claims, indebted_below(b, p, n), books::protects(p));
    assert(b.balanced(p));
    tally::lemma_bound(b.storages, books::holds(p));
    tally::lemma_bound(b.claims, books::protects(p));
}

/// A claim that no debt protects has a counted reference.
pub proof fn lemma_counted_claim(b: Books, c: int)
    requires
        b.accounted(),
        0 <= c < b.claims.len(),
        b.claims[c].live,
        !b.is_debt(c),
    ensures
        b.objects[b.claims[c].ptr as int].strong > b.stored(b.claims[c].ptr),
{
    let p = b.claims[c].ptr;
    let n = b.slots.len() as int;
    lemma_a_claim_per_debt(b, p, n);
    assert(b.slots.take(n) =~= b.slots);
    tally::lemma_strictly_wider(
        b.claims,
        indebted_below(b, p, n),
        books::protects(p),
        c,
    );
    assert(b.balanced(p));
}

/// Giving a claim up keeps the counts right.
pub proof fn lemma_given_up(b: Books, c: int)
    requires
        b.accounted(),
        0 <= c < b.claims.len(),
        b.claims[c].live,
    ensures
        b.given_up(c).accounted(),
        !b.is_debt(c) ==> b.objects[b.claims[c].ptr as int].strong > 0,
{
    let d = b.given_up(c);
    let claim = b.claims[c];
    let p = claim.ptr;
    if !b.is_debt(c) {
        lemma_counted_claim(b, c);
    }
    assert forall|q: usize| q < d.objects.len() implies #[trigger] d.balanced(q) by {
        assert(b.balanced(q));
        tally::lemma_update(b.claims, c, claim.ended(), books::protects(q));
        if b.is_debt(c) {
            tally::lemma_update(
                b.slots,
                claim.slot->0 as int,
                None,
                books::names(q),
            );
        }
    }
    assert forall|k: int| 0 <= k < d.slots.len() && (#[trigger] d.slots[k]) is Some implies
        exists|e: int| d.covers(e, k) by {
        assert(b.slots[k] is Some);
        let e = choose|e: int| b.covers(e, k);
        assert(b.covers(e, k));
        assert(d.covers(e, k));
    }
}

/// Turning a claim into a counted one keeps the counts right.
pub proof fn lemma_promoted(b: Books, c: int)
    requires
        b.accounted(),
        0 <= c < b.claims.len(),
        b.claims[c].live,
        b.objects[b.claims[c].ptr as int].strong > 0,
        b.objects[b.claims[c].ptr as int].strong < u128::MAX,
    ensures
        b.promoted(c).accounted(),
{
    let d = b.promoted(c);
    let claim = b.claims[c];
    assert forall|q: usize| q < d.objects.len() implies #[trigger] d.balanced(q) by {
        assert(b.balanced(q));
        tally::lemma_update(b.claims, c, claim.counted(), books::protects(q));
        if b.is_debt(c) {
            tally::lemma_update(
                b.slots,
                claim.slot->0 as int,
                None,
                books::names(q),
            );
        }
    }
    assert forall|k: int| 0 <= k < d.slots.len() && (#[trigger] d.slots[k]) is Some implies
        exists|e: int| d.covers(e, k) by {
        assert(b.slots[k] is Some);
        let e = choose|e: int| b.covers(e, k);
        assert(b.covers(e, k));
        assert(d.covers(e, k));
    }
}

/// Protecting an object by a debt in a free slot keeps the counts right.
pub proof fn lemma_indebted(b: Books, ptr: usize, k: usize, owner: Owner)
    requires
        b.accounted(),
        ptr < b.objects.len(),
        k < b.slots.len(),
        b.slots[k as int] is None,
    ensures
        b.indebted(ptr, k, owner).accounted(),
{
    let d = b.indebted(ptr, k, owner);
    assert forall|q: usize| q < d.objects.len() implies #[trigger] d.balanced(q) by {
        assert(b.balanced(q));
        tally::lemma_push(
            b.claims,
            Claim { ptr, slot: Some(k), owner, live: true },
            books::protects(q),
        );
        tally::lemma_update(b.slots, k as int, Some(ptr), books::names(q));
    }
    assert forall|j: int| 0 <= j < d.slots.len() && (#[trigger] d.slots[j]) is Some implies
        exists|e: int| d.covers(e, j) by {
        if j == k {
            assert(d.covers(b.claims.len() as int, j));
        } else {
            assert(b.slots[j] is Some);
            let e = choose|e: int| b.covers(e, j);
            assert(b.covers(e, j));
            assert(d.covers(e, j));
        }
    }
}

/// Another counted reference to a live object keeps the counts right.
pub proof fn lemma_shared(b: Books, ptr: usize, owner: Owner)
    requires
        b.accounted(),
        ptr < b.objects.len(),
        0 < b.objects[ptr as int].strong < u128::MAX,
    ensures
        b.shared(ptr, owner).accounted(),
{
    let d = b.shared(ptr, owner);
    assert forall|q: usize| q < d.objects.len() implies #[trigger] d.balanced(q) by {
        assert(b.balanced(q));
        tally::lemma_push(
            b.claims,
            Claim { ptr, slot: None, owner, live: true },
            books::protects(q),
        );
    }
    lemma_covered_push(b, d);
}

/// New claims leave the old ones behind their debts.
proof fn lemma_covered_push(b: Books, d: Books)
    requires
        b.covered(),
        d.slots == b.slots,
        d.claims.len() >= b.claims.len(),
        forall|c: int|
            0 <= c < b.claims.len() && b.claims[c].live && b.claims[c].slot is Some
                ==> #[trigger] d.claims[c] == b.claims[c],
    ensures
        d.covered(),
{
    assert forall|k: int| 0 <= k < d.slots.len() && (#[trigger] d.slots[k]) is Some implies
        exists|e: int| d.covers(e, k) by {
        assert(b.slots[k] is Some);
        let e = choose|e: int| b.covers(e, k);
        assert(b.covers(e, k));
        assert(d.claims[e] == b.claims[e]);
        assert(d.covers(e, k));
    }
}

/// A new object with one reference to it keeps the counts right.
pub proof fn lemma_allocated(b: Books, id: u32)
    requires
        b.accounted(),
        b.objects.len() < usize::MAX,
    ensures
        b.allocated(id).accounted(),
{
    let d = b.allocated(id);
    let fresh = b.objects.len() as usize;
    assert forall|q: usize| q < d.objects.len() implies #[trigger] d.balanced(q) by {
        tally::lemma_push(
            b.claims,
            Claim { ptr: fresh, slot: None, owner: Owner::Handle, live: true },
            books::protects(q),
        );
        if q == fresh {
            tally::lemma_none(b.slots, books::names(q));
            tally::lemma_none(b.storages, books::holds(q));
            tally::lemma_none(b.claims, books::protects(q));
        } else {
            assert(b.balanced(q));
        }
    }
    lemma_covered_push(b, d);
}

/// A storage that takes over a reference keeps the counts right.
pub proof fn lemma_stored_from(b: Books, c: int, strategy: books::Strategy)
    requires
        b.accounted(),
        b.is_owned(c),
    ensures
        b.stored_from(c, strategy).accounted(),
{
    let d = b.stored_from(c, strategy);
    let claim = b.claims[c];
    assert forall|q: usize| q < d.objects.len() implies #[trigger] d.balanced(q) by {
        assert(b.balanced(q));
        tally::lemma_update(b.claims, c, claim.ended(), books::protects(q));
        tally::lemma_push(
            b.storages,
            Storage { ptr: Some(claim.ptr), strategy },
            books::holds(q),
        );
    }
    lemma_covered_push(b, d);
}

/// A storage that passes its reference on for another one keeps the counts right.
pub proof fn lemma_displaced(b: Books, s: int, new: Option<usize>)
    requires
        b.accounted(),
        0 <= s < b.storages.len(),
        b.storages[s].ptr is Some,
        new matches Some(c) ==> b.is_owned(c as int),
    ensures
        b.displaced(s, new).accounted(),
{
    let d = b.displaced(s, new);
    let old = b.storages[s].ptr->0;
    assert forall|q: usize| q < d.objects.len() implies #[trigger] d.balanced(q) by {
        assert(b.balanced(q));
        tally::lemma_update(b.storages, s, d.storages[s], books::holds(q));
        let passed = Claim { ptr: old, slot: None, owner: Owner::Handle, live: true };
        match new {
            Some(c) => {
                let ended = b.claims[c as int].ended();
                tally::lemma_update(
                    b.claims,
                    c as int,
                    ended,
                    books::protects(q),
                );
                tally::lemma_push(
                    b.claims.update(c as int, ended),
                    passed,
                    books::protects(q),
                );
            },
            None => {
                tally::lemma_push(b.claims, passed, books::protects(q));
            },
        }
    }
    lemma_covered_push(b, d);
}

/// Paying a debt keeps the counts right.
pub proof fn lemma_paid(b: Books, k: int)
    requires
        b.accounted(),
        0 <= k < b.slots.len(),
        b.slots[k] is Some,
        0 < b.objects[b.slots[k]->0 as int].strong < u128::MAX,
    ensures
        b.paid(k).accounted(),
{
    let d = b.paid(k);
    assert forall|q: usize| q < d.objects.len() implies #[trigger] d.balanced(q) by {
        assert(b.balanced(q));
        tally::lemma_update(b.slots, k, None, books::names(q));
    }
    assert forall|j: int| 0 <= j < d.slots.len() && (#[trigger] d.slots[j]) is Some implies
        exists|e: int| d.covers(e, j) by {
        assert(b.slots[j] is Some);
        let e = choose|e: int| b.covers(e, j);
        assert(b.covers(e, j));
        assert(d.covers(e, j));
    }
}

/// The counts do not depend on what the thread nodes hold.
pub proof fn lemma_node_free(b: Books, t: int, node: books::Node)
    requires
        b.accounted(),
        0 <= t < b.nodes.len(),
    ensures
        b.with_node(t, node).accounted(),
{
    let d = b.with_node(t, node);
    assert forall|q: usize| q < d.objects.len() implies #[trigger] d.balanced(q) by {
        assert(b.balanced(q));
    }
    lemma_covered_push(b, d);
}

/// The counts do not depend on who disposes of a claim.
pub proof fn lemma_owner_free(b: Books, c: int, owner: Owner)
    requires
        b.accounted(),
        0 <= c < b.claims.len(),
    ensures
        b.with_claim(c, b.claims[c].passed_to(owner)).accounted(),
{
    let d = b.with_claim(c, b.claims[c].passed_to(owner));
    assert forall|q: usize| q < d.objects.len() implies #[trigger] d.balanced(q) by {
        assert(b.balanced(q));
        tally::lemma_update(
            b.claims,
            c,
            b.claims[c].passed_to(owner),
            books::protects(q),
        );
    }
    assert forall|k: int| 0 <= k < d.slots.len() && (#[trigger] d.slots[k]) is Some implies
        exists|e: int| d.covers(e, k) by {
        assert(b.slots[k] is Some);
        let e = choose|e: int| b.covers(e, k);
        assert(b.covers(e, k));
        assert(d.covers(e, k));
    }
}

/// A slot is one of the slots of exactly one thread node.
pub proof fn lemma_slot_of(k: int, t: int)
    ensures
        books::is_fast_slot_of(k, t) ==> books::is_fast(k) && k / (
        books::SLOTS as int) == t,
        !books::is_fast(books::helping_slot_of(t)),
        books::helping_slot_of(t) / (books::SLOTS as int) == t,
        books::is_fast(k) || k == books::helping_slot_of(
            k / (books::SLOTS as int),
        ),
{
    assert((9 * t + 8) / 9 == t && (9 * t + 8) % 9 == 8);
    if books::is_fast_slot_of(k, t) {
        let j = k - 9 * t;
        assert((9 * t + j) / 9 == t && (9 * t + j) % 9 == j);
    }
}

/// What a storage holds is alive.
pub proof fn lemma_stored_alive(b: Books, s: int)
    requires
        b.accounted(),
        0 <= s < b.storages.len(),
        b.storages[s].ptr is Some,
    ensures
        b.objects[b.storages[s].ptr->0 as int].strong > 0,
{
    let p = b.storages[s].ptr->0;
    lemma_owed_within_claims(b, p);
    tally::lemma_some(b.storages, books::holds(p), s);
}

/// What a claim protects is alive.
pub proof fn lemma_claim_alive(b: Books, c: int)
    requires
        b.wf(),
        b.is_good(c),
    ensures
        b.objects[b.claims[c].ptr as int].strong > 0,
{
    let p = b.claims[c].ptr;
    if b.is_debt(c) {
        let k = b.claims[c].slot->0 as int;
        assert(b.owner_fits(c));
        match b.claims[c].owner {
            Owner::Handle => {},
            Owner::Op(t) => {
                assert(b.node_fits(t as int));
                lemma_slot_of(k, t as int);
            },
            Owner::Handover(t) => {
                assert(b.node_fits(t as int));
            },
        }
        assert(!b.stale(k));
        assert(b.kept(p));
        if exists|s: int| b.keeps(s, p) {
            let s = choose|s: int| b.keeps(s, p);
            assert(b.keeps(s, p));
            lemma_stored_alive(b, s);
        } else {
            let d = choose|d: int| b.held(d, p);
            assert(b.held(d, p));
            lemma_counted_claim(b, d);
        }
    } else {
        lemma_counted_claim(b, c);
    }
}

/// A domain without anything in it is in order.
pub proof fn lemma_empty()
    ensures
        Books::empty().at_rest(),
{
}

} // verus!
