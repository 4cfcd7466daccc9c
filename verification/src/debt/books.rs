//! The books of a reclamation domain: objects with their reference counts, storages, debt slots,
//! thread nodes and claims.
//!
//! A *claim* is one protection of one object: an owned reference, a guard, or a load that is still
//! under way. A claim is either backed by a count of the object, or by a debt slot that names the
//! object; then a count is owed. A writer that takes an object out of a storage pays every slot
//! that names it, which turns the claims behind these slots into owned references.

use vstd::prelude::*;

use crate::debt::tally;

verus! {

/// How many fast debt slots a thread node has.
pub const FAST_SLOTS: usize = 8;

/// How many debt slots a thread node has: the fast ones, then the helping slot.
pub const SLOTS: usize = 9;

/// How a storage protects its readers.
#[derive(Clone, Copy, Debug, PartialEq, Eq, Structural)]
pub enum Strategy {
    /// Debts in fast slots, and the helping fallback when they are all taken.
    Hybrid,
    /// The hybrid strategy with every fast slot taken: all loads go through the fallback.
    FillFastSlots,
    /// A lock; every reader takes a counted reference.
    RwLock,
}

/// A reference-counted object.
#[derive(Clone, Copy, Debug)]
pub struct Object {
    pub id: u32,
    pub strong: u128,
    pub drops: usize,
}

/// A place that holds one counted reference to an object, or nothing once it is gone.
#[derive(Clone, Copy, Debug)]
pub struct Storage {
    pub ptr: Option<usize>,
    pub strategy: Strategy,
}

/// The helping control word of a thread node.
#[derive(Clone, Copy, Debug, PartialEq, Eq, Structural)]
pub enum Control {
    /// No fallback load is under way.
    Idle,
    /// A fallback load has published its generation.
    Generation,
    /// A writer has handed over this claim.
    Replacement(usize),
}

/// What a thread is in the middle of.
#[derive(Clone, Copy, Debug, PartialEq, Eq, Structural)]
pub enum Op {
    /// Nothing.
    Idle,
    /// A fast load: the slot is claimed.
    FastClaimed { storage: usize, claim: usize },
    /// A fast load: the confirming read is next.
    FastConfirming { storage: usize, claim: usize },
    /// A fallback load: the generation is published.
    Reserved { storage: usize },
    /// A fallback load: the candidate is read.
    Loaded { storage: usize, ptr: usize },
    /// A fallback load: the candidate is in the helping slot, the control is not confirmed.
    Published { storage: usize, claim: usize },
    /// A protection is about to be turned into an owned reference.
    Promoting { claim: usize },
}

/// What a thread has in the shared list.
#[derive(Clone, Copy, Debug)]
pub struct Node {
    pub control: Control,
    pub active_addr: usize,
    pub op: Op,
}

/// Who disposes of a claim.
#[derive(Clone, Copy, Debug, PartialEq, Eq, Structural)]
pub enum Owner {
    /// Whoever got it out of the domain.
    Handle,
    /// The operation that a thread is in the middle of.
    Op(usize),
    /// The control word of a thread node.
    Handover(usize),
}

/// One protection of one object.
#[derive(Clone, Copy, Debug)]
pub struct Claim {
    pub ptr: usize,
    pub slot: Option<usize>,
    pub owner: Owner,
    pub live: bool,
}

impl Strategy {
    /// Readers may be protected by debts.
    pub open spec fn owes(self) -> bool {
        !(self is RwLock)
    }
}

impl Op {
    /// The storage that the operation reads.
    pub open spec fn storage(self) -> Option<usize> {
        match self {
            Op::FastClaimed { storage, .. } => Some(storage),
            Op::FastConfirming { storage, .. } => Some(storage),
            Op::Reserved { storage } => Some(storage),
            Op::Loaded { storage, .. } => Some(storage),
            Op::Published { storage, .. } => Some(storage),
            _ => None,
        }
    }

    /// The claim that the operation works on.
    pub open spec fn claim(self) -> Option<usize> {
        match self {
            Op::FastClaimed { claim, .. } => Some(claim),
            Op::FastConfirming { claim, .. } => Some(claim),
            Op::Published { claim, .. } => Some(claim),
            Op::Promoting { claim } => Some(claim),
            _ => None,
        }
    }
}

/// The entries that name an object.
pub open spec fn names(p: usize) -> spec_fn(Option<usize>) -> bool {
    |entry: Option<usize>| entry == Some(p)
}

/// The storages that hold an object.
pub open spec fn holds(p: usize) -> spec_fn(Storage) -> bool {
    |storage: Storage| storage.ptr == Some(p)
}

/// The claims on an object.
pub open spec fn protects(p: usize) -> spec_fn(Claim) -> bool {
    |claim: Claim| claim.live && claim.ptr == p
}

/// The helping slot of a thread node.
pub open spec fn helping_slot_of(t: int) -> int {
    SLOTS * t + FAST_SLOTS
}

/// Slot `k` is a fast slot of thread node `t`.
pub open spec fn is_fast_slot_of(k: int, t: int) -> bool {
    SLOTS * t <= k < SLOTS * t + FAST_SLOTS
}

/// Slot `k` is a fast slot.
pub open spec fn is_fast(k: int) -> bool {
    k % (SLOTS as int) < FAST_SLOTS
}

/// The contents of a domain.
#[verifier::ext_equal]
pub struct Books {
    pub objects: Seq<Object>,
    pub storages: Seq<Storage>,
    pub slots: Seq<Option<usize>>,
    pub nodes: Seq<Node>,
    pub claims: Seq<Claim>,
    /// The object and the storage of a displacement whose debts are being paid.
    pub pending: Option<(usize, usize)>,
}

impl Books {
    /// A domain without threads and objects.
    pub open spec fn empty() -> Books {
        Books {
            objects: seq![],
            storages: seq![],
            slots: seq![],
            nodes: seq![],
            claims: seq![],
            pending: None,
        }
    }

    /// How many counted references to `p` are owed to debt slots.
    pub open spec fn owed(self, p: usize) -> nat {
        tally::tally(self.slots, names(p))
    }

    /// How many storages hold `p`.
    pub open spec fn stored(self, p: usize) -> nat {
        tally::tally(self.storages, holds(p))
    }

    /// How many claims on `p` there are.
    pub open spec fn claimed(self, p: usize) -> nat {
        tally::tally(self.claims, protects(p))
    }

    /// The count of `p`, with what is owed, is what its storages and claims need.
    pub open spec fn balanced(self, p: usize) -> bool {
        self.objects[p as int].strong + self.owed(p) == self.stored(p) + self.claimed(p)
    }

    /// Every index is in range.
    pub open spec fn in_range(self) -> bool {
        &&& self.slots.len() == SLOTS * self.nodes.len()
        &&& forall|k: int|
            0 <= k < self.slots.len() ==> (#[trigger] self.slots[k] matches Some(p) ==> p
                < self.objects.len())
        &&& forall|s: int|
            0 <= s < self.storages.len() ==> ((#[trigger] self.storages[s]).ptr matches Some(p)
                ==> p < self.objects.len())
        &&& forall|c: int|
            0 <= c < self.claims.len() ==> {
                &&& (#[trigger] self.claims[c]).ptr < self.objects.len()
                &&& self.claims[c].slot matches Some(k) ==> k < self.slots.len()
            }
    }

    /// An object is dropped once, when its count reaches zero, and not before.
    pub open spec fn dropped_once(self) -> bool {
        forall|p: int|
            0 <= p < self.objects.len() ==> (#[trigger] self.objects[p]).drops == tally::one_if(
                self.objects[p].strong == 0,
            )
    }

    /// A claim stands behind a debt slot.
    pub open spec fn covers(self, c: int, k: int) -> bool {
        &&& 0 <= c < self.claims.len()
        &&& self.claims[c].live
        &&& self.claims[c].slot matches Some(x) && x == k
        &&& self.slots[k] == Some(self.claims[c].ptr)
    }

    /// A claim stands behind every debt.
    pub open spec fn covered(self) -> bool {
        forall|k: int|
            0 <= k < self.slots.len() && (#[trigger] self.slots[k]) is Some ==> exists|c: int|
                self.covers(c, k)
    }

    /// The storage holds `p` and pays debts when it gives it up.
    pub open spec fn keeps(self, s: int, p: usize) -> bool {
        &&& 0 <= s < self.storages.len()
        &&& self.storages[s].ptr == Some(p)
        &&& self.storages[s].strategy.owes()
    }

    /// The claim is a counted reference to `p`.
    pub open spec fn held(self, c: int, p: usize) -> bool {
        &&& 0 <= c < self.claims.len()
        &&& self.claims[c].live
        &&& self.claims[c].ptr == p
        &&& self.claims[c].slot is None
    }

    /// The slot is the helping slot of a load that has been handed a replacement: what it names is
    /// not used any more.
    pub open spec fn stale(self, k: int) -> bool {
        &&& !is_fast(k)
        &&& self.nodes[k / (SLOTS as int)].control is Replacement
    }

    /// `p` is kept alive for the debts on it: by a storage, or by the writer that is about to pay
    /// them.
    pub open spec fn kept(self, p: usize) -> bool {
        ||| exists|s: int| self.keeps(s, p)
        ||| self.pending matches Some((q, _)) && q == p
    }

    /// A debt that is used names an object that is kept alive for it.
    pub open spec fn backed(self) -> bool {
        forall|k: int|
            0 <= k < self.slots.len() ==> (#[trigger] self.slots[k] matches Some(p) ==> self.stale(
                k,
            ) || self.kept(p))
    }

    /// The writer that pays debts holds the object.
    pub open spec fn pending_held(self) -> bool {
        self.pending matches Some((q, _)) ==> exists|c: int| self.held(c, q)
    }

    /// A load can be under way on the storage.
    pub open spec fn loadable(self, s: int) -> bool {
        &&& 0 <= s < self.storages.len()
        &&& self.storages[s].ptr is Some
        &&& self.storages[s].strategy.owes()
    }

    /// The storage holds `p`, or a writer that has just displaced it has not come by yet.
    pub open spec fn current(self, s: int, p: usize) -> bool {
        ||| self.storages[s].ptr == Some(p)
        ||| self.pending matches Some((q, x)) && q == p && x == s
    }

    /// The claim belongs to the operation of thread `t`.
    pub open spec fn in_flight(self, c: int, t: int) -> bool {
        &&& 0 <= c < self.claims.len()
        &&& self.claims[c].live
        &&& self.claims[c].owner matches Owner::Op(u) && u == t
    }

    /// What a thread node holds fits what the thread is in the middle of.
    pub open spec fn node_fits(self, t: int) -> bool {
        let node = self.nodes[t];
        let h = helping_slot_of(t);
        &&& (node.op.storage() matches Some(s) ==> self.loadable(s as int))
        &&& (node.op.claim() matches Some(c) ==> self.in_flight(c as int, t))
        &&& (node.control matches Control::Replacement(c) ==> {
            &&& c < self.claims.len()
            &&& self.claims[c as int].live
            &&& self.claims[c as int].owner matches Owner::Handover(u) && u == t
            &&& self.claims[c as int].slot is None
        })
        &&& match node.op {
            Op::Idle => node.control is Idle && self.slots[h] is None,
            Op::FastClaimed { claim, .. } | Op::FastConfirming { claim, .. } => {
                &&& node.control is Idle
                &&& self.slots[h] is None
                &&& self.claims[claim as int].slot matches Some(k) && is_fast_slot_of(k as int, t)
            },
            Op::Reserved { storage } => {
                &&& !(node.control is Idle)
                &&& node.active_addr == storage
                &&& self.slots[h] is None
            },
            Op::Loaded { storage, ptr } => {
                &&& !(node.control is Idle)
                &&& node.active_addr == storage
                &&& self.slots[h] is None
                &&& ptr < self.objects.len()
                &&& node.control is Generation ==> self.current(storage as int, ptr)
            },
            Op::Published { storage, claim } => {
                &&& !(node.control is Idle)
                &&& node.active_addr == storage
                &&& self.claims[claim as int].slot matches Some(k) && k == h
                &&& self.slots[h] is None || self.slots[h] == Some(self.claims[claim as int].ptr)
                &&& node.control is Generation ==> self.current(
                    storage as int,
                    self.claims[claim as int].ptr,
                )
            },
            Op::Promoting { claim } => {
                &&& node.control is Idle
                &&& (self.claims[claim as int].slot matches Some(k) ==> is_fast(k as int) || k == h)
                &&& self.slots[h] is None || {
                    &&& self.claims[claim as int].slot matches Some(k) && k == h
                    &&& self.slots[h] == Some(self.claims[claim as int].ptr)
                }
            },
        }
    }

    /// Every live claim is disposed of by exactly the one that its record names, and a handle is
    /// never protected by a helping slot.
    pub open spec fn owner_fits(self, c: int) -> bool {
        let claim = self.claims[c];
        match claim.owner {
            Owner::Handle => claim.slot matches Some(k) ==> is_fast(k as int),
            Owner::Op(t) => {
                &&& t < self.nodes.len()
                &&& self.nodes[t as int].op.claim() matches Some(d) && d == c
            },
            Owner::Handover(t) => {
                &&& t < self.nodes.len()
                &&& self.nodes[t as int].control matches Control::Replacement(d) && d == c
            },
        }
    }

    /// The counts are right: every reference that exists is counted or owed, and nothing else is.
    pub open spec fn accounted(self) -> bool {
        &&& self.in_range()
        &&& forall|p: usize| p < self.objects.len() ==> #[trigger] self.balanced(p)
        &&& self.dropped_once()
        &&& self.covered()
    }

    /// What always holds of the books.
    pub open spec fn wf(self) -> bool {
        &&& self.accounted()
        &&& self.backed()
        &&& self.pending_held()
        &&& forall|t: int| 0 <= t < self.nodes.len() ==> #[trigger] self.node_fits(t)
        &&& forall|c: int|
            0 <= c < self.claims.len() && (#[trigger] self.claims[c]).live ==> self.owner_fits(c)
    }

    /// The claim is a reference or a guard that was handed out and not given back.
    pub open spec fn is_handle(self, c: int) -> bool {
        &&& 0 <= c < self.claims.len()
        &&& self.claims[c].live
        &&& self.claims[c].owner is Handle
    }

    /// The claim is an owned reference that was handed out.
    pub open spec fn is_owned(self, c: int) -> bool {
        self.is_handle(c) && self.claims[c].slot is None
    }

    /// The claim still protects what it names; only a load that has been handed a replacement has
    /// a claim that does not.
    pub open spec fn is_good(self, c: int) -> bool {
        &&& 0 <= c < self.claims.len()
        &&& self.claims[c].live
        &&& self.claims[c].owner matches Owner::Op(t) ==> !(self.nodes[t as int].op is Published
            && self.nodes[t as int].control is Replacement)
    }
}

impl Claim {
    /// The claim after it has been given up.
    pub open spec fn ended(self) -> Claim {
        Claim { live: false, ..self }
    }

    /// The claim after its count has been taken or paid.
    pub open spec fn counted(self) -> Claim {
        Claim { slot: None, ..self }
    }

    /// The claim in other hands.
    pub open spec fn passed_to(self, owner: Owner) -> Claim {
        Claim { owner, ..self }
    }
}

impl Books {
    /// One more counted reference to `p`.
    pub open spec fn raised(self, p: usize) -> Books {
        let object = self.objects[p as int];
        Books {
            objects: self.objects.update(
                p as int,
                Object { strong: (object.strong + 1) as u128, ..object },
            ),
            ..self
        }
    }

    /// One counted reference to `p` less; the last one drops the object.
    pub open spec fn lowered(self, p: usize) -> Books {
        let object = self.objects[p as int];
        let strong = (object.strong - 1) as u128;
        Books {
            objects: self.objects.update(
                p as int,
                Object {
                    strong,
                    drops: if strong == 0 {
                        (object.drops + 1) as usize
                    } else {
                        object.drops
                    },
                    ..object
                },
            ),
            ..self
        }
    }

    /// A new claim.
    pub open spec fn claimed_by(self, ptr: usize, slot: Option<usize>, owner: Owner) -> Books {
        Books { claims: self.claims.push(Claim { ptr, slot, owner, live: true }), ..self }
    }

    /// A claim is replaced by an altered one.
    pub open spec fn with_claim(self, c: int, claim: Claim) -> Books {
        Books { claims: self.claims.update(c, claim), ..self }
    }

    /// A debt slot holds something else.
    pub open spec fn with_slot(self, k: int, entry: Option<usize>) -> Books {
        Books { slots: self.slots.update(k, entry), ..self }
    }

    /// A thread node holds something else.
    pub open spec fn with_node(self, t: int, node: Node) -> Books {
        Books { nodes: self.nodes.update(t, node), ..self }
    }

    /// The claim is protected by a debt that nobody has paid.
    pub open spec fn is_debt(self, c: int) -> bool {
        self.claims[c].slot matches Some(k) && self.slots[k as int] == Some(self.claims[c].ptr)
    }

    /// A claim is given up: its debt is returned, or its counted reference.
    pub open spec fn given_up(self, c: int) -> Books {
        let claim = self.claims[c];
        if self.is_debt(c) {
            self.with_slot(claim.slot->0 as int, None).with_claim(c, claim.ended())
        } else {
            self.lowered(claim.ptr).with_claim(c, claim.ended())
        }
    }

    /// A claim is backed by a counted reference: its debt is returned for a new one, or it has been
    /// paid already.
    pub open spec fn promoted(self, c: int) -> Books {
        let claim = self.claims[c];
        if self.is_debt(c) {
            self.raised(claim.ptr).with_slot(claim.slot->0 as int, None).with_claim(
                c,
                claim.counted(),
            )
        } else {
            self.with_claim(c, claim.counted())
        }
    }

    /// A new claim, protected by a debt.
    pub open spec fn indebted(self, ptr: usize, k: usize, owner: Owner) -> Books {
        self.with_slot(k as int, Some(ptr)).claimed_by(ptr, Some(k), owner)
    }

    /// A new claim with a counted reference of its own.
    pub open spec fn shared(self, ptr: usize, owner: Owner) -> Books {
        self.raised(ptr).claimed_by(ptr, None, owner)
    }

    /// A new object, with one owned reference to it.
    pub open spec fn allocated(self, id: u32) -> Books {
        Books {
            objects: self.objects.push(Object { id, strong: 1, drops: 0 }),
            ..self.claimed_by(self.objects.len() as usize, None, Owner::Handle)
        }
    }

    /// A new storage takes over an owned reference.
    pub open spec fn stored_from(self, c: int, strategy: Strategy) -> Books {
        let claim = self.claims[c];
        Books {
            storages: self.storages.push(Storage { ptr: Some(claim.ptr), strategy }),
            ..self.with_claim(c, claim.ended())
        }
    }

    /// A storage gives its reference up for a new one, or for nothing; what it held becomes an
    /// owned reference, the newest claim.
    pub open spec fn displaced(self, s: int, new: Option<usize>) -> Books {
        let storage = self.storages[s];
        let b = match new {
            Some(c) => Books {
                storages: self.storages.update(
                    s,
                    Storage { ptr: Some(self.claims[c as int].ptr), ..storage },
                ),
                ..self.with_claim(c as int, self.claims[c as int].ended())
            },
            None => Books {
                storages: self.storages.update(s, Storage { ptr: None, ..storage }),
                ..self
            },
        };
        b.claimed_by(storage.ptr->0, None, Owner::Handle)
    }

    /// A debt is paid with a counted reference.
    pub open spec fn paid(self, k: int) -> Books {
        self.raised(self.slots[k]->0).with_slot(k, None)
    }
}

} // verus!
