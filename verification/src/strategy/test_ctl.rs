//! Deterministic-interleaving control surface for the helping fallback.
//!
//! A harness uses it to pause a *reader* at precisely defined points of its fallback load. The
//! pause is an explicit two-thread rendezvous, so the interleaving is fixed:
//!
//! 1. The orchestrating thread, in the writer's role, arms the seam with [`arm`] for the exact
//!    storage address and window.
//! 2. The reader enters the fallback, performs the prefix of the load protocol and calls
//!    [`maybe_pause`]. Exactly one such call finds the seam armed for it and parks.
//! 3. The writer waits until [`wait_entered`] holds, runs the competing write, and then calls
//!    [`release`].
//! 4. The reader leaves when [`try_resume`] lets it, which disarms the seam;
//!    [`release_acknowledged`] then holds for the writer.
//!
//! Only a reader ever parks. The writer itself performs loads while paying debts; those calls find
//! the seam entered or released and go on at once, which prevents self-deadlock even when fast
//! slots are disabled.

use vstd::prelude::*;
use vstd::string::*;

use crate::debt::domain::ArcSwapAny;
use crate::text;

verus! {

/// Points inside the reader's fallback protocol at which a pause can be requested.
#[derive(Clone, Copy, Debug, PartialEq, Eq, Structural)]
pub enum Window {
    /// After publishing the generation and active address, before loading the pointer.
    AfterReserve,
    /// After loading the candidate pointer, before confirming it into the debt slot.
    AfterLoad,
    /// Inside confirmation: the candidate is already published in the debt slot but the control
    /// still carries the generation. A writer in this window sees the slot debt and pays it.
    BeforeConfirm,
}

impl Window {
    /// The number by which the seam knows a window; zero stands for none.
    pub open spec fn code_of(self) -> usize {
        match self {
            Window::AfterReserve => 1,
            Window::AfterLoad => 2,
            Window::BeforeConfirm => 3,
        }
    }

    /// The number by which the seam knows this window.
    pub fn code(self) -> (code: usize)
        ensures
            code == self.code_of(),
            code == (match self {
                Window::AfterReserve => 1usize,
                Window::AfterLoad => 2,
                Window::BeforeConfirm => 3,
            }),
    {
        match self {
            Window::AfterReserve => 1,
            Window::AfterLoad => 2,
            Window::BeforeConfirm => 3,
        }
    }
}

/// Where a rendezvous stands.
#[derive(Clone, Copy, Debug, PartialEq, Eq, Structural)]
pub enum Phase {
    /// Nobody waits and nobody will.
    Disarmed,
    /// The next matching reader parks.
    Armed,
    /// A reader is parked.
    Entered,
    /// The parked reader may go on.
    Released,
}

impl Phase {
    /// The number by which diagnostics show a phase.
    pub open spec fn code_of(self) -> usize {
        match self {
            Phase::Disarmed => 0,
            Phase::Armed => 1,
            Phase::Entered => 2,
            Phase::Released => 3,
        }
    }

    /// The number by which diagnostics show this phase.
    pub fn code(self) -> (code: usize)
        ensures
            code == self.code_of(),
            code == (match self {
                Phase::Disarmed => 0usize,
                Phase::Armed => 1,
                Phase::Entered => 2,
                Phase::Released => 3,
            }),
    {
        match self {
            Phase::Disarmed => 0,
            Phase::Armed => 1,
            Phase::Entered => 2,
            Phase::Released => 3,
        }
    }
}

/// The rendezvous between one reader and the orchestrating thread.
///
/// The address doubles as the arming key: a pause fires only for the exact storage that was armed,
/// so the other storages of the domain keep working normally. A seam and the storages that it is
/// armed for belong to one domain: addresses tell storages apart within their domain only.
#[derive(Clone, Copy, Debug)]
pub struct Seam {
    state: Phase,
    storage_addr: usize,
    window: usize,
}

/// What a [`Seam`] holds.
pub struct SeamView {
    pub phase: Phase,
    pub storage_addr: usize,
    pub window: usize,
}

impl View for Seam {
    type V = SeamView;

    closed spec fn view(&self) -> SeamView {
        SeamView { phase: self.state, storage_addr: self.storage_addr, window: self.window }
    }
}

impl SeamView {
    /// The seam waits for a reader of this storage in this window.
    pub open spec fn armed_for(self, storage_addr: usize, window: Window) -> bool {
        &&& self.phase is Armed
        &&& self.storage_addr == storage_addr
        &&& self.window == window.code_of()
    }

    /// The same key in another phase.
    pub open spec fn at(self, phase: Phase) -> SeamView {
        SeamView { phase, ..self }
    }

    /// Armed with this key.
    pub open spec fn keyed(storage_addr: usize, window: Window) -> SeamView {
        SeamView { phase: Phase::Armed, storage_addr, window: window.code_of() }
    }
}

/// What a call inside the reader's fallback does.
#[derive(Clone, Copy, Debug, PartialEq, Eq, Structural)]
pub enum Pause {
    /// Go on without waiting.
    Continue,
    /// Wait until [`try_resume`] succeeds.
    Park,
}

impl Seam {
    /// A disarmed seam that has never been armed.
    pub fn new() -> (seam: Seam)
        ensures
            seam@ == (SeamView { phase: Phase::Disarmed, storage_addr: 0, window: 0 }),
    {
        Seam { state: Phase::Disarmed, storage_addr: 0, window: 0 }
    }
}

/// Arms the seam for one reader entering `window` on the storage at `storage_addr`.
///
/// Must be called before the reader starts the load. The seam stays armed until it is consumed by
/// that reader. Arming while a previous rendezvous is still active is a mistake of the harness: it
/// is reported as the phase that was found, and it only takes the seam down.
pub fn arm(seam: &mut Seam, storage_addr: usize, window: Window) -> (result: Result<(), Phase>)
    ensures
        result == (if old(seam)@.phase is Disarmed {
            Ok::<(), Phase>(())
        } else {
            Err(old(seam)@.phase)
        }),
        result is Ok ==> final(seam)@ == SeamView::keyed(storage_addr, window),
        result is Err ==> final(seam)@ == old(seam)@.at(Phase::Disarmed),
        result is Ok ==> {
            &&& final(seam)@.phase is Armed
            &&& final(seam)@.storage_addr == storage_addr
            &&& final(seam)@.window == window.code_of()
        },
        result is Err ==> {
            &&& final(seam)@.phase is Disarmed
            &&& final(seam)@.storage_addr == old(seam)@.storage_addr
            &&& final(seam)@.window == old(seam)@.window
        },
{
    let prev = seam.state;
    seam.state = Phase::Disarmed;
    if prev != Phase::Disarmed {
        return Err(prev);
    }
    seam.storage_addr = storage_addr;
    seam.window = window.code();
    seam.state = Phase::Armed;
    Ok(())
}

/// What is said of an [`arm`] that found the seam active.
pub fn arm_diagnostic() -> (text: String)
    ensures
        text@ == "litmus seam armed while a previous rendezvous was still active"@,
{
    String::from_str("litmus seam armed while a previous rendezvous was still active")
}

/// Whether a reader has entered the armed window and is parked there. The orchestrating thread
/// waits for this: the reader has then completed every step before the window, so the racing write
/// happens at the exact linearization point that is targeted.
pub fn wait_entered(seam: &Seam) -> (entered: bool)
    ensures
        entered == (seam@.phase is Entered),
{
    seam.state == Phase::Entered
}

/// Releases the parked reader. The orchestrating thread then waits for [`release_acknowledged`].
///
/// Releasing when no reader is parked is a mistake of the harness: it is reported as the phase that
/// was found.
pub fn release(seam: &mut Seam) -> (result: Result<(), Phase>)
    ensures
        result == (if old(seam)@.phase is Entered {
            Ok::<(), Phase>(())
        } else {
            Err(old(seam)@.phase)
        }),
        final(seam)@ == old(seam)@.at(Phase::Released),
        final(seam)@.phase is Released,
        final(seam)@.storage_addr == old(seam)@.storage_addr,
        final(seam)@.window == old(seam)@.window,
{
    let prev = seam.state;
    seam.state = Phase::Released;
    if prev == Phase::Entered {
        Ok(())
    } else {
        Err(prev)
    }
}

/// What is said of a [`release`] that found the seam in this phase, with no reader parked.
pub open spec fn release_message(found: Phase) -> Seq<char> {
    "litmus seam released without a parked reader (state "@ + text::decimal(
        found.code_of() as nat,
    ) + ")"@
}

/// What is said of a [`release`] that found the seam in this phase, with no reader parked.
pub fn release_diagnostic(found: Phase) -> (message: String)
    ensures
        message@ == release_message(found),
        message@ == "litmus seam released without a parked reader (state "@ + seq![
            match found {
                Phase::Disarmed => '0',
                Phase::Armed => '1',
                Phase::Entered => '2',
                Phase::Released => '3',
            },
        ] + ")"@,
{
    let mut message = String::from_str("litmus seam released without a parked reader (state ");
    text::append_decimal(&mut message, found.code() as u64);
    message.append(")");
    message
}

/// Whether the released reader has gone on and disarmed the seam.
pub fn release_acknowledged(seam: &Seam) -> (disarmed: bool)
    ensures
        disarmed == (seam@.phase is Disarmed),
{
    seam.state == Phase::Disarmed
}

/// Called inside the reader fallback. Parks exactly one matching reader for the armed window.
///
/// Writers call into the fallback too, to build helping replacements; they never block because by
/// the time they run the seam is already entered or released, not armed.
pub fn maybe_pause(seam: &mut Seam, storage_addr: usize, window: Window) -> (pause: Pause)
    ensures
        pause == (if old(seam)@.armed_for(storage_addr, window) {
            Pause::Park
        } else {
            Pause::Continue
        }),
        final(seam)@ == (if old(seam)@.armed_for(storage_addr, window) {
            old(seam)@.at(Phase::Entered)
        } else {
            old(seam)@
        }),
        pause is Park <==> old(seam)@.phase is Armed && old(seam)@.storage_addr == storage_addr
            && old(seam)@.window == window.code_of(),
        final(seam)@.phase == (if pause is Park {
            Phase::Entered
        } else {
            old(seam)@.phase
        }),
        final(seam)@.storage_addr == old(seam)@.storage_addr,
        final(seam)@.window == old(seam)@.window,
{
    if seam.state != Phase::Armed {
        return Pause::Continue;
    }
    if seam.storage_addr != storage_addr || seam.window != window.code() {
        return Pause::Continue;
    }
    seam.state = Phase::Entered;
    Pause::Park
}

/// Called by a parked reader: whether it may go on. If it may, the seam is disarmed.
pub fn try_resume(seam: &mut Seam) -> (resumed: bool)
    ensures
        resumed == (old(seam)@.phase is Released),
        final(seam)@ == (if resumed {
            old(seam)@.at(Phase::Disarmed)
        } else {
            old(seam)@
        }),
        final(seam)@.phase == (if resumed {
            Phase::Disarmed
        } else {
            old(seam)@.phase
        }),
        final(seam)@.storage_addr == old(seam)@.storage_addr,
        final(seam)@.window == old(seam)@.window,
{
    if seam.state != Phase::Released {
        return false;
    }
    seam.state = Phase::Disarmed;
    true
}

/// Returns the address of the internal pointer storage of `swap`.
///
/// A harness arms the seam per storage, because the writer must only pause readers of the instance
/// under test, never unrelated ones that share the same thread node. An address identifies a
/// storage within its domain, whatever the storage holds.
pub fn storage_addr_of(swap: &ArcSwapAny) -> (addr: usize)
    ensures
        addr == swap@,
{
    swap.storage_addr()
}

/// Diagnostics of the helping pass: how often a writer observed a helping generation, and how often
/// it handed its replacement over.
#[derive(Clone, Copy, Debug)]
pub struct Helpers {
    gen_seen: usize,
    handover_ok: usize,
}

impl View for Helpers {
    type V = (usize, usize);

    closed spec fn view(&self) -> (usize, usize) {
        (self.gen_seen, self.handover_ok)
    }
}

/// The value of a diagnostic counter after one more event: counters wrap around.
pub open spec fn next_tally(n: usize) -> usize {
    if n == usize::MAX {
        0
    } else {
        (n + 1) as usize
    }
}

impl Helpers {
    /// Nothing observed yet.
    pub fn new() -> (helpers: Helpers)
        ensures
            helpers@ == (0usize, 0usize),
    {
        Helpers { gen_seen: 0, handover_ok: 0 }
    }
}

/// A writer observed a helping generation for the armed storage.
pub fn helper_saw_gen(helpers: &mut Helpers)
    ensures
        final(helpers)@ == (next_tally(old(helpers)@.0), old(helpers)@.1),
{
    helpers.gen_seen = helpers.gen_seen.wrapping_add(1);
}

/// A writer's handover was accepted.
pub fn helper_handover_ok(helpers: &mut Helpers)
    ensures
        final(helpers)@ == (old(helpers)@.0, next_tally(old(helpers)@.1)),
{
    helpers.handover_ok = helpers.handover_ok.wrapping_add(1);
}

/// Both diagnostic counters: generations seen, then handovers accepted.
pub fn helper_counters(helpers: &Helpers) -> (counters: (usize, usize))
    ensures
        counters == helpers@,
{
    (helpers.gen_seen, helpers.handover_ok)
}

} // verus!
