//! Interleave hooks at the audited linearization steps of the hybrid strategy.
//!
//! A randomized stress test can hit a linearization point, but cannot pin a *specific*
//! interleaving. A harness registers one callback here; the strategy reports every audited point
//! to it, and the callback may park the reporting thread. Without a registered callback a report
//! does nothing.

use vstd::prelude::*;

verus! {

/// The audited linearization steps of the hybrid strategy.
///
/// The same point is reported on every thread; a callback filters by thread or by the address of
/// the pointer storage that it is handed.
#[derive(Clone, Copy, Debug, PartialEq, Eq, Structural)]
pub enum HookPoint {
    /// Fast path: the debt slot already contains the pointer, the confirming second load of the
    /// storage has not happened yet.
    ///
    /// A reader parked here has *published* a debt but nobody can tell yet which pointer the
    /// linearization will return.
    FastPreConfirm,
    /// Fallback path: the generation is published in the control and the active address is set,
    /// but the candidate pointer has not been loaded yet.
    ///
    /// A writer that walks debts while a reader is parked here takes the collision path and can
    /// offer a replacement.
    FallbackReserved,
    /// Fallback path: the candidate has been loaded but the generation has not been confirmed
    /// back to idle yet. The writer may still observe the generation and help.
    FallbackLoaded,
    /// Compare-and-swap: the loaded value was observed equal to the expected one, but the
    /// installing exchange has not run yet.
    ///
    /// This is precisely the gap between the observation point and the installation point;
    /// another writer winning here forces a retry.
    CasObservedEqual,
    /// Compare-and-swap: the exchange succeeded, but the readers have not been waited for yet.
    /// The old pointer is no longer in storage and may be kept alive only by outstanding debts.
    CasWon,
    /// Writer: about to traverse the thread nodes for the just-removed pointer.
    WriterPayAllStart,
    /// Writer: about to perform the helping pass on one node.
    WriterNodeBeforeHelp,
    /// Writer: the helping pass for one node is done, but the debt slots of that node have not
    /// been scanned and paid yet.
    WriterNodeAfterHelp,
    /// Writer: all debt slots of one node have been scanned.
    WriterNodeSlotsDone,
}

/// The registration of the interleave callback: at most one at a time.
///
/// The callback receives the hook point and the address of the storage the operation belongs to,
/// so a single callback can tell several instances apart.
#[derive(Debug)]
pub struct Hooks<F> {
    hook: Option<F>,
}

impl<F> View for Hooks<F> {
    type V = Option<F>;

    closed spec fn view(&self) -> Option<F> {
        self.hook
    }
}

impl<F: Copy> Clone for Hooks<F> {
    fn clone(&self) -> (hooks: Hooks<F>)
        ensures
            hooks == *self,
    {
        *self
    }
}

impl<F: Copy> Copy for Hooks<F> {

}

impl<F> Hooks<F> {
    /// No callback is registered.
    pub fn new() -> (hooks: Hooks<F>)
        ensures
            hooks@ == None::<F>,
    {
        Hooks { hook: None }
    }
}

/// Installs the interleave callback, or clears it with `None`.
pub fn install_hook<F>(hooks: &mut Hooks<F>, hook: Option<F>)
    ensures
        final(hooks)@ == hook,
{
    hooks.hook = hook;
}

/// The call that a report makes: the registered callback, if there is one, with exactly the point
/// and the storage address that were reported.
pub open spec fn call_for<F>(
    registered: Option<F>,
    point: HookPoint,
    storage_addr: usize,
) -> Option<(F, (HookPoint, usize))> {
    match registered {
        Some(hook) => Some((hook, (point, storage_addr))),
        None => None,
    }
}

/// Fires a hook point: makes the call for this report, if there is one.
///
/// The registration is taken by value and the callback can be called only once through it, so a
/// report never makes more than one call. A callback that can be copied stays registered where the
/// copy was taken from.
pub fn fire<F: FnOnce(HookPoint, usize)>(hooks: Hooks<F>, point: HookPoint, storage_addr: usize)
    requires
        call_for(hooks@, point, storage_addr) matches Some((hook, args)) ==> call_requires(
            hook,
            args,
        ),
    ensures
        call_for(hooks@, point, storage_addr) matches Some((hook, args)) ==> call_ensures(
            hook,
            args,
            (),
        ),
        hooks@ matches Some(hook) ==> call_ensures(hook, (point, storage_addr), ()),
{
    if let Some(hook) = hooks.hook {
        hook(point, storage_addr);
    }
}

} // verus!
