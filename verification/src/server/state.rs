use vstd::prelude::*;

verus! {

/// The two flags of the hot-reload controller. `scanning` says that a scan
/// is running; `ready` says that the published library comes from a scan
/// that completed, not from a placeholder or from the cache.
#[derive(Clone, Copy, Debug, PartialEq, Eq, Structural)]
pub struct RescanState {
    pub scanning: bool,
    pub ready: bool,
}

/// How a scan ended.
#[derive(Clone, Copy, Debug, PartialEq, Eq, Structural)]
pub enum ScanOutcome {
    /// The scan produced a library; `saved` says whether writing the cache worked.
    Completed { saved: bool },
    /// The scan itself failed.
    Failed,
}

/// What the caller is to do when a scan has ended.
#[derive(Clone, Copy, Debug, PartialEq, Eq, Structural)]
pub struct ScanAction {
    /// Replace the published library by the new one.
    pub publish: bool,
    /// Tell the operator that something went wrong.
    pub report: bool,
}

/// Whether a trigger is accepted in state `s`: only while no scan is running.
pub open spec fn accepts(s: RescanState) -> bool {
    !s.scanning
}

/// The state after a trigger. An accepted trigger starts a scan, and clears
/// `ready` where the caller asks for it; a rejected trigger changes nothing.
pub open spec fn triggered(s: RescanState, mark_unready: bool) -> RescanState {
    if accepts(s) {
        RescanState { scanning: true, ready: s.ready && !mark_unready }
    } else {
        s
    }
}

/// What is to be done when a scan has ended: a library that was produced is
/// published, whether or not it could be saved; a failure of the scan or of
/// the save is reported.
pub open spec fn action_for(outcome: ScanOutcome) -> ScanAction {
    match outcome {
        ScanOutcome::Completed { saved } => ScanAction { publish: true, report: !saved },
        ScanOutcome::Failed => ScanAction { publish: false, report: true },
    }
}

/// The state after a scan has ended: no scan is running; `ready` is set
/// where a library was published and left as it was where the scan failed.
pub open spec fn finished(s: RescanState, outcome: ScanOutcome) -> RescanState {
    RescanState { scanning: false, ready: s.ready || action_for(outcome).publish }
}

impl RescanState {
    /// The state at start: no scan is running and nothing is published yet.
    pub fn new() -> (s: RescanState)
        ensures
            s == (RescanState { scanning: false, ready: false }),
    {
        RescanState { scanning: false, ready: false }
    }

    /// Asks for a rescan. Returns whether it is accepted; the caller starts a
    /// scan exactly when it is.
    pub fn trigger_rescan(&mut self, mark_unready: bool) -> (accepted: bool)
        ensures
            accepted == accepts(*old(self)),
            *final(self) == triggered(*old(self), mark_unready),
    {
        if self.scanning {
            return false;
        }
        self.scanning = true;
        if mark_unready {
            self.ready = false;
        }
        true
    }

    /// Takes note that the running scan has ended, and says what to do.
    pub fn scan_finished(&mut self, outcome: ScanOutcome) -> (action: ScanAction)
        ensures
            action == action_for(outcome),
            *final(self) == finished(*old(self), outcome),
    {
        let action = match outcome {
            ScanOutcome::Completed { saved } => ScanAction { publish: true, report: !saved },
            ScanOutcome::Failed => ScanAction { publish: false, report: true },
        };
        self.scanning = false;
        if action.publish {
            self.ready = true;
        }
        action
    }
}

/// Single flight: of two triggers that arrive while no scan is running, with
/// no scan ending between them, the first is accepted and the second is
/// rejected, and the second changes nothing.
pub proof fn lemma_single_flight(s: RescanState, first: bool, second: bool)
    requires
        !s.scanning,
    ensures
        accepts(s),
        !accepts(triggered(s, first)),
        triggered(triggered(s, first), second) == triggered(s, first),
{
}

/// While a scan is running every trigger is rejected and leaves the state as
/// it is, however many arrive; only the end of the scan opens the way for the
/// next one.
pub proof fn lemma_one_scan_at_a_time(s: RescanState, mark_unready: bool, outcome: ScanOutcome)
    ensures
        s.scanning ==> !accepts(s) && triggered(s, mark_unready) == s,
        triggered(s, mark_unready).scanning,
        accepts(finished(s, outcome)),
{
}

} // verus!
