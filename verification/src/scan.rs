//! The scan lifecycle of attachment elements, a fold of lifecycle
//! operations carried by ordinary log entries.
//!
//! The record says that an element's bytes were submitted for scanning
//! and how it ended. Attempts, transient errors and deadlines belong to
//! whoever schedules the scanner.

use vstd::prelude::*;
use crate::canonical::ContentHash;
use crate::collections::OrderedMap;
use crate::order::Modeled;
use crate::resolution::{AbandonReason, Outcome, OutcomeModel};

verus! {

/// A step of the scan of one element.
///
/// A pending scan ends clean, infected, failed or abandoned; from any of
/// these a new request opens it again.
#[derive(Clone, Debug, PartialEq, Eq)]
pub enum ScanTransition {
    /// Submits the element's bytes; which bytes is bound here.
    Request { hash: ContentHash },
    Clean { outcome: Outcome },
    /// `threat` is the detection name, when the engine gives one.
    Infected { threat: Option<String>, outcome: Outcome },
    /// The bytes cannot be scanned: a verdict, never an outage.
    Failed { outcome: Outcome },
    Abandon { reason: AbandonReason, outcome: Outcome },
}

/// The model of [`ScanTransition`].
#[verifier::ext_equal]
pub enum ScanTransitionModel {
    Request { hash: Seq<u8> },
    Clean { outcome: OutcomeModel },
    Infected { threat: Option<Seq<char>>, outcome: OutcomeModel },
    Failed { outcome: OutcomeModel },
    Abandon { reason: AbandonReason, outcome: OutcomeModel },
}

impl DeepView for ScanTransition {
    type V = ScanTransitionModel;

    open spec fn deep_view(&self) -> ScanTransitionModel {
        match self {
            ScanTransition::Request { hash } => ScanTransitionModel::Request {
                hash: hash.deep_view(),
            },
            ScanTransition::Clean { outcome } => ScanTransitionModel::Clean {
                outcome: outcome.deep_view(),
            },
            ScanTransition::Infected { threat, outcome } => ScanTransitionModel::Infected {
                threat: threat.deep_view(),
                outcome: outcome.deep_view(),
            },
            ScanTransition::Failed { outcome } => ScanTransitionModel::Failed {
                outcome: outcome.deep_view(),
            },
            ScanTransition::Abandon { reason, outcome } => ScanTransitionModel::Abandon {
                reason: reason.deep_view(),
                outcome: outcome.deep_view(),
            },
        }
    }
}

impl View for ScanTransition {
    type V = ScanTransitionModel;

    open spec fn view(&self) -> ScanTransitionModel {
        self.deep_view()
    }
}

impl Modeled for ScanTransition {
    fn dup(&self) -> (r: Self) {
        match self {
            ScanTransition::Request { hash } => ScanTransition::Request {
                hash: hash.dup(),
            },
            ScanTransition::Clean { outcome } => ScanTransition::Clean {
                outcome: outcome.dup(),
            },
            ScanTransition::Infected { threat, outcome } => ScanTransition::Infected {
                threat: threat.dup(),
                outcome: outcome.dup(),
            },
            ScanTransition::Failed { outcome } => ScanTransition::Failed {
                outcome: outcome.dup(),
            },
            ScanTransition::Abandon { reason, outcome } => ScanTransition::Abandon {
                reason: reason.dup(),
                outcome: outcome.dup(),
            },
        }
    }

    fn same(&self, other: &Self) -> (b: bool) {
        match (self, other) {
            (
                ScanTransition::Request { hash },
                ScanTransition::Request { hash: hash2 },
            ) => {
                hash.same(hash2)
            },
            (
                ScanTransition::Clean { outcome },
                ScanTransition::Clean { outcome: outcome2 },
            ) => {
                outcome.same(outcome2)
            },
            (
                ScanTransition::Infected { threat, outcome },
                ScanTransition::Infected { threat: threat2, outcome: outcome2 },
            ) => {
                threat.same(threat2)
                    && outcome.same(outcome2)
            },
            (
                ScanTransition::Failed { outcome },
                ScanTransition::Failed { outcome: outcome2 },
            ) => {
                outcome.same(outcome2)
            },
            (
                ScanTransition::Abandon { reason, outcome },
                ScanTransition::Abandon { reason: reason2, outcome: outcome2 },
            ) => {
                reason.same(reason2)
                    && outcome.same(outcome2)
            },
            _ => false,
        }
    }
}

/// Where a scan stands.
#[derive(Clone, Copy, Debug, PartialEq, Eq, Structural)]
pub enum ScanStatus {
    Pending,
    Clean,
    Infected,
    Failed,
    Abandoned(AbandonReason),
}

impl DeepView for ScanStatus {
    type V = ScanStatus;

    open spec fn deep_view(&self) -> ScanStatus {
        *self
    }
}

impl View for ScanStatus {
    type V = ScanStatus;

    open spec fn view(&self) -> ScanStatus {
        *self
    }
}

impl Modeled for ScanStatus {
    fn dup(&self) -> (r: Self) {
        *self
    }

    fn same(&self, other: &Self) -> (b: bool) {
        *self == *other
    }
}

impl ScanStatus {
    pub fn is_pending(self) -> (r: bool)
        ensures
            r == (self == ScanStatus::Pending),
    {
        matches!(self, ScanStatus::Pending)
    }
}

impl ScanTransitionModel {
    /// The status in which a step leaves the scan.
    pub open spec fn status(self) -> ScanStatus {
        match self {
            ScanTransitionModel::Request { .. } => ScanStatus::Pending,
            ScanTransitionModel::Clean { .. } => ScanStatus::Clean,
            ScanTransitionModel::Infected { .. } => ScanStatus::Infected,
            ScanTransitionModel::Failed { .. } => ScanStatus::Failed,
            ScanTransitionModel::Abandon { reason, .. } => ScanStatus::Abandoned(reason),
        }
    }

    /// The summary that a verdict carries.
    pub open spec fn outcome(self) -> Option<OutcomeModel> {
        match self {
            ScanTransitionModel::Request { .. } => None,
            ScanTransitionModel::Clean { outcome } => Some(outcome),
            ScanTransitionModel::Infected { outcome, .. } => Some(outcome),
            ScanTransitionModel::Failed { outcome } => Some(outcome),
            ScanTransitionModel::Abandon { outcome, .. } => Some(outcome),
        }
    }
}

impl ScanTransition {
    pub fn status(&self) -> (r: ScanStatus)
        ensures
            r == self@.status(),
    {
        match self {
            ScanTransition::Request { .. } => ScanStatus::Pending,
            ScanTransition::Clean { .. } => ScanStatus::Clean,
            ScanTransition::Infected { .. } => ScanStatus::Infected,
            ScanTransition::Failed { .. } => ScanStatus::Failed,
            ScanTransition::Abandon { reason, .. } => ScanStatus::Abandoned(*reason),
        }
    }

    fn outcome(&self) -> (r: Option<Outcome>)
        ensures
            r.deep_view() == self@.outcome(),
    {
        match self {
            ScanTransition::Request { .. } => None,
            ScanTransition::Clean { outcome } => Some(outcome.dup()),
            ScanTransition::Infected { outcome, .. } => Some(outcome.dup()),
            ScanTransition::Failed { outcome } => Some(outcome.dup()),
            ScanTransition::Abandon { outcome, .. } => Some(outcome.dup()),
        }
    }
}

/// The scan of one attachment element. It outlives the element in its
/// cell: the scan of a replaced file stays as history.
#[derive(Clone, Debug, PartialEq, Eq)]
pub struct Scan {
    pub element: String,
    /// The bytes submitted by the latest request.
    pub hash: ContentHash,
    pub status: ScanStatus,
    /// The entry that carries the latest request.
    pub requested_at: u64,
    /// The entry that carries the verdict, if there is one.
    pub closed_at: Option<u64>,
    /// The detection name of an infected verdict, when given.
    pub threat: Option<String>,
    /// The verdict's summary, if the scan is closed.
    pub outcome: Option<Outcome>,
}

/// The model of [`Scan`].
#[verifier::ext_equal]
pub struct ScanModel {
    pub element: Seq<char>,
    pub hash: Seq<u8>,
    pub status: ScanStatus,
    pub requested_at: u64,
    pub closed_at: Option<u64>,
    pub threat: Option<Seq<char>>,
    pub outcome: Option<OutcomeModel>,
}

impl DeepView for Scan {
    type V = ScanModel;

    open spec fn deep_view(&self) -> ScanModel {
        ScanModel {
            element: self.element.deep_view(),
            hash: self.hash.deep_view(),
            status: self.status.deep_view(),
            requested_at: self.requested_at,
            closed_at: self.closed_at.deep_view(),
            threat: self.threat.deep_view(),
            outcome: self.outcome.deep_view(),
        }
    }
}

impl View for Scan {
    type V = ScanModel;

    open spec fn view(&self) -> ScanModel {
        self.deep_view()
    }
}

impl Modeled for Scan {
    fn dup(&self) -> (r: Self) {
        Scan {
            element: self.element.dup(),
            hash: self.hash.dup(),
            status: self.status.dup(),
            requested_at: self.requested_at,
            closed_at: self.closed_at.dup(),
            threat: self.threat.dup(),
            outcome: self.outcome.dup(),
        }
    }

    fn same(&self, other: &Self) -> (b: bool) {
        self.element.same(&other.element)
            && self.hash.same(&other.hash)
            && self.status.same(&other.status)
            && self.requested_at == other.requested_at
            && self.closed_at.same(&other.closed_at)
            && self.threat.same(&other.threat)
            && self.outcome.same(&other.outcome)
    }
}

/// A scan step that the table does not allow.
#[derive(Clone, Debug, PartialEq, Eq)]
pub enum ScanLifecycleError {
    /// A request while the scan is pending.
    AlreadyPending { element: String },
    /// A verdict on a scan that was never requested or is closed.
    NotPending { element: String, status: Option<ScanStatus> },
}

/// The model of [`ScanLifecycleError`].
#[verifier::ext_equal]
pub enum ScanLifecycleErrorModel {
    AlreadyPending { element: Seq<char> },
    NotPending { element: Seq<char>, status: Option<ScanStatus> },
}

impl DeepView for ScanLifecycleError {
    type V = ScanLifecycleErrorModel;

    open spec fn deep_view(&self) -> ScanLifecycleErrorModel {
        match self {
            ScanLifecycleError::AlreadyPending { element } => ScanLifecycleErrorModel::AlreadyPending {
                element: element.deep_view(),
            },
            ScanLifecycleError::NotPending { element, status } => ScanLifecycleErrorModel::NotPending {
                element: element.deep_view(),
                status: status.deep_view(),
            },
        }
    }
}

impl View for ScanLifecycleError {
    type V = ScanLifecycleErrorModel;

    open spec fn view(&self) -> ScanLifecycleErrorModel {
        self.deep_view()
    }
}

impl Modeled for ScanLifecycleError {
    fn dup(&self) -> (r: Self) {
        match self {
            ScanLifecycleError::AlreadyPending { element } => ScanLifecycleError::AlreadyPending {
                element: element.dup(),
            },
            ScanLifecycleError::NotPending { element, status } => ScanLifecycleError::NotPending {
                element: element.dup(),
                status: status.dup(),
            },
        }
    }

    fn same(&self, other: &Self) -> (b: bool) {
        match (self, other) {
            (
                ScanLifecycleError::AlreadyPending { element },
                ScanLifecycleError::AlreadyPending { element: element2 },
            ) => {
                element.same(element2)
            },
            (
                ScanLifecycleError::NotPending { element, status },
                ScanLifecycleError::NotPending { element: element2, status: status2 },
            ) => {
                element.same(element2)
                    && status.same(status2)
            },
            _ => false,
        }
    }
}

/// The status of an element's scan, if it was ever requested.
pub open spec fn scan_status(scans: Map<Seq<char>, ScanModel>, element: Seq<char>) -> Option<
    ScanStatus,
> {
    if scans.dom().contains(element) {
        Some(scans[element].status)
    } else {
        None
    }
}

/// The scans after a step, or why the step is refused.
pub open spec fn scan_step(
    scans: Map<Seq<char>, ScanModel>,
    seq: u64,
    element: Seq<char>,
    transition: ScanTransitionModel,
) -> Result<Map<Seq<char>, ScanModel>, ScanLifecycleErrorModel> {
    let status = scan_status(scans, element);
    match transition {
        ScanTransitionModel::Request { hash } => if status == Some(ScanStatus::Pending) {
            Err(ScanLifecycleErrorModel::AlreadyPending { element })
        } else {
            Ok(
                scans.insert(
                    element,
                    ScanModel {
                        element,
                        hash,
                        status: ScanStatus::Pending,
                        requested_at: seq,
                        closed_at: None,
                        threat: None,
                        outcome: None,
                    },
                ),
            )
        },
        _ => if status != Some(ScanStatus::Pending) {
            Err(ScanLifecycleErrorModel::NotPending { element, status })
        } else {
            Ok(
                scans.insert(
                    element,
                    ScanModel {
                        status: transition.status(),
                        closed_at: Some(seq),
                        threat: match transition {
                            ScanTransitionModel::Infected { threat, .. } => threat,
                            _ => scans[element].threat,
                        },
                        outcome: transition.outcome(),
                        ..scans[element]
                    },
                ),
            )
        },
    }
}

/// Folds one step into the scans; a refused step changes nothing.
pub fn fold_scan_transition(
    scans: &mut OrderedMap<String, Scan>,
    seq: u64,
    element: &String,
    transition: &ScanTransition,
) -> (r: Result<(), ScanLifecycleError>)
    ensures
        match scan_step(old(scans)@, seq, element@, transition@) {
            Ok(after) => r is Ok && final(scans)@ == after,
            Err(e) => r matches Err(x) && x@ == e && final(scans)@ == old(scans)@,
        },
{
    let current = match scans.get(element) {
        Some(s) => Some(s.status),
        None => None,
    };
    let pending = match current {
        Some(s) => s.is_pending(),
        None => false,
    };
    match transition {
        ScanTransition::Request { hash } => {
            if pending {
                return Err(ScanLifecycleError::AlreadyPending { element: element.dup() });
            }
            scans.insert(
                element.dup(),
                Scan {
                    element: element.dup(),
                    hash: hash.dup(),
                    status: ScanStatus::Pending,
                    requested_at: seq,
                    closed_at: None,
                    threat: None,
                    outcome: None,
                },
            );
            Ok(())
        },
        verdict => {
            let mut scan = match scans.get(element) {
                Some(s) => s.dup(),
                None => {
                    return Err(
                        ScanLifecycleError::NotPending { element: element.dup(), status: None },
                    );
                },
            };
            if !pending {
                return Err(
                    ScanLifecycleError::NotPending {
                        element: element.dup(),
                        status: Some(scan.status),
                    },
                );
            }
            scan.status = verdict.status();
            scan.closed_at = Some(seq);
            scan.outcome = verdict.outcome();
            if let ScanTransition::Infected { threat, .. } = verdict {
                scan.threat = threat.dup();
            }
            scans.insert(element.dup(), scan);
            Ok(())
        },
    }
}

/// A step is accepted exactly when it is a request and the scan is not
/// pending, or a verdict and the scan is pending. An accepted step
/// leaves the scan in the step's status and touches no other element.
pub proof fn scan_table(
    scans: Map<Seq<char>, ScanModel>,
    seq: u64,
    element: Seq<char>,
    transition: ScanTransitionModel,
)
    ensures
        scan_step(scans, seq, element, transition) is Ok <==> (transition is Request) != (
        scan_status(scans, element) == Some(ScanStatus::Pending)),
        scan_step(scans, seq, element, transition) matches Ok(after) ==> {
            &&& scan_status(after, element) == Some(transition.status())
            &&& after.remove(element) =~= scans.remove(element)
        },
{
}

} // verus!
