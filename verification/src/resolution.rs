//! Resolution instances, folds of lifecycle operations carried by
//! ordinary log entries.
//!
//! The record says that a lookup was requested and how it ended; what
//! lies between belongs to whoever schedules the lookups.

use vstd::prelude::*;
use crate::canonical::ContentHash;
use crate::collections::OrderedMap;
use crate::ids::{GroupId, PathSegModel, ResolverId, RowPath};
use crate::order::Modeled;
use crate::scan::{ScanLifecycleError, ScanLifecycleErrorModel};

verus! {

/// The identity of a resolution instance: the anchor group and the row
/// path of its instance.
pub type ResolutionKey = (GroupId, RowPath);

/// A step of a resolution instance.
///
/// A pending instance ends resolved, not found, ambiguous, failed or
/// abandoned; from absence and from any of these a request opens it.
#[derive(Clone, Debug, PartialEq, Eq)]
pub enum Transition {
    /// Opens the instance and binds the versions: the same request
    /// resolves in the same way whenever the answer comes.
    Request { resolver: ResolverId, resolver_version: u32, mapping_version: u32 },
    /// The payload landed.
    Land { snapshot: ContentHash, outcome: Outcome },
    NotFound { outcome: Outcome },
    Ambiguous { outcome: Outcome },
    /// A definitive answer, never a timeout.
    Failed { outcome: Outcome },
    /// Policy gave up: an explicit recorded event.
    Abandon { reason: AbandonReason, outcome: Outcome },
}

/// The model of [`Transition`].
#[verifier::ext_equal]
pub enum TransitionModel {
    Request { resolver: Seq<char>, resolver_version: u32, mapping_version: u32 },
    Land { snapshot: Seq<u8>, outcome: OutcomeModel },
    NotFound { outcome: OutcomeModel },
    Ambiguous { outcome: OutcomeModel },
    Failed { outcome: OutcomeModel },
    Abandon { reason: AbandonReason, outcome: OutcomeModel },
}

impl DeepView for Transition {
    type V = TransitionModel;

    open spec fn deep_view(&self) -> TransitionModel {
        match self {
            Transition::Request { resolver, resolver_version, mapping_version } => TransitionModel::Request {
                resolver: resolver.deep_view(),
                resolver_version: *resolver_version,
                mapping_version: *mapping_version,
            },
            Transition::Land { snapshot, outcome } => TransitionModel::Land {
                snapshot: snapshot.deep_view(),
                outcome: outcome.deep_view(),
            },
            Transition::NotFound { outcome } => TransitionModel::NotFound {
                outcome: outcome.deep_view(),
            },
            Transition::Ambiguous { outcome } => TransitionModel::Ambiguous {
                outcome: outcome.deep_view(),
            },
            Transition::Failed { outcome } => TransitionModel::Failed {
                outcome: outcome.deep_view(),
            },
            Transition::Abandon { reason, outcome } => TransitionModel::Abandon {
                reason: reason.deep_view(),
                outcome: outcome.deep_view(),
            },
        }
    }
}

impl View for Transition {
    type V = TransitionModel;

    open spec fn view(&self) -> TransitionModel {
        self.deep_view()
    }
}

impl Modeled for Transition {
    fn dup(&self) -> (r: Self) {
        match self {
            Transition::Request { resolver, resolver_version, mapping_version } => Transition::Request {
                resolver: resolver.dup(),
                resolver_version: *resolver_version,
                mapping_version: *mapping_version,
            },
            Transition::Land { snapshot, outcome } => Transition::Land {
                snapshot: snapshot.dup(),
                outcome: outcome.dup(),
            },
            Transition::NotFound { outcome } => Transition::NotFound {
                outcome: outcome.dup(),
            },
            Transition::Ambiguous { outcome } => Transition::Ambiguous {
                outcome: outcome.dup(),
            },
            Transition::Failed { outcome } => Transition::Failed {
                outcome: outcome.dup(),
            },
            Transition::Abandon { reason, outcome } => Transition::Abandon {
                reason: reason.dup(),
                outcome: outcome.dup(),
            },
        }
    }

    fn same(&self, other: &Self) -> (b: bool) {
        match (self, other) {
            (
                Transition::Request { resolver, resolver_version, mapping_version },
                Transition::Request { resolver: resolver2, resolver_version: resolver_version2, mapping_version: mapping_version2 },
            ) => {
                resolver.same(resolver2)
                    && *resolver_version == *resolver_version2
                    && *mapping_version == *mapping_version2
            },
            (
                Transition::Land { snapshot, outcome },
                Transition::Land { snapshot: snapshot2, outcome: outcome2 },
            ) => {
                snapshot.same(snapshot2)
                    && outcome.same(outcome2)
            },
            (
                Transition::NotFound { outcome },
                Transition::NotFound { outcome: outcome2 },
            ) => {
                outcome.same(outcome2)
            },
            (
                Transition::Ambiguous { outcome },
                Transition::Ambiguous { outcome: outcome2 },
            ) => {
                outcome.same(outcome2)
            },
            (
                Transition::Failed { outcome },
                Transition::Failed { outcome: outcome2 },
            ) => {
                outcome.same(outcome2)
            },
            (
                Transition::Abandon { reason, outcome },
                Transition::Abandon { reason: reason2, outcome: outcome2 },
            ) => {
                reason.same(reason2)
                    && outcome.same(outcome2)
            },
            _ => false,
        }
    }
}

/// How an end was reached: the summary of the attempts behind it.
#[derive(Clone, Debug, PartialEq, Eq)]
pub struct Outcome {
    pub attempts: u32,
    pub last_error: Option<String>,
}

/// The model of [`Outcome`].
#[verifier::ext_equal]
pub struct OutcomeModel {
    pub attempts: u32,
    pub last_error: Option<Seq<char>>,
}

impl DeepView for Outcome {
    type V = OutcomeModel;

    open spec fn deep_view(&self) -> OutcomeModel {
        OutcomeModel {
            attempts: self.attempts,
            last_error: self.last_error.deep_view(),
        }
    }
}

impl View for Outcome {
    type V = OutcomeModel;

    open spec fn view(&self) -> OutcomeModel {
        self.deep_view()
    }
}

impl Modeled for Outcome {
    fn dup(&self) -> (r: Self) {
        Outcome {
            attempts: self.attempts,
            last_error: self.last_error.dup(),
        }
    }

    fn same(&self, other: &Self) -> (b: bool) {
        self.attempts == other.attempts
            && self.last_error.same(&other.last_error)
    }
}

impl Default for Outcome {
    fn default() -> (r: Self)
        ensures
            r@ == (OutcomeModel { attempts: 0, last_error: None }),
    {
        Outcome { attempts: 0, last_error: None }
    }
}

/// Why an instance was abandoned.
#[derive(Clone, Copy, Debug, PartialEq, Eq, Structural)]
pub enum AbandonReason {
    /// The abandonment policy ran out.
    Deadline,
    /// An operator decided.
    Operator,
    /// No implementation can serve this resolver here.
    ResolverUnavailable,
    /// The input changed while the lookup was pending; a fresh request
    /// follows.
    Superseded,
}

impl DeepView for AbandonReason {
    type V = AbandonReason;

    open spec fn deep_view(&self) -> AbandonReason {
        *self
    }
}

impl View for AbandonReason {
    type V = AbandonReason;

    open spec fn view(&self) -> AbandonReason {
        *self
    }
}

impl Modeled for AbandonReason {
    fn dup(&self) -> (r: Self) {
        *self
    }

    fn same(&self, other: &Self) -> (b: bool) {
        *self == *other
    }
}

/// Where an instance stands.
#[derive(Clone, Copy, Debug, PartialEq, Eq, Structural)]
pub enum ResolutionStatus {
    Pending,
    Resolved,
    NotFound,
    Ambiguous,
    Failed,
    Abandoned(AbandonReason),
}

impl DeepView for ResolutionStatus {
    type V = ResolutionStatus;

    open spec fn deep_view(&self) -> ResolutionStatus {
        *self
    }
}

impl View for ResolutionStatus {
    type V = ResolutionStatus;

    open spec fn view(&self) -> ResolutionStatus {
        *self
    }
}

impl Modeled for ResolutionStatus {
    fn dup(&self) -> (r: Self) {
        *self
    }

    fn same(&self, other: &Self) -> (b: bool) {
        *self == *other
    }
}

impl ResolutionStatus {
    pub fn is_pending(self) -> (r: bool)
        ensures
            r == (self == ResolutionStatus::Pending),
    {
        matches!(self, ResolutionStatus::Pending)
    }
}

impl TransitionModel {
    /// The status in which a step leaves the instance.
    pub open spec fn status(self) -> ResolutionStatus {
        match self {
            TransitionModel::Request { .. } => ResolutionStatus::Pending,
            TransitionModel::Land { .. } => ResolutionStatus::Resolved,
            TransitionModel::NotFound { .. } => ResolutionStatus::NotFound,
            TransitionModel::Ambiguous { .. } => ResolutionStatus::Ambiguous,
            TransitionModel::Failed { .. } => ResolutionStatus::Failed,
            TransitionModel::Abandon { reason, .. } => ResolutionStatus::Abandoned(reason),
        }
    }

    /// The summary that an ending step carries.
    pub open spec fn outcome(self) -> Option<OutcomeModel> {
        match self {
            TransitionModel::Request { .. } => None,
            TransitionModel::Land { outcome, .. } => Some(outcome),
            TransitionModel::NotFound { outcome } => Some(outcome),
            TransitionModel::Ambiguous { outcome } => Some(outcome),
            TransitionModel::Failed { outcome } => Some(outcome),
            TransitionModel::Abandon { outcome, .. } => Some(outcome),
        }
    }
}

impl Transition {
    pub fn status(&self) -> (r: ResolutionStatus)
        ensures
            r == self@.status(),
    {
        match self {
            Transition::Request { .. } => ResolutionStatus::Pending,
            Transition::Land { .. } => ResolutionStatus::Resolved,
            Transition::NotFound { .. } => ResolutionStatus::NotFound,
            Transition::Ambiguous { .. } => ResolutionStatus::Ambiguous,
            Transition::Failed { .. } => ResolutionStatus::Failed,
            Transition::Abandon { reason, .. } => ResolutionStatus::Abandoned(*reason),
        }
    }

    fn outcome(&self) -> (r: Option<Outcome>)
        ensures
            r.deep_view() == self@.outcome(),
    {
        match self {
            Transition::Request { .. } => None,
            Transition::Land { outcome, .. } => Some(outcome.dup()),
            Transition::NotFound { outcome } => Some(outcome.dup()),
            Transition::Ambiguous { outcome } => Some(outcome.dup()),
            Transition::Failed { outcome } => Some(outcome.dup()),
            Transition::Abandon { outcome, .. } => Some(outcome.dup()),
        }
    }
}

/// One resolution instance.
#[derive(Clone, Debug, PartialEq, Eq)]
pub struct Resolution {
    /// Which group the resolution feeds.
    pub anchor: GroupId,
    pub scope: RowPath,
    pub resolver: ResolverId,
    /// Bound by the request, not by its completion.
    pub resolver_version: u32,
    pub mapping_version: u32,
    pub status: ResolutionStatus,
    /// The entry that carries the latest request.
    pub requested_at: u64,
    /// The entry that carries the ending step, if there is one.
    pub closed_at: Option<u64>,
    /// The payload that landed.
    pub snapshot: Option<ContentHash>,
    /// The ending step's summary, if the instance is closed.
    pub outcome: Option<Outcome>,
}

/// The model of [`Resolution`].
#[verifier::ext_equal]
pub struct ResolutionModel {
    pub anchor: Seq<char>,
    pub scope: Seq<PathSegModel>,
    pub resolver: Seq<char>,
    pub resolver_version: u32,
    pub mapping_version: u32,
    pub status: ResolutionStatus,
    pub requested_at: u64,
    pub closed_at: Option<u64>,
    pub snapshot: Option<Seq<u8>>,
    pub outcome: Option<OutcomeModel>,
}

impl DeepView for Resolution {
    type V = ResolutionModel;

    open spec fn deep_view(&self) -> ResolutionModel {
        ResolutionModel {
            anchor: self.anchor.deep_view(),
            scope: self.scope.deep_view(),
            resolver: self.resolver.deep_view(),
            resolver_version: self.resolver_version,
            mapping_version: self.mapping_version,
            status: self.status.deep_view(),
            requested_at: self.requested_at,
            closed_at: self.closed_at.deep_view(),
            snapshot: self.snapshot.deep_view(),
            outcome: self.outcome.deep_view(),
        }
    }
}

impl View for Resolution {
    type V = ResolutionModel;

    open spec fn view(&self) -> ResolutionModel {
        self.deep_view()
    }
}

impl Modeled for Resolution {
    fn dup(&self) -> (r: Self) {
        Resolution {
            anchor: self.anchor.dup(),
            scope: self.scope.dup(),
            resolver: self.resolver.dup(),
            resolver_version: self.resolver_version,
            mapping_version: self.mapping_version,
            status: self.status.dup(),
            requested_at: self.requested_at,
            closed_at: self.closed_at.dup(),
            snapshot: self.snapshot.dup(),
            outcome: self.outcome.dup(),
        }
    }

    fn same(&self, other: &Self) -> (b: bool) {
        self.anchor.same(&other.anchor)
            && self.scope.same(&other.scope)
            && self.resolver.same(&other.resolver)
            && self.resolver_version == other.resolver_version
            && self.mapping_version == other.mapping_version
            && self.status.same(&other.status)
            && self.requested_at == other.requested_at
            && self.closed_at.same(&other.closed_at)
            && self.snapshot.same(&other.snapshot)
            && self.outcome.same(&other.outcome)
    }
}

impl Resolution {
    pub fn key(&self) -> (r: ResolutionKey)
        ensures
            r.deep_view() == (self@.anchor, self@.scope),
    {
        (self.anchor.dup(), self.scope.dup())
    }
}

/// A pending resolution that a checkpoint expects to land after it.
#[derive(Clone, Debug, PartialEq, Eq)]
pub struct ExpectedResolution {
    pub anchor: GroupId,
    pub scope: RowPath,
    pub resolver: ResolverId,
    /// The versions bound by the request. A late write under other
    /// versions is not the resolution that was expected.
    pub resolver_version: u32,
    pub mapping_version: u32,
}

/// The model of [`ExpectedResolution`].
#[verifier::ext_equal]
pub struct ExpectedResolutionModel {
    pub anchor: Seq<char>,
    pub scope: Seq<PathSegModel>,
    pub resolver: Seq<char>,
    pub resolver_version: u32,
    pub mapping_version: u32,
}

impl DeepView for ExpectedResolution {
    type V = ExpectedResolutionModel;

    open spec fn deep_view(&self) -> ExpectedResolutionModel {
        ExpectedResolutionModel {
            anchor: self.anchor.deep_view(),
            scope: self.scope.deep_view(),
            resolver: self.resolver.deep_view(),
            resolver_version: self.resolver_version,
            mapping_version: self.mapping_version,
        }
    }
}

impl View for ExpectedResolution {
    type V = ExpectedResolutionModel;

    open spec fn view(&self) -> ExpectedResolutionModel {
        self.deep_view()
    }
}

impl Modeled for ExpectedResolution {
    fn dup(&self) -> (r: Self) {
        ExpectedResolution {
            anchor: self.anchor.dup(),
            scope: self.scope.dup(),
            resolver: self.resolver.dup(),
            resolver_version: self.resolver_version,
            mapping_version: self.mapping_version,
        }
    }

    fn same(&self, other: &Self) -> (b: bool) {
        self.anchor.same(&other.anchor)
            && self.scope.same(&other.scope)
            && self.resolver.same(&other.resolver)
            && self.resolver_version == other.resolver_version
            && self.mapping_version == other.mapping_version
    }
}

impl ExpectedResolutionModel {
    /// Whether an instance is the one expected.
    pub open spec fn matches(self, r: ResolutionModel) -> bool {
        &&& self.anchor == r.anchor
        &&& self.scope == r.scope
        &&& self.resolver == r.resolver
        &&& self.resolver_version == r.resolver_version
        &&& self.mapping_version == r.mapping_version
    }
}

impl ExpectedResolution {
    pub fn matches(&self, r: &Resolution) -> (b: bool)
        ensures
            b == self@.matches(r@),
    {
        self.anchor.same(&r.anchor) && self.scope.same(&r.scope) && self.resolver.same(&r.resolver)
            && self.resolver_version == r.resolver_version && self.mapping_version
            == r.mapping_version
    }
}

/// A lifecycle operation that the log refuses.
#[derive(Clone, Debug, PartialEq, Eq)]
pub enum LifecycleError {
    /// A request while the instance is pending.
    AlreadyPending { anchor: GroupId, scope: RowPath },
    /// An ending step on an instance that is absent or closed.
    NotPending { anchor: GroupId, scope: RowPath, status: Option<ResolutionStatus> },
    /// A checkpoint may only expect resolutions that are pending where it
    /// stands, under the versions they were requested with.
    ExpectedNotPending(ExpectedResolution),
    /// An entry carries more than one checkpoint.
    MultipleCheckpoints,
    /// A scan step that the scan table does not allow.
    Scan(ScanLifecycleError),
}

/// The model of [`LifecycleError`].
#[verifier::ext_equal]
pub enum LifecycleErrorModel {
    AlreadyPending { anchor: Seq<char>, scope: Seq<PathSegModel> },
    NotPending { anchor: Seq<char>, scope: Seq<PathSegModel>, status: Option<ResolutionStatus> },
    ExpectedNotPending(ExpectedResolutionModel),
    MultipleCheckpoints,
    Scan(ScanLifecycleErrorModel),
}

impl DeepView for LifecycleError {
    type V = LifecycleErrorModel;

    open spec fn deep_view(&self) -> LifecycleErrorModel {
        match self {
            LifecycleError::AlreadyPending { anchor, scope } => LifecycleErrorModel::AlreadyPending {
                anchor: anchor.deep_view(),
                scope: scope.deep_view(),
            },
            LifecycleError::NotPending { anchor, scope, status } => LifecycleErrorModel::NotPending {
                anchor: anchor.deep_view(),
                scope: scope.deep_view(),
                status: status.deep_view(),
            },
            LifecycleError::ExpectedNotPending(x) => LifecycleErrorModel::ExpectedNotPending(x.deep_view()),
            LifecycleError::MultipleCheckpoints => LifecycleErrorModel::MultipleCheckpoints,
            LifecycleError::Scan(x) => LifecycleErrorModel::Scan(x.deep_view()),
        }
    }
}

impl View for LifecycleError {
    type V = LifecycleErrorModel;

    open spec fn view(&self) -> LifecycleErrorModel {
        self.deep_view()
    }
}

impl Modeled for LifecycleError {
    fn dup(&self) -> (r: Self) {
        match self {
            LifecycleError::AlreadyPending { anchor, scope } => LifecycleError::AlreadyPending {
                anchor: anchor.dup(),
                scope: scope.dup(),
            },
            LifecycleError::NotPending { anchor, scope, status } => LifecycleError::NotPending {
                anchor: anchor.dup(),
                scope: scope.dup(),
                status: status.dup(),
            },
            LifecycleError::ExpectedNotPending(x) => LifecycleError::ExpectedNotPending(x.dup()),
            LifecycleError::MultipleCheckpoints => LifecycleError::MultipleCheckpoints,
            LifecycleError::Scan(x) => LifecycleError::Scan(x.dup()),
        }
    }

    fn same(&self, other: &Self) -> (b: bool) {
        match (self, other) {
            (
                LifecycleError::AlreadyPending { anchor, scope },
                LifecycleError::AlreadyPending { anchor: anchor2, scope: scope2 },
            ) => {
                anchor.same(anchor2)
                    && scope.same(scope2)
            },
            (
                LifecycleError::NotPending { anchor, scope, status },
                LifecycleError::NotPending { anchor: anchor2, scope: scope2, status: status2 },
            ) => {
                anchor.same(anchor2)
                    && scope.same(scope2)
                    && status.same(status2)
            },
            (LifecycleError::ExpectedNotPending(x), LifecycleError::ExpectedNotPending(y)) => x.same(y),
            (LifecycleError::MultipleCheckpoints, LifecycleError::MultipleCheckpoints) => true,
            (LifecycleError::Scan(x), LifecycleError::Scan(y)) => x.same(y),
            _ => false,
        }
    }
}

/// The status of an instance, if it was ever requested.
pub open spec fn resolution_status(
    resolutions: Map<(Seq<char>, Seq<PathSegModel>), ResolutionModel>,
    key: (Seq<char>, Seq<PathSegModel>),
) -> Option<ResolutionStatus> {
    if resolutions.dom().contains(key) {
        Some(resolutions[key].status)
    } else {
        None
    }
}

/// The instances after a step, or why the step is refused.
pub open spec fn resolution_step(
    resolutions: Map<(Seq<char>, Seq<PathSegModel>), ResolutionModel>,
    seq: u64,
    anchor: Seq<char>,
    scope: Seq<PathSegModel>,
    transition: TransitionModel,
) -> Result<Map<(Seq<char>, Seq<PathSegModel>), ResolutionModel>, LifecycleErrorModel> {
    let key = (anchor, scope);
    let status = resolution_status(resolutions, key);
    match transition {
        TransitionModel::Request { resolver, resolver_version, mapping_version } => if status
            == Some(ResolutionStatus::Pending) {
            Err(LifecycleErrorModel::AlreadyPending { anchor, scope })
        } else {
            Ok(
                resolutions.insert(
                    key,
                    ResolutionModel {
                        anchor,
                        scope,
                        resolver,
                        resolver_version,
                        mapping_version,
                        status: ResolutionStatus::Pending,
                        requested_at: seq,
                        closed_at: None,
                        snapshot: None,
                        outcome: None,
                    },
                ),
            )
        },
        _ => if status != Some(ResolutionStatus::Pending) {
            Err(LifecycleErrorModel::NotPending { anchor, scope, status })
        } else {
            Ok(
                resolutions.insert(
                    key,
                    ResolutionModel {
                        status: transition.status(),
                        closed_at: Some(seq),
                        snapshot: match transition {
                            TransitionModel::Land { snapshot, .. } => Some(snapshot),
                            _ => resolutions[key].snapshot,
                        },
                        outcome: transition.outcome(),
                        ..resolutions[key]
                    },
                ),
            )
        },
    }
}

/// Folds one step into the instances; a refused step changes nothing.
pub fn fold_transition(
    resolutions: &mut OrderedMap<ResolutionKey, Resolution>,
    seq: u64,
    anchor: &GroupId,
    scope: &RowPath,
    transition: &Transition,
) -> (r: Result<(), LifecycleError>)
    ensures
        match resolution_step(old(resolutions)@, seq, anchor@, scope@, transition@) {
            Ok(after) => r is Ok && final(resolutions)@ == after,
            Err(e) => r matches Err(x) && x@ == e && final(resolutions)@ == old(resolutions)@,
        },
{
    let key = (anchor.dup(), scope.dup());
    let current = match resolutions.get(&key) {
        Some(r) => Some(r.status),
        None => None,
    };
    let pending = match current {
        Some(s) => s.is_pending(),
        None => false,
    };
    match transition {
        Transition::Request { resolver, resolver_version, mapping_version } => {
            if pending {
                return Err(
                    LifecycleError::AlreadyPending { anchor: anchor.dup(), scope: scope.dup() },
                );
            }
            resolutions.insert(
                key,
                Resolution {
                    anchor: anchor.dup(),
                    scope: scope.dup(),
                    resolver: resolver.dup(),
                    resolver_version: *resolver_version,
                    mapping_version: *mapping_version,
                    status: ResolutionStatus::Pending,
                    requested_at: seq,
                    closed_at: None,
                    snapshot: None,
                    outcome: None,
                },
            );
            Ok(())
        },
        ending => {
            let mut r = match resolutions.get(&key) {
                Some(r) => r.dup(),
                None => {
                    return Err(
                        LifecycleError::NotPending {
                            anchor: anchor.dup(),
                            scope: scope.dup(),
                            status: None,
                        },
                    );
                },
            };
            if !pending {
                return Err(
                    LifecycleError::NotPending {
                        anchor: anchor.dup(),
                        scope: scope.dup(),
                        status: Some(r.status),
                    },
                );
            }
            r.status = ending.status();
            r.closed_at = Some(seq);
            r.outcome = ending.outcome();
            if let Transition::Land { snapshot, .. } = ending {
                r.snapshot = Some(snapshot.dup());
            }
            resolutions.insert(key, r);
            Ok(())
        },
    }
}

/// A step is accepted exactly when it is a request and the instance is
/// not pending, or an ending step and the instance is pending. An
/// accepted step leaves the instance in the step's status and touches no
/// other instance.
pub proof fn resolution_table(
    resolutions: Map<(Seq<char>, Seq<PathSegModel>), ResolutionModel>,
    seq: u64,
    anchor: Seq<char>,
    scope: Seq<PathSegModel>,
    transition: TransitionModel,
)
    ensures
        resolution_step(resolutions, seq, anchor, scope, transition) is Ok <==> (
        transition is Request) != (resolution_status(resolutions, (anchor, scope)) == Some(
            ResolutionStatus::Pending,
        )),
        resolution_step(resolutions, seq, anchor, scope, transition) matches Ok(after) ==> {
            &&& resolution_status(after, (anchor, scope)) == Some(transition.status())
            &&& after.remove((anchor, scope)) =~= resolutions.remove((anchor, scope))
            &&& (after[(anchor, scope)].outcome is None <==> transition is Request)
        },
{
}

} // verus!
