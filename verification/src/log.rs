//! The append-only record log: current state is the fold of its entries.

use vstd::prelude::*;
use crate::collections;
use crate::entry;
use crate::order;
use crate::resolution;
use crate::scan;
use crate::value;
use crate::canonical::ContentHash;
use crate::checkpoint::Checkpoint;
use crate::codec::op;
use crate::collections::{OrderedMap, OrderedSet};
use crate::entry::{
    ActorKind, DerivationModel, Draft, DraftModel, Entry, EntryContent, EntryContentModel,
    EntryModel, EntryOp, EntryOpModel, Envelope, EnvelopeModel, Origin, OriginModel,
    SaltCountMismatch, genesis_hash,
};
use crate::ids::{GroupId, PathSeg, PathSegModel, RecordId, RowPath};
use crate::order::Modeled;
use crate::resolution::{
    ExpectedResolution, ExpectedResolutionModel, LifecycleError, LifecycleErrorModel, Resolution,
    ResolutionModel, ResolutionStatus, fold_transition,
};
use crate::scan::{Scan, ScanModel, ScanStatus, fold_scan_transition};
use crate::value::{
    ApplyError, ApplyErrorModel, CellAddr, CellAddrModel, Op, OpModel, RecordValues,
    RecordValuesModel, apply, diff, drop_cells_below,
};

verus! {

/// A resolver's derived write that reached a human-authored cell and was
/// not applied: an override wins over a late resolution.
#[derive(Clone, Debug, PartialEq, Eq)]
pub struct Suppressed {
    pub seq: u64,
    pub addr: CellAddr,
}

/// The model of [`Suppressed`].
#[verifier::ext_equal]
pub struct SuppressedModel {
    pub seq: u64,
    pub addr: CellAddrModel,
}

impl DeepView for Suppressed {
    type V = SuppressedModel;

    open spec fn deep_view(&self) -> SuppressedModel {
        SuppressedModel {
            seq: self.seq,
            addr: self.addr.deep_view(),
        }
    }
}

impl View for Suppressed {
    type V = SuppressedModel;

    open spec fn view(&self) -> SuppressedModel {
        self.deep_view()
    }
}

impl Modeled for Suppressed {
    fn dup(&self) -> (r: Self) {
        Suppressed {
            seq: self.seq,
            addr: self.addr.dup(),
        }
    }

    fn same(&self, other: &Self) -> (b: bool) {
        self.seq == other.seq
            && self.addr.same(&other.addr)
    }
}

/// Folded state, with the provenance of every cell.
///
/// Provenance is derived, not copied: a human write over a derived cell
/// counts as an override, whether or not its entry says so.
#[derive(Clone, Debug, PartialEq, Eq)]
pub struct FoldResult {
    pub values: RecordValues,
    pub provenance: OrderedMap<CellAddr, Origin>,
    /// Late machine writes that were not applied: visible, never silent.
    pub suppressed: Vec<Suppressed>,
    /// Resolution instances by anchor group and row path.
    pub resolutions: OrderedMap<(GroupId, RowPath), Resolution>,
    /// Attachment scans by element.
    pub scans: OrderedMap<String, Scan>,
}

/// The model of [`FoldResult`].
#[verifier::ext_equal]
pub struct FoldResultModel {
    pub values: RecordValuesModel,
    pub provenance: Map<CellAddrModel, OriginModel>,
    pub suppressed: Seq<SuppressedModel>,
    pub resolutions: Map<(Seq<char>, Seq<PathSegModel>), ResolutionModel>,
    pub scans: Map<Seq<char>, ScanModel>,
}

impl DeepView for FoldResult {
    type V = FoldResultModel;

    open spec fn deep_view(&self) -> FoldResultModel {
        FoldResultModel {
            values: self.values.deep_view(),
            provenance: self.provenance.deep_view(),
            suppressed: self.suppressed.deep_view(),
            resolutions: self.resolutions.deep_view(),
            scans: self.scans.deep_view(),
        }
    }
}

impl View for FoldResult {
    type V = FoldResultModel;

    open spec fn view(&self) -> FoldResultModel {
        self.deep_view()
    }
}

impl Modeled for FoldResult {
    fn dup(&self) -> (r: Self) {
        FoldResult {
            values: self.values.dup(),
            provenance: self.provenance.dup(),
            suppressed: self.suppressed.dup(),
            resolutions: self.resolutions.dup(),
            scans: self.scans.dup(),
        }
    }

    fn same(&self, other: &Self) -> (b: bool) {
        self.values.same(&other.values)
            && self.provenance.same(&other.provenance)
            && self.suppressed.same(&other.suppressed)
            && self.resolutions.same(&other.resolutions)
            && self.scans.same(&other.scans)
    }
}

/// Why a log does not fold.
#[derive(Clone, Debug, PartialEq, Eq)]
pub enum FoldError {
    /// An entry's operation does not apply.
    Apply { seq: u64, error: ApplyError },
    /// An entry carries a lifecycle operation that is illegal where it
    /// stands.
    Lifecycle { seq: u64, error: LifecycleError },
    /// A log point past the end; never clamped silently.
    OutOfRange { upto: u64, version: u64 },
}

/// The model of [`FoldError`].
#[verifier::ext_equal]
pub enum FoldErrorModel {
    Apply { seq: u64, error: ApplyErrorModel },
    Lifecycle { seq: u64, error: LifecycleErrorModel },
    OutOfRange { upto: u64, version: u64 },
}

impl DeepView for FoldError {
    type V = FoldErrorModel;

    open spec fn deep_view(&self) -> FoldErrorModel {
        match self {
            FoldError::Apply { seq, error } => FoldErrorModel::Apply {
                seq: *seq,
                error: error.deep_view(),
            },
            FoldError::Lifecycle { seq, error } => FoldErrorModel::Lifecycle {
                seq: *seq,
                error: error.deep_view(),
            },
            FoldError::OutOfRange { upto, version } => FoldErrorModel::OutOfRange {
                upto: *upto,
                version: *version,
            },
        }
    }
}

impl View for FoldError {
    type V = FoldErrorModel;

    open spec fn view(&self) -> FoldErrorModel {
        self.deep_view()
    }
}

impl Modeled for FoldError {
    fn dup(&self) -> (r: Self) {
        match self {
            FoldError::Apply { seq, error } => FoldError::Apply {
                seq: *seq,
                error: error.dup(),
            },
            FoldError::Lifecycle { seq, error } => FoldError::Lifecycle {
                seq: *seq,
                error: error.dup(),
            },
            FoldError::OutOfRange { upto, version } => FoldError::OutOfRange {
                upto: *upto,
                version: *version,
            },
        }
    }

    fn same(&self, other: &Self) -> (b: bool) {
        match (self, other) {
            (
                FoldError::Apply { seq, error },
                FoldError::Apply { seq: seq2, error: error2 },
            ) => {
                *seq == *seq2
                    && error.same(error2)
            },
            (
                FoldError::Lifecycle { seq, error },
                FoldError::Lifecycle { seq: seq2, error: error2 },
            ) => {
                *seq == *seq2
                    && error.same(error2)
            },
            (
                FoldError::OutOfRange { upto, version },
                FoldError::OutOfRange { upto: upto2, version: version2 },
            ) => {
                *upto == *upto2
                    && *version == *version2
            },
            _ => false,
        }
    }
}

/// The state of an empty log.
pub open spec fn no_state() -> FoldResultModel {
    FoldResultModel {
        values: value::no_values(),
        provenance: Map::empty(),
        suppressed: Seq::empty(),
        resolutions: Map::empty(),
        scans: Map::empty(),
    }
}

impl Default for FoldResult {
    fn default() -> (r: Self)
        ensures
            r@ == no_state(),
    {
        let r = FoldResult {
            values: RecordValues::new(),
            provenance: OrderedMap::new(),
            suppressed: Vec::new(),
            resolutions: OrderedMap::new(),
            scans: OrderedMap::new(),
        };
        assert(r@.suppressed =~= Seq::<SuppressedModel>::empty());
        r
    }
}

/// What a write replaces: the derivation behind a cell.
pub open spec fn replaced(current: Option<OriginModel>) -> Option<DerivationModel> {
    match current {
        Some(OriginModel::Derived(d)) => Some(d),
        Some(OriginModel::Overridden { superseded }) => superseded,
        _ => None,
    }
}

/// The provenance of a cell after a write: a human write over a derived
/// value keeps what it replaced, an override without a derivation picks
/// it up from the cell, and anything else is the entry's origin.
pub open spec fn derived_provenance(
    origin: OriginModel,
    current: Option<OriginModel>,
) -> OriginModel {
    match origin {
        OriginModel::Entered => match replaced(current) {
            Some(d) => OriginModel::Overridden { superseded: Some(d) },
            None => if current is Some && current->0 is Overridden {
                OriginModel::Overridden { superseded: None }
            } else {
                OriginModel::Entered
            },
        },
        OriginModel::Overridden { superseded: None } => OriginModel::Overridden {
            superseded: replaced(current),
        },
        _ => origin,
    }
}

fn derive_provenance(origin: &Origin, current: Option<&Origin>) -> (r: Origin)
    ensures
        r@ == derived_provenance(origin@, origin_model(current)),
{
    let before = match current {
        Some(Origin::Derived(d)) => Some(d.dup()),
        Some(Origin::Overridden { superseded }) => superseded.dup(),
        _ => None,
    };
    match origin {
        Origin::Entered => match before {
            Some(d) => Origin::Overridden { superseded: Some(d) },
            None => match current {
                Some(Origin::Overridden { .. }) => Origin::Overridden { superseded: None },
                _ => Origin::Entered,
            },
        },
        Origin::Overridden { superseded: None } => Origin::Overridden { superseded: before },
        other => other.dup(),
    }
}

pub open spec fn origin_model(o: Option<&Origin>) -> Option<OriginModel> {
    match o {
        Some(x) => Some(x@),
        None => None,
    }
}

/// The provenance recorded of a cell.
pub open spec fn provenance_of(
    provenance: Map<CellAddrModel, OriginModel>,
    addr: CellAddrModel,
) -> Option<OriginModel> {
    if provenance.dom().contains(addr) {
        Some(provenance[addr])
    } else {
        None
    }
}

/// The cell that an operation writes or clears.
pub open spec fn written_cell(op: OpModel) -> Option<CellAddrModel> {
    match op {
        OpModel::Put { column, path, .. } => Some(CellAddrModel { column, path }),
        OpModel::Unset { column, path } => Some(CellAddrModel { column, path }),
        _ => None,
    }
}

/// Whether an entry is a derived write by a resolver.
pub open spec fn is_late_write(e: EntryModel) -> bool {
    e.envelope.actor.kind == ActorKind::Resolver && e.content.origin is Derived
}

/// Whether a person has the last word on a cell.
pub open spec fn is_human(o: Option<OriginModel>) -> bool {
    o matches Some(x) && !(x is Derived)
}

/// The state after a resolver's derived write onto a human-authored cell:
/// the cell keeps its value, and gains the late derivation as superseded
/// unless it has one.
pub open spec fn suppress(
    s: FoldResultModel,
    e: EntryModel,
    addr: CellAddrModel,
) -> FoldResultModel {
    let superseded = match provenance_of(s.provenance, addr) {
        Some(OriginModel::Overridden { superseded: Some(d) }) => Some(d),
        _ => Some(e.content.origin->Derived_0),
    };
    FoldResultModel {
        provenance: s.provenance.insert(addr, OriginModel::Overridden { superseded }),
        suppressed: s.suppressed.push(SuppressedModel { seq: e.envelope.seq, addr }),
        ..s
    }
}

/// The provenance after an operation was applied.
pub open spec fn provenance_after(
    provenance: Map<CellAddrModel, OriginModel>,
    origin: OriginModel,
    op: OpModel,
) -> Map<CellAddrModel, OriginModel> {
    match op {
        OpModel::Put { column, path, .. } => {
            let addr = CellAddrModel { column, path };
            provenance.insert(addr, derived_provenance(origin, provenance_of(provenance, addr)))
        },
        OpModel::Unset { column, path } => provenance.remove(CellAddrModel { column, path }),
        OpModel::RemoveItem { group, parent, item } => value::cells_outside(
            provenance,
            parent.push(PathSegModel { group, item }),
        ),
        _ => provenance,
    }
}

/// The state after a change to the values.
pub open spec fn cell_step(s: FoldResultModel, e: EntryModel, op: OpModel) -> Result<
    FoldResultModel,
    FoldErrorModel,
> {
    match written_cell(op) {
        Some(addr) if is_late_write(e) && is_human(provenance_of(s.provenance, addr)) => Ok(
            suppress(s, e, addr),
        ),
        _ => match value::applied(s.values, op) {
            Ok(values) => Ok(
                FoldResultModel {
                    values,
                    provenance: provenance_after(s.provenance, e.content.origin, op),
                    ..s
                },
            ),
            Err(error) => Err(FoldErrorModel::Apply { seq: e.envelope.seq, error }),
        },
    }
}

/// Whether a resolution is pending as expected.
pub open spec fn is_expected(
    resolutions: Map<(Seq<char>, Seq<PathSegModel>), ResolutionModel>,
    x: ExpectedResolutionModel,
) -> bool {
    let key = (x.anchor, x.scope);
    resolutions.dom().contains(key) && resolutions[key].status == ResolutionStatus::Pending
        && x.matches(resolutions[key])
}

/// The first expectation that is not pending.
pub open spec fn first_unexpected(
    resolutions: Map<(Seq<char>, Seq<PathSegModel>), ResolutionModel>,
    expected: Seq<ExpectedResolutionModel>,
) -> Option<ExpectedResolutionModel>
    decreases expected.len(),
{
    if expected.len() == 0 {
        None
    } else {
        match first_unexpected(resolutions, expected.drop_last()) {
            Some(x) => Some(x),
            None => if is_expected(resolutions, expected.last()) {
                None
            } else {
                Some(expected.last())
            },
        }
    }
}

/// The state after one operation of an entry, and whether a checkpoint
/// has been seen in the entry.
pub open spec fn op_step(
    s: FoldResultModel,
    seen: bool,
    e: EntryModel,
    op: EntryOpModel,
) -> Result<(FoldResultModel, bool), FoldErrorModel> {
    let seq = e.envelope.seq;
    match op {
        EntryOpModel::Cell(op) => match cell_step(s, e, op) {
            Ok(after) => Ok((after, seen)),
            Err(x) => Err(x),
        },
        EntryOpModel::Resolution { anchor, scope, transition } => match resolution::resolution_step(
            s.resolutions,
            seq,
            anchor,
            scope,
            transition,
        ) {
            Ok(resolutions) => Ok((FoldResultModel { resolutions, ..s }, seen)),
            Err(error) => Err(FoldErrorModel::Lifecycle { seq, error }),
        },
        EntryOpModel::Scan { element, transition } => match scan::scan_step(
            s.scans,
            seq,
            element,
            transition,
        ) {
            Ok(scans) => Ok((FoldResultModel { scans, ..s }, seen)),
            Err(error) => Err(
                FoldErrorModel::Lifecycle { seq, error: LifecycleErrorModel::Scan(error) },
            ),
        },
        EntryOpModel::Checkpoint(c) => if seen {
            Err(FoldErrorModel::Lifecycle { seq, error: LifecycleErrorModel::MultipleCheckpoints })
        } else {
            match first_unexpected(s.resolutions, c.expected) {
                Some(x) => Err(
                    FoldErrorModel::Lifecycle {
                        seq,
                        error: LifecycleErrorModel::ExpectedNotPending(x),
                    },
                ),
                None => Ok((s, true)),
            }
        },
    }
}

/// The state after some operations of an entry.
pub open spec fn ops_step(
    s: FoldResultModel,
    e: EntryModel,
    ops: Seq<EntryOpModel>,
) -> Result<(FoldResultModel, bool), FoldErrorModel>
    decreases ops.len(),
{
    if ops.len() == 0 {
        Ok((s, false))
    } else {
        match ops_step(s, e, ops.drop_last()) {
            Ok((before, seen)) => op_step(before, seen, e, ops.last()),
            Err(x) => Err(x),
        }
    }
}

/// The state after an entry.
pub open spec fn entry_step(s: FoldResultModel, e: EntryModel) -> Result<
    FoldResultModel,
    FoldErrorModel,
> {
    match ops_step(s, e, e.content.ops) {
        Ok((after, _)) => Ok(after),
        Err(x) => Err(x),
    }
}

/// The state of a log.
pub open spec fn folded(entries: Seq<EntryModel>) -> Result<FoldResultModel, FoldErrorModel>
    decreases entries.len(),
{
    if entries.len() == 0 {
        Ok(no_state())
    } else {
        match folded(entries.drop_last()) {
            Ok(s) => entry_step(s, entries.last()),
            Err(x) => Err(x),
        }
    }
}

/// The address that an operation writes or clears.
fn cell_of(op: &Op) -> (r: Option<CellAddr>)
    ensures
        r.deep_view() == written_cell(op@),
{
    match op {
        Op::Put { column, path, .. } => Some(CellAddr { column: column.dup(), path: path.dup() }),
        Op::Unset { column, path } => Some(CellAddr { column: column.dup(), path: path.dup() }),
        _ => None,
    }
}

/// Folds a change to the values.
fn fold_cell(s: &mut FoldResult, entry: &Entry, op: &Op) -> (r: Result<(), FoldError>)
    ensures
        match cell_step(old(s)@, entry@, op@) {
            Ok(after) => r is Ok && final(s)@ == after,
            Err(e) => r matches Err(x) && x@ == e,
        },
{
    let ghost before = s@;
    let seq = entry.envelope.seq;
    if let Origin::Derived(late) = &entry.content.origin {
        if entry.envelope.actor.kind == ActorKind::Resolver {
            if let Some(addr) = cell_of(op) {
                let landed = match s.provenance.get(&addr) {
                    Some(Origin::Entered) => Some(late.dup()),
                    Some(Origin::Overridden { superseded: None }) => Some(late.dup()),
                    Some(Origin::Overridden { superseded: Some(d) }) => Some(d.dup()),
                    _ => None,
                };
                if let Some(d) = landed {
                    s.provenance.insert(addr.dup(), Origin::Overridden { superseded: Some(d) });
                    s.suppressed.push(Suppressed { seq, addr });
                    assert(s@.suppressed =~= before.suppressed.push(
                        SuppressedModel { seq, addr: addr@ },
                    ));
                    return Ok(());
                }
            }
        }
    }
    match apply(&mut s.values, op) {
        Ok(_) => {},
        Err(error) => {
            return Err(FoldError::Apply { seq, error });
        },
    }
    match op {
        Op::Put { column, path, .. } => {
            let addr = CellAddr { column: column.dup(), path: path.dup() };
            let derived = derive_provenance(&entry.content.origin, s.provenance.get(&addr));
            s.provenance.insert(addr, derived);
        },
        Op::Unset { column, path } => {
            let addr = CellAddr { column: column.dup(), path: path.dup() };
            s.provenance.remove(&addr);
        },
        Op::RemoveItem { group, parent, item } => {
            let below = parent.child(PathSeg { group: group.dup(), item: item.dup() });
            s.provenance = drop_cells_below(&s.provenance, &below);
        },
        _ => {},
    }
    Ok(())
}

/// The first expectation of a checkpoint that is not pending.
fn find_unexpected(
    resolutions: &OrderedMap<(GroupId, RowPath), Resolution>,
    expected: &Vec<ExpectedResolution>,
) -> (r: Option<ExpectedResolution>)
    ensures
        r.deep_view() == first_unexpected(resolutions@, expected.deep_view()),
{
    let ghost m = expected.deep_view();
    let mut i: usize = 0;
    assert(m.take(0) =~= Seq::<ExpectedResolutionModel>::empty());
    while i < expected.len()
        invariant
            i <= expected@.len(),
            m == expected.deep_view(),
            first_unexpected(resolutions@, m.take(i as int)) is None,
        decreases expected@.len() - i,
    {
        let x = &expected[i];
        proof {
            assert(m.take(i + 1).drop_last() =~= m.take(i as int));
            assert(m.take(i + 1).last() == x@);
        }
        let key = (x.anchor.dup(), x.scope.dup());
        let pending = match resolutions.get(&key) {
            Some(r) => r.status.is_pending() && x.matches(r),
            None => false,
        };
        if !pending {
            proof {
                unexpected_stays(resolutions@, m, i + 1);
            }
            return Some(x.dup());
        }
        i += 1;
    }
    assert(m.take(m.len() as int) =~= m);
    None
}

proof fn unexpected_stays(
    resolutions: Map<(Seq<char>, Seq<PathSegModel>), ResolutionModel>,
    expected: Seq<ExpectedResolutionModel>,
    n: int,
)
    requires
        0 <= n <= expected.len(),
        first_unexpected(resolutions, expected.take(n)) is Some,
    ensures
        first_unexpected(resolutions, expected) == first_unexpected(resolutions, expected.take(n)),
    decreases expected.len() - n,
{
    if n == expected.len() {
        assert(expected.take(n) =~= expected);
    } else {
        assert(expected.take(n + 1).drop_last() =~= expected.take(n));
        unexpected_stays(resolutions, expected, n + 1);
    }
}

/// Folds one operation of an entry.
fn fold_op(s: &mut FoldResult, seen: &mut bool, entry: &Entry, op: &EntryOp) -> (r: Result<
    (),
    FoldError,
>)
    ensures
        match op_step(old(s)@, *old(seen), entry@, op@) {
            Ok((after, now)) => r is Ok && final(s)@ == after && *final(seen) == now,
            Err(e) => r matches Err(x) && x@ == e,
        },
{
    let seq = entry.envelope.seq;
    match op {
        EntryOp::Cell(change) => fold_cell(s, entry, change),
        EntryOp::Resolution { anchor, scope, transition } => match fold_transition(
            &mut s.resolutions,
            seq,
            anchor,
            scope,
            transition,
        ) {
            Ok(_) => Ok(()),
            Err(error) => Err(FoldError::Lifecycle { seq, error }),
        },
        EntryOp::Scan { element, transition } => match fold_scan_transition(
            &mut s.scans,
            seq,
            element,
            transition,
        ) {
            Ok(_) => Ok(()),
            Err(error) => Err(FoldError::Lifecycle { seq, error: LifecycleError::Scan(error) }),
        },
        EntryOp::Checkpoint(checkpoint) => {
            if *seen {
                return Err(
                    FoldError::Lifecycle { seq, error: LifecycleError::MultipleCheckpoints },
                );
            }
            match find_unexpected(&s.resolutions, &checkpoint.expected) {
                Some(x) => Err(
                    FoldError::Lifecycle { seq, error: LifecycleError::ExpectedNotPending(x) },
                ),
                None => {
                    *seen = true;
                    Ok(())
                },
            }
        },
    }
}

proof fn ops_error_stays(s: FoldResultModel, e: EntryModel, ops: Seq<EntryOpModel>, n: int)
    requires
        0 <= n <= ops.len(),
        ops_step(s, e, ops.take(n)) is Err,
    ensures
        ops_step(s, e, ops) == ops_step(s, e, ops.take(n)),
    decreases ops.len() - n,
{
    if n == ops.len() {
        assert(ops.take(n) =~= ops);
    } else {
        assert(ops.take(n + 1).drop_last() =~= ops.take(n));
        ops_error_stays(s, e, ops, n + 1);
    }
}

/// Folds an entry. The state is of use only where the entry folds.
fn fold_entry(s: &mut FoldResult, entry: &Entry) -> (r: Result<(), FoldError>)
    ensures
        match entry_step(old(s)@, entry@) {
            Ok(after) => r is Ok && final(s)@ == after,
            Err(e) => r matches Err(x) && x@ == e,
        },
{
    let ghost start = s@;
    let ghost ops = entry@.content.ops;
    let mut seen = false;
    let mut i: usize = 0;
    assert(ops.take(0) =~= Seq::<EntryOpModel>::empty());
    while i < entry.content.ops.len()
        invariant
            i <= entry.content.ops@.len(),
            ops == entry@.content.ops,
            start == old(s)@,
            ops_step(start, entry@, ops.take(i as int)) == Ok::<
                (FoldResultModel, bool),
                FoldErrorModel,
            >((s@, seen)),
        decreases entry.content.ops@.len() - i,
    {
        proof {
            assert(ops.take(i + 1).drop_last() =~= ops.take(i as int));
            assert(ops.take(i + 1).last() == entry.content.ops@[i as int]@);
        }
        match fold_op(s, &mut seen, entry, &entry.content.ops[i]) {
            Ok(_) => {},
            Err(e) => {
                proof {
                    ops_error_stays(start, entry@, ops, i + 1);
                }
                return Err(e);
            },
        }
        i += 1;
    }
    assert(ops.take(ops.len() as int) =~= ops);
    Ok(())
}

/// Why an entry cannot be appended.
#[derive(Clone, Debug, PartialEq, Eq)]
pub enum AppendError {
    /// One salt per operation and one for origin and note.
    SaltCount(SaltCountMismatch),
    /// The author cannot have seen more than the log holds.
    BaseVersionAhead { base: u64, version: u64 },
    /// The operations do not apply to the current state. An entry that
    /// does not fold would make every later fold fail.
    DoesNotApply(ApplyError),
    /// A lifecycle operation that is illegal in the current state.
    IllegalTransition(LifecycleError),
    /// The log as loaded does not fold.
    Unfoldable(FoldError),
}

/// The model of [`AppendError`].
#[verifier::ext_equal]
pub enum AppendErrorModel {
    SaltCount(SaltCountMismatch),
    BaseVersionAhead { base: u64, version: u64 },
    DoesNotApply(ApplyErrorModel),
    IllegalTransition(LifecycleErrorModel),
    Unfoldable(FoldErrorModel),
}

impl DeepView for AppendError {
    type V = AppendErrorModel;

    open spec fn deep_view(&self) -> AppendErrorModel {
        match self {
            AppendError::SaltCount(x) => AppendErrorModel::SaltCount(x.deep_view()),
            AppendError::BaseVersionAhead { base, version } => AppendErrorModel::BaseVersionAhead {
                base: *base,
                version: *version,
            },
            AppendError::DoesNotApply(x) => AppendErrorModel::DoesNotApply(x.deep_view()),
            AppendError::IllegalTransition(x) => AppendErrorModel::IllegalTransition(x.deep_view()),
            AppendError::Unfoldable(x) => AppendErrorModel::Unfoldable(x.deep_view()),
        }
    }
}

impl View for AppendError {
    type V = AppendErrorModel;

    open spec fn view(&self) -> AppendErrorModel {
        self.deep_view()
    }
}

impl Modeled for AppendError {
    fn dup(&self) -> (r: Self) {
        match self {
            AppendError::SaltCount(x) => AppendError::SaltCount(x.dup()),
            AppendError::BaseVersionAhead { base, version } => AppendError::BaseVersionAhead {
                base: *base,
                version: *version,
            },
            AppendError::DoesNotApply(x) => AppendError::DoesNotApply(x.dup()),
            AppendError::IllegalTransition(x) => AppendError::IllegalTransition(x.dup()),
            AppendError::Unfoldable(x) => AppendError::Unfoldable(x.dup()),
        }
    }

    fn same(&self, other: &Self) -> (b: bool) {
        match (self, other) {
            (AppendError::SaltCount(x), AppendError::SaltCount(y)) => x.same(y),
            (
                AppendError::BaseVersionAhead { base, version },
                AppendError::BaseVersionAhead { base: base2, version: version2 },
            ) => {
                *base == *base2
                    && *version == *version2
            },
            (AppendError::DoesNotApply(x), AppendError::DoesNotApply(y)) => x.same(y),
            (AppendError::IllegalTransition(x), AppendError::IllegalTransition(y)) => x.same(y),
            (AppendError::Unfoldable(x), AppendError::Unfoldable(y)) => x.same(y),
            _ => false,
        }
    }
}

/// Where a chain is broken.
#[derive(Clone, Copy, Debug, PartialEq, Eq, Structural)]
pub enum ChainError {
    SeqMismatch { at: usize },
    PrevMismatch { at: usize },
    ContentMismatch { at: usize },
    /// An operation without a salt, or a salt without an operation, can
    /// never have been committed.
    SaltCount { at: usize, mismatch: SaltCountMismatch },
}

impl DeepView for ChainError {
    type V = ChainError;

    open spec fn deep_view(&self) -> ChainError {
        *self
    }
}

impl View for ChainError {
    type V = ChainError;

    open spec fn view(&self) -> ChainError {
        *self
    }
}

impl Modeled for ChainError {
    fn dup(&self) -> (r: Self) {
        *self
    }

    fn same(&self, other: &Self) -> (b: bool) {
        *self == *other
    }
}

/// Two authors wrote one cell without seeing each other: detected and
/// reported, never merged.
#[derive(Clone, Debug, PartialEq, Eq)]
pub struct Conflict {
    pub addr: CellAddr,
    pub earlier: u64,
    pub later: u64,
}

/// The model of [`Conflict`].
#[verifier::ext_equal]
pub struct ConflictModel {
    pub addr: CellAddrModel,
    pub earlier: u64,
    pub later: u64,
}

impl DeepView for Conflict {
    type V = ConflictModel;

    open spec fn deep_view(&self) -> ConflictModel {
        ConflictModel {
            addr: self.addr.deep_view(),
            earlier: self.earlier,
            later: self.later,
        }
    }
}

impl View for Conflict {
    type V = ConflictModel;

    open spec fn view(&self) -> ConflictModel {
        self.deep_view()
    }
}

impl Modeled for Conflict {
    fn dup(&self) -> (r: Self) {
        Conflict {
            addr: self.addr.dup(),
            earlier: self.earlier,
            later: self.later,
        }
    }

    fn same(&self, other: &Self) -> (b: bool) {
        self.addr.same(&other.addr)
            && self.earlier == other.earlier
            && self.later == other.later
    }
}

/// A folded state pinned to the entry that it folds up to.
#[derive(Clone, Debug, PartialEq, Eq)]
pub struct Snapshot {
    /// The number of entries folded.
    pub at: u64,
    /// The hash of the last entry folded.
    pub entry_hash: ContentHash,
    pub state: FoldResult,
}

/// The model of [`Snapshot`].
#[verifier::ext_equal]
pub struct SnapshotModel {
    pub at: u64,
    pub entry_hash: Seq<u8>,
    pub state: FoldResultModel,
}

impl DeepView for Snapshot {
    type V = SnapshotModel;

    open spec fn deep_view(&self) -> SnapshotModel {
        SnapshotModel {
            at: self.at,
            entry_hash: self.entry_hash.deep_view(),
            state: self.state.deep_view(),
        }
    }
}

impl View for Snapshot {
    type V = SnapshotModel;

    open spec fn view(&self) -> SnapshotModel {
        self.deep_view()
    }
}

impl Modeled for Snapshot {
    fn dup(&self) -> (r: Self) {
        Snapshot {
            at: self.at,
            entry_hash: self.entry_hash.dup(),
            state: self.state.dup(),
        }
    }

    fn same(&self, other: &Self) -> (b: bool) {
        self.at == other.at
            && self.entry_hash.same(&other.entry_hash)
            && self.state.same(&other.state)
    }
}

/// Why a snapshot is refused.
#[derive(Clone, Debug, PartialEq, Eq)]
pub enum SnapshotError {
    OutOfRange,
    HashMismatch,
    StateMismatch,
    /// The log itself does not fold up to the snapshot.
    Unfoldable(FoldError),
}

/// The model of [`SnapshotError`].
#[verifier::ext_equal]
pub enum SnapshotErrorModel {
    OutOfRange,
    HashMismatch,
    StateMismatch,
    Unfoldable(FoldErrorModel),
}

impl DeepView for SnapshotError {
    type V = SnapshotErrorModel;

    open spec fn deep_view(&self) -> SnapshotErrorModel {
        match self {
            SnapshotError::OutOfRange => SnapshotErrorModel::OutOfRange,
            SnapshotError::HashMismatch => SnapshotErrorModel::HashMismatch,
            SnapshotError::StateMismatch => SnapshotErrorModel::StateMismatch,
            SnapshotError::Unfoldable(x) => SnapshotErrorModel::Unfoldable(x.deep_view()),
        }
    }
}

impl View for SnapshotError {
    type V = SnapshotErrorModel;

    open spec fn view(&self) -> SnapshotErrorModel {
        self.deep_view()
    }
}

impl Modeled for SnapshotError {
    fn dup(&self) -> (r: Self) {
        match self {
            SnapshotError::OutOfRange => SnapshotError::OutOfRange,
            SnapshotError::HashMismatch => SnapshotError::HashMismatch,
            SnapshotError::StateMismatch => SnapshotError::StateMismatch,
            SnapshotError::Unfoldable(x) => SnapshotError::Unfoldable(x.dup()),
        }
    }

    fn same(&self, other: &Self) -> (b: bool) {
        match (self, other) {
            (SnapshotError::OutOfRange, SnapshotError::OutOfRange) => true,
            (SnapshotError::HashMismatch, SnapshotError::HashMismatch) => true,
            (SnapshotError::StateMismatch, SnapshotError::StateMismatch) => true,
            (SnapshotError::Unfoldable(x), SnapshotError::Unfoldable(y)) => x.same(y),
            _ => false,
        }
    }
}

/// A record's log.
#[derive(Clone, Debug)]
pub struct RecordLog {
    /// The record that the log belongs to: the chain's first link commits
    /// to it.
    record: RecordId,
    entries: Vec<Entry>,
}

/// The model of [`RecordLog`].
#[verifier::ext_equal]
pub struct RecordLogModel {
    pub record: Seq<char>,
    pub entries: Seq<EntryModel>,
}

impl DeepView for RecordLog {
    type V = RecordLogModel;

    closed spec fn deep_view(&self) -> RecordLogModel {
        RecordLogModel {
            record: self.record.deep_view(),
            entries: self.entries.deep_view(),
        }
    }
}

impl View for RecordLog {
    type V = RecordLogModel;

    open spec fn view(&self) -> RecordLogModel {
        self.deep_view()
    }
}

impl Modeled for RecordLog {
    fn dup(&self) -> (r: Self) {
        RecordLog {
            record: self.record.dup(),
            entries: self.entries.dup(),
        }
    }

    fn same(&self, other: &Self) -> (b: bool) {
        self.record.same(&other.record)
            && self.entries.same(&other.entries)
    }
}

/// The link that the entry after `entries` carries.
pub open spec fn link_after(record: Seq<char>, entries: Seq<EntryModel>) -> Seq<u8> {
    if entries.len() == 0 {
        entry::genesis(record)
    } else {
        entry::envelope_hash(entries.last().envelope)
    }
}

/// What is wrong with an entry at a position behind a link.
pub open spec fn fault_at(at: usize, prev: Seq<u8>, e: EntryModel) -> Option<ChainError> {
    if e.envelope.seq != at {
        Some(ChainError::SeqMismatch { at })
    } else if e.envelope.prev != prev {
        Some(ChainError::PrevMismatch { at })
    } else if e.content.ops.len() != e.salts.ops.len() {
        Some(
            ChainError::SaltCount {
                at,
                mismatch: SaltCountMismatch {
                    ops: e.content.ops.len() as usize,
                    salts: e.salts.ops.len() as usize,
                },
            },
        )
    } else if entry::content_commitment(e.content, e.salts) != e.envelope.content_hash {
        Some(ChainError::ContentMismatch { at })
    } else {
        None
    }
}

/// What is wrong with an entry as the next of a chain.
pub open spec fn link_fault(
    record: Seq<char>,
    entries: Seq<EntryModel>,
    e: EntryModel,
) -> Option<ChainError> {
    fault_at(entries.len() as usize, link_after(record, entries), e)
}

/// Whether what a check of an entry hashes fits JSON numbers: its
/// operations where its position, link and number of salts are right, and
/// its envelope where it is right altogether.
pub open spec fn can_be_checked(at: usize, prev: Seq<u8>, e: EntryModel) -> bool {
    e.envelope.seq == at && e.envelope.prev == prev && e.content.ops.len() == e.salts.ops.len()
        ==> entry::committable(e.content.ops) && (fault_at(at, prev, e) is None ==> entry::hashable(e.envelope))
}

/// Checks one entry of a chain.
fn check_link(at: usize, prev: &ContentHash, entry: &Entry) -> (r: Option<ChainError>)
    requires
        can_be_checked(at, prev@, entry@),
    ensures
        r == fault_at(at, prev@, entry@),
{
    if entry.envelope.seq != at as u64 {
        return Some(ChainError::SeqMismatch { at });
    }
    if !entry.envelope.prev.same(prev) {
        return Some(ChainError::PrevMismatch { at });
    }
    match Entry::content_hash(&entry.content, &entry.salts) {
        Ok(recomputed) => {
            if recomputed.same(&entry.envelope.content_hash) {
                None
            } else {
                Some(ChainError::ContentMismatch { at })
            }
        },
        Err(mismatch) => Some(ChainError::SaltCount { at, mismatch }),
    }
}

/// What first breaks a chain.
pub open spec fn chain_fault(record: Seq<char>, entries: Seq<EntryModel>) -> Option<ChainError>
    decreases entries.len(),
{
    if entries.len() == 0 {
        None
    } else {
        match chain_fault(record, entries.drop_last()) {
            Some(x) => Some(x),
            None => link_fault(record, entries.drop_last(), entries.last()),
        }
    }
}

/// Whether an entry's hash and commitment can be taken: its counts fit
/// JSON numbers.
pub open spec fn is_addressable(e: EntryModel) -> bool {
    entry::hashable(e.envelope) && (e.content.ops.len() == e.salts.ops.len() ==> entry::committable(
        e.content.ops,
    ))
}

/// The content that a draft becomes.
pub open spec fn draft_content(d: DraftModel) -> EntryContentModel {
    EntryContentModel { ops: d.ops, origin: d.origin, note: d.note }
}

/// The entry that a draft becomes at the end of a log.
pub open spec fn next_entry(
    record: Seq<char>,
    entries: Seq<EntryModel>,
    d: DraftModel,
) -> EntryModel {
    EntryModel {
        envelope: EnvelopeModel {
            seq: entries.len() as u64,
            prev: link_after(record, entries),
            actor: d.actor,
            timestamp: d.timestamp,
            revision: d.revision,
            base_version: d.base_version,
            content_hash: entry::content_commitment(draft_content(d), d.salts),
        },
        content: draft_content(d),
        salts: d.salts,
    }
}

/// The entry that an append adds, or why there is none.
pub open spec fn appended(
    record: Seq<char>,
    entries: Seq<EntryModel>,
    d: DraftModel,
) -> Result<EntryModel, AppendErrorModel> {
    if d.base_version > entries.len() {
        Err(
            AppendErrorModel::BaseVersionAhead {
                base: d.base_version,
                version: entries.len() as u64,
            },
        )
    } else if d.ops.len() != d.salts.ops.len() {
        Err(
            AppendErrorModel::SaltCount(
                SaltCountMismatch {
                    ops: d.ops.len() as usize,
                    salts: d.salts.ops.len() as usize,
                },
            ),
        )
    } else {
        match folded(entries) {
            Err(x) => Err(AppendErrorModel::Unfoldable(x)),
            Ok(s) => match entry_step(s, next_entry(record, entries, d)) {
                Ok(_) => Ok(next_entry(record, entries, d)),
                Err(FoldErrorModel::Apply { error, .. }) => Err(
                    AppendErrorModel::DoesNotApply(error),
                ),
                Err(FoldErrorModel::Lifecycle { error, .. }) => Err(
                    AppendErrorModel::IllegalTransition(error),
                ),
                Err(x) => Err(AppendErrorModel::Unfoldable(x)),
            },
        }
    }
}

/// The state after the first `upto` entries of a log.
pub open spec fn folded_at(entries: Seq<EntryModel>, upto: u64) -> Result<
    FoldResultModel,
    FoldErrorModel,
> {
    if upto > entries.len() {
        Err(FoldErrorModel::OutOfRange { upto, version: entries.len() as u64 })
    } else {
        folded(entries.take(upto as int))
    }
}

proof fn fold_error_stays(entries: Seq<EntryModel>, n: int)
    requires
        0 <= n <= entries.len(),
        folded(entries.take(n)) is Err,
    ensures
        folded(entries) == folded(entries.take(n)),
    decreases entries.len() - n,
{
    if n == entries.len() {
        assert(entries.take(n) =~= entries);
    } else {
        assert(entries.take(n + 1).drop_last() =~= entries.take(n));
        fold_error_stays(entries, n + 1);
    }
}

pub proof fn chain_fault_stays(record: Seq<char>, entries: Seq<EntryModel>, n: int)
    requires
        0 <= n <= entries.len(),
        chain_fault(record, entries.take(n)) is Some,
    ensures
        chain_fault(record, entries) == chain_fault(record, entries.take(n)),
    decreases entries.len() - n,
{
    if n == entries.len() {
        assert(entries.take(n) =~= entries);
    } else {
        assert(entries.take(n + 1).drop_last() =~= entries.take(n));
        chain_fault_stays(record, entries, n + 1);
    }
}

impl RecordLog {
    /// An empty log for a record.
    pub fn new(record: RecordId) -> (r: Self)
        ensures
            r@ == (RecordLogModel { record: record@, entries: Seq::empty() }),
    {
        let r = RecordLog { record, entries: Vec::new() };
        assert(r@.entries =~= Seq::<EntryModel>::empty());
        r
    }

    /// A log from stored or transmitted entries, unchecked: verify the
    /// chain before trusting it.
    pub fn from_entries(record: RecordId, entries: Vec<Entry>) -> (r: Self)
        ensures
            r@ == (RecordLogModel { record: record@, entries: entries.deep_view() }),
    {
        RecordLog { record, entries }
    }

    pub fn record(&self) -> (r: &RecordId)
        ensures
            r@ == self@.record,
    {
        &self.record
    }

    pub fn entries(&self) -> (r: &Vec<Entry>)
        ensures
            r.deep_view() == self@.entries,
    {
        &self.entries
    }

    /// The log's version: the position that the next entry will get.
    pub fn version(&self) -> (r: u64)
        ensures
            r == self@.entries.len(),
    {
        self.entries.len() as u64
    }

    /// Appends an entry, if it folds onto the current state.
    pub fn append(&mut self, draft: Draft) -> (r: Result<&Entry, AppendError>)
        requires
            draft@.base_version <= old(self)@.entries.len() && draft@.ops.len()
                == draft@.salts.ops.len() ==> entry::committable(draft@.ops) && (old(
                self,
            )@.entries.len() > 0 ==> entry::hashable(old(self)@.entries.last().envelope)),
        ensures
            final(self)@.record == old(self)@.record,
            match appended(old(self)@.record, old(self)@.entries, draft@) {
                Ok(e) => r matches Ok(x) && x@ == e && final(self)@.entries
                    == old(self)@.entries.push(e),
                Err(e) => r matches Err(x) && x@ == e && final(self)@.entries
                    == old(self)@.entries,
            },
    {
        let version = self.version();
        let ghost d = draft@;
        let ghost before = self@.entries;
        if draft.base_version > version {
            return Err(AppendError::BaseVersionAhead { base: draft.base_version, version });
        }
        let content = EntryContent { ops: draft.ops, origin: draft.origin, note: draft.note };
        let content_hash = match Entry::content_hash(&content, &draft.salts) {
            Ok(h) => h,
            Err(e) => {
                return Err(AppendError::SaltCount(e));
            },
        };
        let n = self.entries.len();
        let prev = if n == 0 {
            genesis_hash(&self.record)
        } else {
            assert(before.last() == self.entries@[n - 1]@);
            self.entries[n - 1].hash()
        };
        let entry = Entry {
            envelope: Envelope {
                seq: version,
                prev,
                actor: draft.actor,
                timestamp: draft.timestamp,
                revision: draft.revision,
                base_version: draft.base_version,
                content_hash,
            },
            content,
            salts: draft.salts,
        };
        let ghost next = next_entry(self@.record, before, d);
        assert(entry@ == next);
        let mut state = match self.fold() {
            Ok(s) => s,
            Err(e) => {
                return Err(AppendError::Unfoldable(e));
            },
        };
        match fold_entry(&mut state, &entry) {
            Ok(_) => {},
            Err(FoldError::Apply { error, .. }) => {
                return Err(AppendError::DoesNotApply(error));
            },
            Err(FoldError::Lifecycle { error, .. }) => {
                return Err(AppendError::IllegalTransition(error));
            },
            Err(e) => {
                return Err(AppendError::Unfoldable(e));
            },
        }
        self.entries.push(entry);
        assert(self@.entries =~= before.push(next));
        Ok(&self.entries[n])
    }

    /// Checks positions, links, salts and content commitments. The tail
    /// is unanchored: truncation shows only against a pinned head.
    pub fn verify_chain(&self) -> (r: Result<(), ChainError>)
        requires
            forall|i: int|
                0 <= i < self@.entries.len() && chain_fault(
                    self@.record,
                    self@.entries.take(i),
                ) is None ==> can_be_checked(
                    i as usize,
                    link_after(self@.record, self@.entries.take(i)),
                    #[trigger] self@.entries[i],
                ),
        ensures
            match chain_fault(self@.record, self@.entries) {
                None => r is Ok,
                Some(e) => r == Err::<(), ChainError>(e),
            },
    {
        let ghost m = self@.entries;
        let mut prev = genesis_hash(&self.record);
        let mut i: usize = 0;
        assert(m.take(0) =~= Seq::<EntryModel>::empty());
        while i < self.entries.len()
            invariant
                i <= self.entries@.len(),
                m == self@.entries,
                prev@ == link_after(self@.record, m.take(i as int)),
                chain_fault(self@.record, m.take(i as int)) is None,
                forall|i: int|
                    0 <= i < m.len() && chain_fault(self@.record, m.take(i)) is None
                        ==> can_be_checked(
                        i as usize,
                        link_after(self@.record, m.take(i)),
                        #[trigger] m[i],
                    ),
            decreases self.entries@.len() - i,
        {
            let entry = &self.entries[i];
            proof {
                assert(m[i as int] == entry@);
                assert(m.take(i + 1).drop_last() =~= m.take(i as int));
                assert(m.take(i + 1).last() == entry@);
                assert(m.take(i as int).len() == i);
                assert(can_be_checked(i, prev@, m[i as int]));
            }
            match check_link(i, &prev, entry) {
                None => {},
                Some(e) => {
                    proof {
                        chain_fault_stays(self@.record, m, i + 1);
                    }
                    return Err(e);
                },
            }
            prev = entry.hash();
            i += 1;
        }
        assert(m.take(m.len() as int) =~= m);
        Ok(())
    }

    /// Folds the first `upto` entries.
    pub fn fold_at(&self, upto: u64) -> (r: Result<FoldResult, FoldError>)
        ensures
            order::result_model(r) == folded_at(self@.entries, upto),
    {
        if upto > self.version() {
            return Err(FoldError::OutOfRange { upto, version: self.version() });
        }
        let ghost m = self@.entries.take(upto as int);
        let have = self.entries.len();
        assert(upto <= have);
        let n: usize = upto as usize;
        let mut s = FoldResult::default();
        let mut i: usize = 0;
        assert(m.take(0) =~= Seq::<EntryModel>::empty());
        while i < n
            invariant
                i <= n <= self.entries@.len(),
                n == upto,
                m == self@.entries.take(upto as int),
                folded(m.take(i as int)) == Ok::<FoldResultModel, FoldErrorModel>(s@),
            decreases n - i,
        {
            proof {
                assert(m.take(i + 1).drop_last() =~= m.take(i as int));
                assert(m.take(i + 1).last() == self.entries@[i as int]@);
            }
            match fold_entry(&mut s, &self.entries[i]) {
                Ok(_) => {},
                Err(e) => {
                    proof {
                        fold_error_stays(m, i + 1);
                    }
                    return Err(e);
                },
            }
            i += 1;
        }
        assert(m.take(m.len() as int) =~= m);
        Ok(s)
    }

    /// Folds the whole log.
    pub fn fold(&self) -> (r: Result<FoldResult, FoldError>)
        ensures
            order::result_model(r) == folded(self@.entries),
    {
        assert(self@.entries.take(self@.entries.len() as int) =~= self@.entries);
        self.fold_at(self.version())
    }

    /// The operations between two log points.
    pub fn diff_between(&self, from: u64, to: u64) -> (r: Result<Vec<Op>, FoldError>)
        ensures
            match (folded_at(self@.entries, from), folded_at(self@.entries, to)) {
                (Ok(a), Ok(b)) => r matches Ok(ops) && value::replay(a.values, ops.deep_view()) == Ok::<
                    RecordValuesModel,
                    ApplyErrorModel,
                >(b.values) && value::all_warranted(a.values, b.values, ops.deep_view()) && (a.values
                    == b.values ==> ops@.len() == 0),
                (Err(e), _) => r matches Err(x) && x@ == e,
                (_, Err(e)) => r matches Err(x) && x@ == e,
            },
    {
        let a = match self.fold_at(from) {
            Ok(s) => s,
            Err(e) => {
                return Err(e);
            },
        };
        let b = match self.fold_at(to) {
            Ok(s) => s,
            Err(e) => {
                return Err(e);
            },
        };
        proof {
            folded_is_tidy(self@.entries.take(from as int));
            folded_is_tidy(self@.entries.take(to as int));
        }
        Ok(diff(&a.values, &b.values))
    }
}

proof fn ops_step_tidy(s: FoldResultModel, e: EntryModel, ops: Seq<EntryOpModel>)
    requires
        value::is_tidy(s.values),
    ensures
        ops_step(s, e, ops) matches Ok(p) ==> value::is_tidy(p.0.values),
    decreases ops.len(),
{
    if ops.len() > 0 {
        ops_step_tidy(s, e, ops.drop_last());
        if let Ok((before, seen)) = ops_step(s, e, ops.drop_last()) {
            if let EntryOpModel::Cell(op) = ops.last() {
                if value::applied(before.values, op) is Ok {
                    value::applied_stays_tidy(before.values, op);
                }
            }
        }
    }
}

/// A folded record holds only what operations can build.
pub proof fn folded_is_tidy(entries: Seq<EntryModel>)
    ensures
        folded(entries) matches Ok(s) ==> value::is_tidy(s.values),
    decreases entries.len(),
{
    if entries.len() > 0 {
        folded_is_tidy(entries.drop_last());
        if let Ok(s) = folded(entries.drop_last()) {
            ops_step_tidy(s, entries.last(), entries.last().content.ops);
        }
    }
}

/// A log that grew by an append folds, and to the state that the entry
/// made of the state before.
pub proof fn appended_folds(record: Seq<char>, entries: Seq<EntryModel>, d: DraftModel)
    requires
        appended(record, entries, d) is Ok,
    ensures
        folded(entries) is Ok,
        folded(entries.push(appended(record, entries, d)->Ok_0)) == entry_step(
            folded(entries)->Ok_0,
            appended(record, entries, d)->Ok_0,
        ),
        folded(entries.push(appended(record, entries, d)->Ok_0)) is Ok,
{
    assert(entries.push(appended(record, entries, d)->Ok_0).drop_last() =~= entries);
}

/// The entry that a draft becomes carries its own position, link and
/// commitment.
proof fn next_entry_fits(record: Seq<char>, entries: Seq<EntryModel>, d: DraftModel)
    requires
        entries.len() <= usize::MAX,
        d.ops.len() == d.salts.ops.len(),
    ensures
        link_fault(record, entries, next_entry(record, entries, d)) is None,
{
    let e = next_entry(record, entries, d);
    assert(e.content == draft_content(d));
    assert(e.envelope.content_hash == entry::content_commitment(e.content, e.salts));
}

/// A chain that verifies still does after an append.
pub proof fn appended_verifies(record: Seq<char>, entries: Seq<EntryModel>, d: DraftModel)
    requires
        chain_fault(record, entries) is None,
        entries.len() <= usize::MAX,
        appended(record, entries, d) is Ok,
    ensures
        chain_fault(record, entries.push(appended(record, entries, d)->Ok_0)) is None,
{
    let e = next_entry(record, entries, d);
    next_entry_fits(record, entries, d);
    assert(appended(record, entries, d)->Ok_0 == e);
    let longer = entries.push(e);
    assert(longer.drop_last() =~= entries);
    assert(longer.last() == e);
}

/// What a log point showed stays what it shows, whatever is appended.
pub proof fn history_is_kept(entries: Seq<EntryModel>, e: EntryModel, upto: u64)
    requires
        upto <= entries.len(),
    ensures
        folded_at(entries.push(e), upto) == folded_at(entries, upto),
{
    assert(entries.push(e).take(upto as int) =~= entries.take(upto as int));
}

/// An override wins over a late resolution: a resolver's derived write
/// onto a human-authored cell leaves every value as it is, is reported,
/// and shows on the cell as superseded.
pub proof fn override_wins(s: FoldResultModel, e: EntryModel, op: OpModel, addr: CellAddrModel)
    requires
        is_late_write(e),
        written_cell(op) == Some(addr),
        is_human(provenance_of(s.provenance, addr)),
    ensures
        cell_step(s, e, op) matches Ok(after) && {
            &&& after.values == s.values
            &&& after.suppressed == s.suppressed.push(
                SuppressedModel { seq: e.envelope.seq, addr },
            )
            &&& after.provenance[addr] matches OriginModel::Overridden { superseded: Some(_) }
            &&& after.provenance.remove(addr) =~= s.provenance.remove(addr)
        },
{
}

/// The snapshot of a log point, or why there is none.
pub open spec fn snapshot_of(entries: Seq<EntryModel>, upto: u64) -> Result<
    SnapshotModel,
    SnapshotErrorModel,
> {
    if upto == 0 || upto > entries.len() {
        Err(SnapshotErrorModel::OutOfRange)
    } else {
        match folded_at(entries, upto) {
            Ok(state) => Ok(
                SnapshotModel {
                    at: upto,
                    entry_hash: entry::envelope_hash(entries[upto - 1].envelope),
                    state,
                },
            ),
            Err(x) => Err(SnapshotErrorModel::Unfoldable(x)),
        }
    }
}

/// What is wrong with a snapshot of a log.
pub open spec fn snapshot_fault(entries: Seq<EntryModel>, s: SnapshotModel) -> Option<
    SnapshotErrorModel,
> {
    if s.at == 0 || s.at > entries.len() {
        Some(SnapshotErrorModel::OutOfRange)
    } else if entry::envelope_hash(entries[s.at - 1].envelope) != s.entry_hash {
        Some(SnapshotErrorModel::HashMismatch)
    } else {
        match folded_at(entries, s.at) {
            Ok(state) => if state == s.state {
                None
            } else {
                Some(SnapshotErrorModel::StateMismatch)
            },
            Err(x) => Some(SnapshotErrorModel::Unfoldable(x)),
        }
    }
}

/// A snapshot verifies against the log that it was taken of, also after
/// the log has grown.
pub proof fn snapshot_verifies(entries: Seq<EntryModel>, more: Seq<EntryModel>, upto: u64)
    ensures
        snapshot_of(entries, upto) matches Ok(s) ==> snapshot_fault(entries + more, s) is None,
{
    if snapshot_of(entries, upto) is Ok {
        assert((entries + more).take(upto as int) =~= entries.take(upto as int));
        assert((entries + more)[upto - 1] == entries[upto - 1]);
    }
}

impl RecordLog {
    /// A snapshot at a log point, pinned to the hash of the last entry
    /// that it folds.
    pub fn snapshot_at(&self, upto: u64) -> (r: Result<Snapshot, SnapshotError>)
        requires
            0 < upto <= self@.entries.len() ==> entry::hashable(self@.entries[upto - 1].envelope),
        ensures
            order::result_model(r) == snapshot_of(self@.entries, upto),
    {
        if upto == 0 || upto > self.version() {
            return Err(SnapshotError::OutOfRange);
        }
        let state = match self.fold_at(upto) {
            Ok(s) => s,
            Err(e) => {
                return Err(SnapshotError::Unfoldable(e));
            },
        };
        let have = self.entries.len();
        assert(upto <= have);
        let last = upto as usize - 1;
        assert(self@.entries[upto - 1] == self.entries@[last as int]@);
        Ok(Snapshot { at: upto, entry_hash: self.entries[last].hash(), state })
    }

    /// Checks a snapshot by refolding.
    pub fn verify_snapshot(&self, snapshot: &Snapshot) -> (r: Result<(), SnapshotError>)
        requires
            0 < snapshot@.at <= self@.entries.len() ==> entry::hashable(
                self@.entries[snapshot@.at - 1].envelope,
            ),
        ensures
            match snapshot_fault(self@.entries, snapshot@) {
                None => r is Ok,
                Some(e) => r matches Err(x) && x@ == e,
            },
    {
        if snapshot.at == 0 || snapshot.at > self.version() {
            return Err(SnapshotError::OutOfRange);
        }
        let have = self.entries.len();
        assert(snapshot.at <= have);
        let last = snapshot.at as usize - 1;
        assert(self@.entries[snapshot.at - 1] == self.entries@[last as int]@);
        let hash = self.entries[last].hash();
        if !hash.same(&snapshot.entry_hash) {
            return Err(SnapshotError::HashMismatch);
        }
        match self.fold_at(snapshot.at) {
            Ok(refolded) => {
                if refolded.same(&snapshot.state) {
                    Ok(())
                } else {
                    Err(SnapshotError::StateMismatch)
                }
            },
            Err(e) => Err(SnapshotError::Unfoldable(e)),
        }
    }
}

/// The pending instances among some keys, in order.
pub open spec fn pending_among(
    keys: Seq<(Seq<char>, Seq<PathSegModel>)>,
    resolutions: Map<(Seq<char>, Seq<PathSegModel>), ResolutionModel>,
) -> Seq<ResolutionModel>
    decreases keys.len(),
{
    if keys.len() == 0 {
        Seq::empty()
    } else {
        let rest = pending_among(keys.drop_last(), resolutions);
        if resolutions[keys.last()].status == ResolutionStatus::Pending {
            rest.push(resolutions[keys.last()])
        } else {
            rest
        }
    }
}

/// The pending scans among some elements, in order.
pub open spec fn pending_scans_among(
    keys: Seq<Seq<char>>,
    scans: Map<Seq<char>, ScanModel>,
) -> Seq<ScanModel>
    decreases keys.len(),
{
    if keys.len() == 0 {
        Seq::empty()
    } else {
        let rest = pending_scans_among(keys.drop_last(), scans);
        if scans[keys.last()].status == ScanStatus::Pending {
            rest.push(scans[keys.last()])
        } else {
            rest
        }
    }
}

/// Whether a pending instance has this row path and this anchor group.
pub open spec fn is_pending_at(
    resolutions: Map<(Seq<char>, Seq<PathSegModel>), ResolutionModel>,
    scope: Seq<PathSegModel>,
    anchor: Seq<char>,
) -> bool {
    exists|k: (Seq<char>, Seq<PathSegModel>)| #[trigger]
        resolutions.dom().contains(k) && resolutions[k].status == ResolutionStatus::Pending
            && resolutions[k].scope == scope && resolutions[k].anchor == anchor
}

impl FoldResult {
    /// Every instance that is still pending, whatever its age, in key
    /// order.
    pub fn pending_resolutions(&self) -> (r: Vec<Resolution>)
        ensures
            r.deep_view() == pending_among(self.resolutions.keys(), self@.resolutions),
    {
        let n = self.resolutions.len();
        let ghost keys = self.resolutions.keys();
        let mut r: Vec<Resolution> = Vec::new();
        let mut i: usize = 0;
        assert(keys.take(0) =~= Seq::<(Seq<char>, Seq<PathSegModel>)>::empty());
        assert(r.deep_view() =~= Seq::<ResolutionModel>::empty());
        while i < n
            invariant
                i <= n == keys.len(),
                keys == self.resolutions.keys(),
                r.deep_view() == pending_among(keys.take(i as int), self@.resolutions),
            decreases n - i,
        {
            proof {
                assert(keys.take(i + 1).drop_last() =~= keys.take(i as int));
                assert(keys.take(i + 1).last() == keys[i as int]);
            }
            let x = self.resolutions.value_at(i);
            let ghost had = r.deep_view();
            if x.status.is_pending() {
                r.push(x.dup());
                assert(r.deep_view() =~= had.push(x@));
            }
            i += 1;
        }
        assert(keys.take(n as int) =~= keys);
        r
    }

    /// The pending resolutions as pairs of row path and anchor group:
    /// what rules read.
    pub fn pending_set(&self) -> (r: OrderedSet<(RowPath, GroupId)>)
        ensures
            forall|scope: Seq<PathSegModel>, anchor: Seq<char>| #[trigger]
                r@.contains((scope, anchor)) <==> is_pending_at(self@.resolutions, scope, anchor),
    {
        let n = self.resolutions.len();
        let ghost keys = self.resolutions.keys();
        let ghost m = self@.resolutions;
        let mut r: OrderedSet<(RowPath, GroupId)> = OrderedSet::new();
        let mut i: usize = 0;
        while i < n
            invariant
                i <= n == keys.len(),
                keys == self.resolutions.keys(),
                m == self@.resolutions,
                collections::lists::<(GroupId, RowPath)>(keys, m.dom()),
                forall|scope: Seq<PathSegModel>, anchor: Seq<char>| #[trigger]
                    r@.contains((scope, anchor)) <==> exists|j: int|
                        0 <= j < i && m[#[trigger] keys[j]].status == ResolutionStatus::Pending
                            && m[keys[j]].scope == scope && m[keys[j]].anchor == anchor,
            decreases n - i,
        {
            let x = self.resolutions.value_at(i);
            let ghost had = r@;
            assert(x@ == m[keys[i as int]]);
            if x.status.is_pending() {
                r.insert((x.scope.dup(), x.anchor.dup()));
            }
            proof {
                assert forall|scope: Seq<PathSegModel>, anchor: Seq<char>| #[trigger]
                    r@.contains((scope, anchor)) <==> exists|j: int|
                        0 <= j < i + 1 && m[#[trigger] keys[j]].status == ResolutionStatus::Pending
                            && m[keys[j]].scope == scope && m[keys[j]].anchor == anchor by {
                    if had.contains((scope, anchor)) {
                        let j = choose|j: int|
                            0 <= j < i && m[#[trigger] keys[j]].status == ResolutionStatus::Pending
                                && m[keys[j]].scope == scope && m[keys[j]].anchor == anchor;
                        assert(0 <= j < i + 1 && m[keys[j]].scope == scope);
                    }
                }
            }
            i += 1;
        }
        proof {
            assert forall|scope: Seq<PathSegModel>, anchor: Seq<char>| #[trigger]
                r@.contains((scope, anchor)) <==> is_pending_at(m, scope, anchor) by {
                if is_pending_at(m, scope, anchor) {
                    let k = choose|k: (Seq<char>, Seq<PathSegModel>)| #[trigger]
                        m.dom().contains(k) && m[k].status == ResolutionStatus::Pending
                            && m[k].scope == scope && m[k].anchor == anchor;
                    assert(keys.contains(k));
                    let j = choose|j: int| 0 <= j < keys.len() && keys[j] == k;
                    assert(m[keys[j]].scope == scope);
                }
                if r@.contains((scope, anchor)) {
                    let j = choose|j: int|
                        0 <= j < n && m[#[trigger] keys[j]].status == ResolutionStatus::Pending
                            && m[keys[j]].scope == scope && m[keys[j]].anchor == anchor;
                    assert(keys.contains(keys[j]));
                    assert(m.dom().contains(keys[j]));
                }
            }
        }
        r
    }

    /// Every element whose scan is pending, in order.
    pub fn pending_scans(&self) -> (r: Vec<Scan>)
        ensures
            r.deep_view() == pending_scans_among(self.scans.keys(), self@.scans),
    {
        let n = self.scans.len();
        let ghost keys = self.scans.keys();
        let mut r: Vec<Scan> = Vec::new();
        let mut i: usize = 0;
        assert(keys.take(0) =~= Seq::<Seq<char>>::empty());
        assert(r.deep_view() =~= Seq::<ScanModel>::empty());
        while i < n
            invariant
                i <= n == keys.len(),
                keys == self.scans.keys(),
                r.deep_view() == pending_scans_among(keys.take(i as int), self@.scans),
            decreases n - i,
        {
            proof {
                assert(keys.take(i + 1).drop_last() =~= keys.take(i as int));
                assert(keys.take(i + 1).last() == keys[i as int]);
            }
            let x = self.scans.value_at(i);
            let ghost had = r.deep_view();
            if x.status.is_pending() {
                r.push(x.dup());
                assert(r.deep_view() =~= had.push(x@));
            }
            i += 1;
        }
        assert(keys.take(n as int) =~= keys);
        r
    }
}

} // verus!
