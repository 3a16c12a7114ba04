//! Checkpoints: entries that freeze what a surface could write.

use vstd::prelude::*;
use crate::entry;
use crate::canonical::ContentHash;
use crate::collections::OrderedSet;
use crate::entry::{ActorKind, Entry, EntryModel, EntryOp, EntryOpModel, Origin, OriginModel};
use crate::ids::{ColumnId, GroupId, PathSegModel, RevisionId, RowPath};
use crate::log::RecordLog;
use crate::order::Modeled;
use crate::resolution::{ExpectedResolution, ExpectedResolutionModel, Resolution};
use crate::value::{Op, OpModel};

verus! {

/// A named freeze, carried by a log entry whose position pins what it
/// freezes: everything before it.
///
/// The frozen columns and groups are those that were writable on the
/// surface that the checkpoint was taken through. The rest of the record
/// stays open. A later checkpoint supersedes this one.
#[derive(Clone, Debug, PartialEq, Eq)]
pub struct Checkpoint {
    pub name: String,
    pub reading_revision: RevisionId,
    /// The pending resolutions that may still land.
    pub expected: Vec<ExpectedResolution>,
    pub frozen_columns: OrderedSet<ColumnId>,
    /// `many` groups whose items may no longer be added, removed or
    /// reordered.
    pub frozen_groups: OrderedSet<GroupId>,
}

/// The model of [`Checkpoint`].
#[verifier::ext_equal]
pub struct CheckpointModel {
    pub name: Seq<char>,
    pub reading_revision: Seq<char>,
    pub expected: Seq<ExpectedResolutionModel>,
    pub frozen_columns: Set<Seq<char>>,
    pub frozen_groups: Set<Seq<char>>,
}

impl DeepView for Checkpoint {
    type V = CheckpointModel;

    open spec fn deep_view(&self) -> CheckpointModel {
        CheckpointModel {
            name: self.name.deep_view(),
            reading_revision: self.reading_revision.deep_view(),
            expected: self.expected.deep_view(),
            frozen_columns: self.frozen_columns.deep_view(),
            frozen_groups: self.frozen_groups.deep_view(),
        }
    }
}

impl View for Checkpoint {
    type V = CheckpointModel;

    open spec fn view(&self) -> CheckpointModel {
        self.deep_view()
    }
}

impl Modeled for Checkpoint {
    fn dup(&self) -> (r: Self) {
        Checkpoint {
            name: self.name.dup(),
            reading_revision: self.reading_revision.dup(),
            expected: self.expected.dup(),
            frozen_columns: self.frozen_columns.dup(),
            frozen_groups: self.frozen_groups.dup(),
        }
    }

    fn same(&self, other: &Self) -> (b: bool) {
        self.name.same(&other.name)
            && self.reading_revision.same(&other.reading_revision)
            && self.expected.same(&other.expected)
            && self.frozen_columns.same(&other.frozen_columns)
            && self.frozen_groups.same(&other.frozen_groups)
    }
}

/// A checkpoint as found in a log.
#[derive(Clone, Debug, PartialEq, Eq)]
pub struct CheckpointAt {
    pub seq: u64,
    /// The hash of the checkpoint's entry.
    pub entry_hash: ContentHash,
    pub checkpoint: Checkpoint,
}

/// The model of [`CheckpointAt`].
#[verifier::ext_equal]
pub struct CheckpointAtModel {
    pub seq: u64,
    pub entry_hash: Seq<u8>,
    pub checkpoint: CheckpointModel,
}

impl DeepView for CheckpointAt {
    type V = CheckpointAtModel;

    open spec fn deep_view(&self) -> CheckpointAtModel {
        CheckpointAtModel {
            seq: self.seq,
            entry_hash: self.entry_hash.deep_view(),
            checkpoint: self.checkpoint.deep_view(),
        }
    }
}

impl View for CheckpointAt {
    type V = CheckpointAtModel;

    open spec fn view(&self) -> CheckpointAtModel {
        self.deep_view()
    }
}

impl Modeled for CheckpointAt {
    fn dup(&self) -> (r: Self) {
        CheckpointAt {
            seq: self.seq,
            entry_hash: self.entry_hash.dup(),
            checkpoint: self.checkpoint.dup(),
        }
    }

    fn same(&self, other: &Self) -> (b: bool) {
        self.seq == other.seq
            && self.entry_hash.same(&other.entry_hash)
            && self.checkpoint.same(&other.checkpoint)
    }
}

/// What a checkpoint's regime does not allow.
#[derive(Clone, Debug, PartialEq, Eq)]
pub enum CheckpointViolation {
    /// No checkpoint at that position in this log.
    UnknownCheckpoint { seq: u64 },
    /// A later entry wrote into the frozen set and was no expected
    /// derived write.
    IllegalWrite { seq: u64, columns: OrderedSet<ColumnId>, groups: OrderedSet<GroupId> },
}

/// The model of [`CheckpointViolation`].
#[verifier::ext_equal]
pub enum CheckpointViolationModel {
    UnknownCheckpoint { seq: u64 },
    IllegalWrite { seq: u64, columns: Set<Seq<char>>, groups: Set<Seq<char>> },
}

impl DeepView for CheckpointViolation {
    type V = CheckpointViolationModel;

    open spec fn deep_view(&self) -> CheckpointViolationModel {
        match self {
            CheckpointViolation::UnknownCheckpoint { seq } => CheckpointViolationModel::UnknownCheckpoint {
                seq: *seq,
            },
            CheckpointViolation::IllegalWrite { seq, columns, groups } => CheckpointViolationModel::IllegalWrite {
                seq: *seq,
                columns: columns.deep_view(),
                groups: groups.deep_view(),
            },
        }
    }
}

impl View for CheckpointViolation {
    type V = CheckpointViolationModel;

    open spec fn view(&self) -> CheckpointViolationModel {
        self.deep_view()
    }
}

impl Modeled for CheckpointViolation {
    fn dup(&self) -> (r: Self) {
        match self {
            CheckpointViolation::UnknownCheckpoint { seq } => CheckpointViolation::UnknownCheckpoint {
                seq: *seq,
            },
            CheckpointViolation::IllegalWrite { seq, columns, groups } => CheckpointViolation::IllegalWrite {
                seq: *seq,
                columns: columns.dup(),
                groups: groups.dup(),
            },
        }
    }

    fn same(&self, other: &Self) -> (b: bool) {
        match (self, other) {
            (
                CheckpointViolation::UnknownCheckpoint { seq },
                CheckpointViolation::UnknownCheckpoint { seq: seq2 },
            ) => {
                *seq == *seq2
            },
            (
                CheckpointViolation::IllegalWrite { seq, columns, groups },
                CheckpointViolation::IllegalWrite { seq: seq2, columns: columns2, groups: groups2 },
            ) => {
                *seq == *seq2
                    && columns.same(columns2)
                    && groups.same(groups2)
            },
            _ => false,
        }
    }
}

/// The first checkpoint among some operations.
pub open spec fn checkpoint_in(ops: Seq<EntryOpModel>) -> Option<CheckpointModel>
    decreases ops.len(),
{
    if ops.len() == 0 {
        None
    } else {
        match checkpoint_in(ops.drop_last()) {
            Some(c) => Some(c),
            None => match ops.last() {
                EntryOpModel::Checkpoint(c) => Some(c),
                _ => None,
            },
        }
    }
}

proof fn checkpoint_stays(ops: Seq<EntryOpModel>, n: int)
    requires
        0 <= n <= ops.len(),
        checkpoint_in(ops.take(n)) is Some,
    ensures
        checkpoint_in(ops) == checkpoint_in(ops.take(n)),
    decreases ops.len() - n,
{
    if n == ops.len() {
        assert(ops.take(n) =~= ops);
    } else {
        assert(ops.take(n + 1).drop_last() =~= ops.take(n));
        checkpoint_stays(ops, n + 1);
    }
}

/// The checkpoint that an entry's operations carry, if any.
pub fn checkpoint_op(ops: &Vec<EntryOp>) -> (r: Option<&Checkpoint>)
    ensures
        match r {
            Some(c) => checkpoint_in(ops.deep_view()) == Some(c@),
            None => checkpoint_in(ops.deep_view()) is None,
        },
{
    let ghost m = ops.deep_view();
    let mut i: usize = 0;
    assert(m.take(0) =~= Seq::<EntryOpModel>::empty());
    while i < ops.len()
        invariant
            i <= ops@.len(),
            m == ops.deep_view(),
            checkpoint_in(m.take(i as int)) is None,
        decreases ops@.len() - i,
    {
        proof {
            assert(m.take(i + 1).drop_last() =~= m.take(i as int));
            assert(m.take(i + 1).last() == ops@[i as int]@);
        }
        if let EntryOp::Checkpoint(c) = &ops[i] {
            proof {
                checkpoint_stays(m, i + 1);
            }
            return Some(c);
        }
        i += 1;
    }
    assert(m.take(m.len() as int) =~= m);
    None
}

/// The column that an operation writes.
pub open spec fn written_column(op: EntryOpModel) -> Option<Seq<char>> {
    match op {
        EntryOpModel::Cell(OpModel::Put { column, .. }) => Some(column),
        EntryOpModel::Cell(OpModel::Unset { column, .. }) => Some(column),
        _ => None,
    }
}

/// The group whose items an operation changes.
pub open spec fn changed_group(op: EntryOpModel) -> Option<Seq<char>> {
    match op {
        EntryOpModel::Cell(OpModel::AddItem { group, .. }) => Some(group),
        EntryOpModel::Cell(OpModel::RemoveItem { group, .. }) => Some(group),
        EntryOpModel::Cell(OpModel::Reorder { group, .. }) => Some(group),
        _ => None,
    }
}

/// The frozen columns that some operations write.
pub open spec fn touched_columns(ops: Seq<EntryOpModel>, c: CheckpointModel) -> Set<Seq<char>>
    decreases ops.len(),
{
    if ops.len() == 0 {
        Set::empty()
    } else {
        let rest = touched_columns(ops.drop_last(), c);
        match written_column(ops.last()) {
            Some(x) if c.frozen_columns.contains(x) => rest.insert(x),
            _ => rest,
        }
    }
}

/// The frozen groups whose items some operations change.
pub open spec fn touched_groups(ops: Seq<EntryOpModel>, c: CheckpointModel) -> Set<Seq<char>>
    decreases ops.len(),
{
    if ops.len() == 0 {
        Set::empty()
    } else {
        let rest = touched_groups(ops.drop_last(), c);
        match changed_group(ops.last()) {
            Some(x) if c.frozen_groups.contains(x) => rest.insert(x),
            _ => rest,
        }
    }
}

/// The frozen columns and groups that these operations write into.
fn frozen_touched(ops: &Vec<EntryOp>, c: &Checkpoint) -> (r: (
    OrderedSet<ColumnId>,
    OrderedSet<GroupId>,
))
    ensures
        r.0@ == touched_columns(ops.deep_view(), c@),
        r.1@ == touched_groups(ops.deep_view(), c@),
{
    let ghost m = ops.deep_view();
    let mut columns: OrderedSet<ColumnId> = OrderedSet::new();
    let mut groups: OrderedSet<GroupId> = OrderedSet::new();
    let mut i: usize = 0;
    assert(m.take(0) =~= Seq::<EntryOpModel>::empty());
    while i < ops.len()
        invariant
            i <= ops@.len(),
            m == ops.deep_view(),
            columns@ == touched_columns(m.take(i as int), c@),
            groups@ == touched_groups(m.take(i as int), c@),
        decreases ops@.len() - i,
    {
        proof {
            assert(m.take(i + 1).drop_last() =~= m.take(i as int));
            assert(m.take(i + 1).last() == ops@[i as int]@);
        }
        match &ops[i] {
            EntryOp::Cell(Op::Put { column, .. }) | EntryOp::Cell(Op::Unset { column, .. }) => {
                if c.frozen_columns.contains(column) {
                    columns.insert(column.dup());
                }
            },
            EntryOp::Cell(Op::AddItem { group, .. })
            | EntryOp::Cell(Op::RemoveItem { group, .. })
            | EntryOp::Cell(Op::Reorder { group, .. }) => {
                if c.frozen_groups.contains(group) {
                    groups.insert(group.dup());
                }
            },
            _ => {},
        }
        i += 1;
    }
    assert(m.take(m.len() as int) =~= m);
    (columns, groups)
}

/// Whether an operation stays at or below a row path.
pub open spec fn op_within(op: EntryOpModel, scope: Seq<PathSegModel>) -> bool {
    match op {
        EntryOpModel::Cell(OpModel::Put { path, .. }) => scope.is_prefix_of(path),
        EntryOpModel::Cell(OpModel::Unset { path, .. }) => scope.is_prefix_of(path),
        EntryOpModel::Cell(OpModel::AddItem { parent, .. }) => scope.is_prefix_of(parent),
        EntryOpModel::Cell(OpModel::RemoveItem { parent, .. }) => scope.is_prefix_of(parent),
        EntryOpModel::Cell(OpModel::Reorder { parent, .. }) => scope.is_prefix_of(parent),
        EntryOpModel::Resolution { scope: s, .. } => scope.is_prefix_of(s),
        _ => true,
    }
}

/// Whether every operation stays at or below a row path.
pub open spec fn all_within(ops: Seq<EntryOpModel>, scope: Seq<PathSegModel>) -> bool {
    forall|i: int| 0 <= i < ops.len() ==> op_within(#[trigger] ops[i], scope)
}

fn ops_within(ops: &Vec<EntryOp>, scope: &RowPath) -> (r: bool)
    ensures
        r == all_within(ops.deep_view(), scope@),
{
    let ghost m = ops.deep_view();
    let mut i: usize = 0;
    while i < ops.len()
        invariant
            i <= ops@.len(),
            m == ops.deep_view(),
            forall|j: int| 0 <= j < i ==> op_within(#[trigger] m[j], scope@),
        decreases ops@.len() - i,
    {
        assert(m[i as int] == ops@[i as int]@);
        let within = match &ops[i] {
            EntryOp::Cell(Op::Put { path, .. }) | EntryOp::Cell(Op::Unset { path, .. }) => {
                path.starts_with(scope)
            },
            EntryOp::Cell(Op::AddItem { parent, .. })
            | EntryOp::Cell(Op::RemoveItem { parent, .. })
            | EntryOp::Cell(Op::Reorder { parent, .. }) => parent.starts_with(scope),
            EntryOp::Resolution { scope: s, .. } => s.starts_with(scope),
            _ => true,
        };
        if !within {
            return false;
        }
        i += 1;
    }
    true
}

/// Whether an entry is a derived write that the checkpoint expects from
/// this resolution.
pub open spec fn answers(e: EntryModel, x: ExpectedResolutionModel) -> bool {
    e.content.origin matches OriginModel::Derived(d) && x.resolver == d.source && x.resolver_version
        == d.source_version && x.mapping_version == d.mapping_version && all_within(
        e.content.ops,
        x.scope,
    )
}

/// Whether an entry is an expected derived write.
pub open spec fn is_expected_write(e: EntryModel, c: CheckpointModel) -> bool {
    e.envelope.actor.kind == ActorKind::Resolver && exists|i: int|
        0 <= i < c.expected.len() && answers(e, #[trigger] c.expected[i])
}

fn expected_write(e: &Entry, c: &Checkpoint) -> (r: bool)
    ensures
        r == is_expected_write(e@, c@),
{
    if e.envelope.actor.kind != ActorKind::Resolver {
        return false;
    }
    let d = match &e.content.origin {
        Origin::Derived(d) => d,
        _ => {
            return false;
        },
    };
    let ghost m = c@.expected;
    let mut i: usize = 0;
    while i < c.expected.len()
        invariant
            i <= c.expected@.len(),
            m == c@.expected,
            e@.content.origin == OriginModel::Derived(d@),
            e@.envelope.actor.kind == ActorKind::Resolver,
            forall|j: int| 0 <= j < i ==> !answers(e@, #[trigger] m[j]),
        decreases c.expected@.len() - i,
    {
        let x = &c.expected[i];
        assert(m[i as int] == x@);
        if x.resolver.same(&d.source) && x.resolver_version == d.source_version
            && x.mapping_version == d.mapping_version && ops_within(&e.content.ops, &x.scope) {
            assert(answers(e@, m[i as int]));
            return true;
        }
        i += 1;
    }
    false
}

/// What an entry under a checkpoint's regime does that it may not.
pub open spec fn violation(e: EntryModel, c: CheckpointModel) -> Option<CheckpointViolationModel> {
    let columns = touched_columns(e.content.ops, c);
    let groups = touched_groups(e.content.ops, c);
    if (columns == Set::<Seq<char>>::empty() && groups == Set::<Seq<char>>::empty())
        || is_expected_write(e, c) {
        None
    } else {
        Some(CheckpointViolationModel::IllegalWrite { seq: e.envelope.seq, columns, groups })
    }
}

/// The violations of some entries under a checkpoint's regime.
pub open spec fn violations(entries: Seq<EntryModel>, c: CheckpointModel) -> Seq<
    CheckpointViolationModel,
>
    decreases entries.len(),
{
    if entries.len() == 0 {
        Seq::empty()
    } else {
        let rest = violations(entries.drop_last(), c);
        match violation(entries.last(), c) {
            Some(x) => rest.push(x),
            None => rest,
        }
    }
}

/// The position behind the next checkpoint from a position on, or the
/// end of the log.
pub open spec fn regime_end(entries: Seq<EntryModel>, from: int) -> int
    decreases entries.len() - from,
{
    if from >= entries.len() {
        entries.len() as int
    } else if checkpoint_in(entries[from].content.ops) is Some {
        from + 1
    } else {
        regime_end(entries, from + 1)
    }
}

/// The violations after the checkpoint at a position, up to and including
/// the entry of the next checkpoint.
pub open spec fn violations_after(entries: Seq<EntryModel>, at: u64) -> Seq<
    CheckpointViolationModel,
> {
    if at >= entries.len() {
        seq![CheckpointViolationModel::UnknownCheckpoint { seq: at }]
    } else {
        match checkpoint_in(entries[at as int].content.ops) {
            None => seq![CheckpointViolationModel::UnknownCheckpoint { seq: at }],
            Some(c) => violations(
                entries.subrange(at + 1, regime_end(entries, at + 1)),
                c,
            ),
        }
    }
}

fn unknown_checkpoint(at: u64) -> (r: Vec<CheckpointViolation>)
    ensures
        r.deep_view() == seq![CheckpointViolationModel::UnknownCheckpoint { seq: at }],
{
    let mut r: Vec<CheckpointViolation> = Vec::new();
    r.push(CheckpointViolation::UnknownCheckpoint { seq: at });
    assert(r.deep_view() =~= seq![CheckpointViolationModel::UnknownCheckpoint { seq: at }]);
    r
}

/// Reports the writes into a checkpoint's frozen set that were not
/// expected, from the checkpoint up to and including the entry of the
/// next one. It reports and never gates: appending knows no checkpoints.
pub fn validate_after_checkpoint(log: &RecordLog, at: u64) -> (r: Vec<CheckpointViolation>)
    ensures
        r.deep_view() == violations_after(log@.entries, at),
{
    let entries = log.entries();
    let ghost m = log@.entries;
    let n = entries.len();
    if at >= n as u64 {
        return unknown_checkpoint(at);
    }
    let position = at as usize;
    assert(m[at as int] == entries@[position as int]@);
    let checkpoint = match checkpoint_op(&entries[position].content.ops) {
        Some(c) => c,
        None => {
            return unknown_checkpoint(at);
        },
    };
    let mut r: Vec<CheckpointViolation> = Vec::new();
    let mut i: usize = position + 1;
    let ghost start = position + 1;
    let ghost end = regime_end(m, start);
    let mut open = true;
    proof {
        regime_end_bounds(m, start);
        assert(m.subrange(start, start) =~= Seq::<EntryModel>::empty());
        assert(r.deep_view() =~= Seq::<CheckpointViolationModel>::empty());
    }
    while open && i < n
        invariant
            n == entries@.len(),
            m == entries.deep_view(),
            start == position + 1,
            start <= i <= n,
            open ==> end == regime_end(m, i as int),
            !open ==> end == i,
            r.deep_view() == violations(m.subrange(start, i as int), checkpoint@),
        decreases n - i,
    {
        let entry = &entries[i];
        proof {
            assert(m[i as int] == entry@);
            assert(m.subrange(start, i + 1).drop_last() =~= m.subrange(start, i as int));
            assert(m.subrange(start, i + 1).last() == entry@);
        }
        let ghost had = r.deep_view();
        let (columns, groups) = frozen_touched(&entry.content.ops, checkpoint);
        let untouched = columns.is_empty() && groups.is_empty();
        if !untouched && !expected_write(entry, checkpoint) {
            let x = CheckpointViolation::IllegalWrite {
                seq: entry.envelope.seq,
                columns,
                groups,
            };
            let ghost v = x@;
            r.push(x);
            assert(r.deep_view() =~= had.push(v));
        }
        open = checkpoint_op(&entry.content.ops).is_none();
        i += 1;
    }
    r
}

proof fn regime_end_bounds(entries: Seq<EntryModel>, from: int)
    requires
        0 <= from <= entries.len(),
    ensures
        from <= regime_end(entries, from) <= entries.len(),
    decreases entries.len() - from,
{
    if from < entries.len() && checkpoint_in(entries[from].content.ops) is None {
        regime_end_bounds(entries, from + 1);
    }
}

/// The checkpoints of a log, in order.
pub open spec fn checkpoints_of(entries: Seq<EntryModel>) -> Seq<CheckpointAtModel>
    decreases entries.len(),
{
    if entries.len() == 0 {
        Seq::empty()
    } else {
        let rest = checkpoints_of(entries.drop_last());
        let e = entries.last();
        match checkpoint_in(e.content.ops) {
            Some(checkpoint) => rest.push(
                CheckpointAtModel {
                    seq: e.envelope.seq,
                    entry_hash: entry::envelope_hash(e.envelope),
                    checkpoint,
                },
            ),
            None => rest,
        }
    }
}

impl RecordLog {
    /// The checkpoints in this log, in order. The last one is in force.
    pub fn checkpoints(&self) -> (r: Vec<CheckpointAt>)
        requires
            forall|i: int|
                0 <= i < self@.entries.len() && checkpoint_in(
                    self@.entries[i].content.ops,
                ) is Some ==> entry::hashable((#[trigger] self@.entries[i]).envelope),
        ensures
            r.deep_view() == checkpoints_of(self@.entries),
    {
        let entries = self.entries();
        let ghost m = self@.entries;
        let mut r: Vec<CheckpointAt> = Vec::new();
        let mut i: usize = 0;
        assert(m.take(0) =~= Seq::<EntryModel>::empty());
        assert(r.deep_view() =~= Seq::<CheckpointAtModel>::empty());
        while i < entries.len()
            invariant
                i <= entries@.len(),
                m == entries.deep_view(),
                forall|i: int|
                    0 <= i < m.len() && checkpoint_in(m[i].content.ops) is Some ==> entry::hashable(
                        (#[trigger] m[i]).envelope,
                    ),
                r.deep_view() == checkpoints_of(m.take(i as int)),
            decreases entries@.len() - i,
        {
            let e = &entries[i];
            let ghost had = r.deep_view();
            proof {
                assert(m[i as int] == e@);
                assert(m.take(i + 1).drop_last() =~= m.take(i as int));
                assert(m.take(i + 1).last() == e@);
            }
            if let Some(c) = checkpoint_op(&e.content.ops) {
                let x = CheckpointAt {
                    seq: e.envelope.seq,
                    entry_hash: e.hash(),
                    checkpoint: c.dup(),
                };
                let ghost v = x@;
                r.push(x);
                assert(r.deep_view() =~= had.push(v));
            }
            i += 1;
        }
        assert(m.take(m.len() as int) =~= m);
        r
    }
}

} // verus!
