//! What publishing the next revision of a schema does: every column's
//! transition classified, the resolvers' and blocks' changes named, and
//! the rules that no longer hold up.

use vstd::prelude::*;
use crate::cast;
use crate::collections;
use crate::conformance;
use crate::eval;
use crate::order;
use crate::schema;
use crate::typecheck;
use crate::cast::{
    Cast, CastClass, CastError, CastErrorModel, NomenclatureTable, column_cast, nomenclature_rows,
    row_has_option,
};
use crate::collections::{OrderedMap, OrderedSet};
use crate::conformance::{ColumnInfo, ColumnInfoModel, GroupInfoModel, SchemaIndex};
use crate::ids::{ColumnId, GroupId, OptionId, ResolverId};
use crate::logic::{Expr, ExprModel};
use crate::order::{Modeled, contains_model};
use crate::schema::{
    AttachmentConstraints, AttachmentConstraintsModel, BlockRef, BlockRefModel, Column, Group,
    Mapping, MappingModel, OptionRow, OptionRowModel, PlacedModel, ResolverDeclaration,
    ResolverDeclarationModel, ResultFieldModel, ScalarType, ScalarTypeModel, Schema, SchemaModel,
    Shell, ShellModel, Unit, find_field,
};
use crate::typecheck::{TypeError, TypeErrorModel, typecheck};

verus! {

/// How severe a transition is. Whether a checked one fails depends on
/// the values.
#[derive(Clone, Copy, Debug, PartialEq, Eq, Structural)]
pub enum ChangeClass {
    Safe,
    Lossy,
    Checked,
    Breaking,
}

impl DeepView for ChangeClass {
    type V = ChangeClass;

    open spec fn deep_view(&self) -> ChangeClass {
        *self
    }
}

impl View for ChangeClass {
    type V = ChangeClass;

    open spec fn view(&self) -> ChangeClass {
        *self
    }
}

impl Modeled for ChangeClass {
    fn dup(&self) -> (r: Self) {
        *self
    }

    fn same(&self, other: &Self) -> (b: bool) {
        *self == *other
    }
}

impl ChangeClass {
    pub open spec fn rank(self) -> int {
        match self {
            ChangeClass::Safe => 0,
            ChangeClass::Lossy => 1,
            ChangeClass::Checked => 2,
            ChangeClass::Breaking => 3,
        }
    }

    /// The more severe of the two.
    pub open spec fn spec_worse(self, other: ChangeClass) -> ChangeClass {
        if self.rank() < other.rank() {
            other
        } else {
            self
        }
    }

    /// The more severe of the two.
    pub fn worse(self, other: ChangeClass) -> (r: ChangeClass)
        ensures
            r == self.spec_worse(other),
    {
        match (self, other) {
            (ChangeClass::Breaking, _) => self,
            (_, ChangeClass::Breaking) => other,
            (ChangeClass::Checked, _) => self,
            (_, ChangeClass::Checked) => other,
            (ChangeClass::Lossy, _) => self,
            _ => other,
        }
    }
}

/// What happens to a column.
#[derive(Clone, Copy, Debug, PartialEq, Eq, Structural)]
pub enum ColumnChange {
    /// Every record reads absent.
    Added,
    /// Ignored and kept.
    Removed,
    /// Same type, arity and scope. A move within a scope is no change.
    Identical,
    /// The type, arity, unit, options or constraints changed.
    Cast { cast: Cast },
    /// Moved into or out of a `many` group.
    ScopeMoved,
    /// No cast exists between the types.
    Forbidden,
}

impl DeepView for ColumnChange {
    type V = ColumnChange;

    open spec fn deep_view(&self) -> ColumnChange {
        *self
    }
}

impl View for ColumnChange {
    type V = ColumnChange;

    open spec fn view(&self) -> ColumnChange {
        *self
    }
}

impl Modeled for ColumnChange {
    fn dup(&self) -> (r: Self) {
        *self
    }

    fn same(&self, other: &Self) -> (b: bool) {
        *self == *other
    }
}

/// A unit added, removed or replaced: a change of meaning even where the
/// numbers stay.
#[derive(Clone, Copy, Debug, PartialEq, Eq, Structural)]
pub struct UnitChange {
    pub from: Option<Unit>,
    pub to: Option<Unit>,
}

impl DeepView for UnitChange {
    type V = UnitChange;

    open spec fn deep_view(&self) -> UnitChange {
        *self
    }
}

impl View for UnitChange {
    type V = UnitChange;

    open spec fn view(&self) -> UnitChange {
        *self
    }
}

impl Modeled for UnitChange {
    fn dup(&self) -> (r: Self) {
        *self
    }

    fn same(&self, other: &Self) -> (b: bool) {
        *self == *other
    }
}

/// What a file column admits, before and after.
#[derive(Clone, Debug, PartialEq, Eq)]
pub struct ConstraintChange {
    pub from: AttachmentConstraints,
    pub to: AttachmentConstraints,
}

/// The model of [`ConstraintChange`].
#[verifier::ext_equal]
pub struct ConstraintChangeModel {
    pub from: AttachmentConstraintsModel,
    pub to: AttachmentConstraintsModel,
}

impl DeepView for ConstraintChange {
    type V = ConstraintChangeModel;

    open spec fn deep_view(&self) -> ConstraintChangeModel {
        ConstraintChangeModel {
            from: self.from.deep_view(),
            to: self.to.deep_view(),
        }
    }
}

impl View for ConstraintChange {
    type V = ConstraintChangeModel;

    open spec fn view(&self) -> ConstraintChangeModel {
        self.deep_view()
    }
}

impl Modeled for ConstraintChange {
    fn dup(&self) -> (r: Self) {
        ConstraintChange {
            from: self.from.dup(),
            to: self.to.dup(),
        }
    }

    fn same(&self, other: &Self) -> (b: bool) {
        self.from.same(&other.from)
            && self.to.same(&other.to)
    }
}

/// What the transition does to one column.
#[derive(Clone, Debug, PartialEq, Eq)]
pub struct ColumnImpact {
    pub change: ColumnChange,
    pub class: ChangeClass,
    /// The options that an enum column loses.
    pub removed_options: Vec<OptionId>,
    pub constraint_change: Option<ConstraintChange>,
    pub unit_change: Option<UnitChange>,
}

/// The model of [`ColumnImpact`].
#[verifier::ext_equal]
pub struct ColumnImpactModel {
    pub change: ColumnChange,
    pub class: ChangeClass,
    pub removed_options: Seq<Seq<char>>,
    pub constraint_change: Option<ConstraintChangeModel>,
    pub unit_change: Option<UnitChange>,
}

impl DeepView for ColumnImpact {
    type V = ColumnImpactModel;

    open spec fn deep_view(&self) -> ColumnImpactModel {
        ColumnImpactModel {
            change: self.change.deep_view(),
            class: self.class.deep_view(),
            removed_options: self.removed_options.deep_view(),
            constraint_change: self.constraint_change.deep_view(),
            unit_change: self.unit_change.deep_view(),
        }
    }
}

impl View for ColumnImpact {
    type V = ColumnImpactModel;

    open spec fn view(&self) -> ColumnImpactModel {
        self.deep_view()
    }
}

impl Modeled for ColumnImpact {
    fn dup(&self) -> (r: Self) {
        ColumnImpact {
            change: self.change.dup(),
            class: self.class.dup(),
            removed_options: self.removed_options.dup(),
            constraint_change: self.constraint_change.dup(),
            unit_change: self.unit_change.dup(),
        }
    }

    fn same(&self, other: &Self) -> (b: bool) {
        self.change.same(&other.change)
            && self.class.same(&other.class)
            && self.removed_options.same(&other.removed_options)
            && self.constraint_change.same(&other.constraint_change)
            && self.unit_change.same(&other.unit_change)
    }
}

/// What happens to a resolver's declaration, which its anchor and its id
/// identify. One declaration can change in several ways at once.
#[derive(Clone, Debug, PartialEq, Eq)]
pub enum ResolverChange {
    Added { anchor: GroupId, id: ResolverId },
    /// The columns that stay and that nothing feeds any more.
    Removed { anchor: GroupId, id: ResolverId, orphaned_columns: Vec<ColumnId> },
    /// The mappings whose result field vanished or no longer fits its
    /// column.
    ResultTypeChanged { anchor: GroupId, id: ResolverId, broken_mappings: Vec<Mapping> },
    /// The columns that are fed differently or newly, and those that
    /// stay and are no longer fed.
    MappingChanged {
        anchor: GroupId,
        id: ResolverId,
        stale_columns: Vec<ColumnId>,
        orphaned_columns: Vec<ColumnId>,
    },
    InputChanged { anchor: GroupId, id: ResolverId },
    VersionChanged { anchor: GroupId, id: ResolverId, from: u32, to: u32 },
}

/// The model of [`ResolverChange`].
#[verifier::ext_equal]
pub enum ResolverChangeModel {
    Added { anchor: Seq<char>, id: Seq<char> },
    Removed { anchor: Seq<char>, id: Seq<char>, orphaned_columns: Seq<Seq<char>> },
    ResultTypeChanged { anchor: Seq<char>, id: Seq<char>, broken_mappings: Seq<MappingModel> },
    MappingChanged { anchor: Seq<char>, id: Seq<char>, stale_columns: Seq<Seq<char>>, orphaned_columns: Seq<Seq<char>> },
    InputChanged { anchor: Seq<char>, id: Seq<char> },
    VersionChanged { anchor: Seq<char>, id: Seq<char>, from: u32, to: u32 },
}

impl DeepView for ResolverChange {
    type V = ResolverChangeModel;

    open spec fn deep_view(&self) -> ResolverChangeModel {
        match self {
            ResolverChange::Added { anchor, id } => ResolverChangeModel::Added {
                anchor: anchor.deep_view(),
                id: id.deep_view(),
            },
            ResolverChange::Removed { anchor, id, orphaned_columns } => ResolverChangeModel::Removed {
                anchor: anchor.deep_view(),
                id: id.deep_view(),
                orphaned_columns: orphaned_columns.deep_view(),
            },
            ResolverChange::ResultTypeChanged { anchor, id, broken_mappings } => ResolverChangeModel::ResultTypeChanged {
                anchor: anchor.deep_view(),
                id: id.deep_view(),
                broken_mappings: broken_mappings.deep_view(),
            },
            ResolverChange::MappingChanged { anchor, id, stale_columns, orphaned_columns } => ResolverChangeModel::MappingChanged {
                anchor: anchor.deep_view(),
                id: id.deep_view(),
                stale_columns: stale_columns.deep_view(),
                orphaned_columns: orphaned_columns.deep_view(),
            },
            ResolverChange::InputChanged { anchor, id } => ResolverChangeModel::InputChanged {
                anchor: anchor.deep_view(),
                id: id.deep_view(),
            },
            ResolverChange::VersionChanged { anchor, id, from, to } => ResolverChangeModel::VersionChanged {
                anchor: anchor.deep_view(),
                id: id.deep_view(),
                from: *from,
                to: *to,
            },
        }
    }
}

impl View for ResolverChange {
    type V = ResolverChangeModel;

    open spec fn view(&self) -> ResolverChangeModel {
        self.deep_view()
    }
}

impl Modeled for ResolverChange {
    fn dup(&self) -> (r: Self) {
        match self {
            ResolverChange::Added { anchor, id } => ResolverChange::Added {
                anchor: anchor.dup(),
                id: id.dup(),
            },
            ResolverChange::Removed { anchor, id, orphaned_columns } => ResolverChange::Removed {
                anchor: anchor.dup(),
                id: id.dup(),
                orphaned_columns: orphaned_columns.dup(),
            },
            ResolverChange::ResultTypeChanged { anchor, id, broken_mappings } => ResolverChange::ResultTypeChanged {
                anchor: anchor.dup(),
                id: id.dup(),
                broken_mappings: broken_mappings.dup(),
            },
            ResolverChange::MappingChanged { anchor, id, stale_columns, orphaned_columns } => ResolverChange::MappingChanged {
                anchor: anchor.dup(),
                id: id.dup(),
                stale_columns: stale_columns.dup(),
                orphaned_columns: orphaned_columns.dup(),
            },
            ResolverChange::InputChanged { anchor, id } => ResolverChange::InputChanged {
                anchor: anchor.dup(),
                id: id.dup(),
            },
            ResolverChange::VersionChanged { anchor, id, from, to } => ResolverChange::VersionChanged {
                anchor: anchor.dup(),
                id: id.dup(),
                from: *from,
                to: *to,
            },
        }
    }

    fn same(&self, other: &Self) -> (b: bool) {
        match (self, other) {
            (
                ResolverChange::Added { anchor, id },
                ResolverChange::Added { anchor: anchor2, id: id2 },
            ) => {
                anchor.same(anchor2)
                    && id.same(id2)
            },
            (
                ResolverChange::Removed { anchor, id, orphaned_columns },
                ResolverChange::Removed { anchor: anchor2, id: id2, orphaned_columns: orphaned_columns2 },
            ) => {
                anchor.same(anchor2)
                    && id.same(id2)
                    && orphaned_columns.same(orphaned_columns2)
            },
            (
                ResolverChange::ResultTypeChanged { anchor, id, broken_mappings },
                ResolverChange::ResultTypeChanged { anchor: anchor2, id: id2, broken_mappings: broken_mappings2 },
            ) => {
                anchor.same(anchor2)
                    && id.same(id2)
                    && broken_mappings.same(broken_mappings2)
            },
            (
                ResolverChange::MappingChanged { anchor, id, stale_columns, orphaned_columns },
                ResolverChange::MappingChanged { anchor: anchor2, id: id2, stale_columns: stale_columns2, orphaned_columns: orphaned_columns2 },
            ) => {
                anchor.same(anchor2)
                    && id.same(id2)
                    && stale_columns.same(stale_columns2)
                    && orphaned_columns.same(orphaned_columns2)
            },
            (
                ResolverChange::InputChanged { anchor, id },
                ResolverChange::InputChanged { anchor: anchor2, id: id2 },
            ) => {
                anchor.same(anchor2)
                    && id.same(id2)
            },
            (
                ResolverChange::VersionChanged { anchor, id, from, to },
                ResolverChange::VersionChanged { anchor: anchor2, id: id2, from: from2, to: to2 },
            ) => {
                anchor.same(anchor2)
                    && id.same(id2)
                    && *from == *from2
                    && *to == *to2
            },
            _ => false,
        }
    }
}

/// A rule to be judged against the new revision, with the scope where it
/// stands.
#[derive(Clone, Debug, PartialEq, Eq)]
pub struct RuleRef {
    pub name: String,
    pub scope: Vec<GroupId>,
    pub expr: Expr,
}

/// The model of [`RuleRef`].
#[verifier::ext_equal]
pub struct RuleRefModel {
    pub name: Seq<char>,
    pub scope: Seq<Seq<char>>,
    pub expr: ExprModel,
}

impl DeepView for RuleRef {
    type V = RuleRefModel;

    open spec fn deep_view(&self) -> RuleRefModel {
        RuleRefModel {
            name: self.name.deep_view(),
            scope: self.scope.deep_view(),
            expr: self.expr.deep_view(),
        }
    }
}

impl View for RuleRef {
    type V = RuleRefModel;

    open spec fn view(&self) -> RuleRefModel {
        self.deep_view()
    }
}

impl Modeled for RuleRef {
    fn dup(&self) -> (r: Self) {
        RuleRef {
            name: self.name.dup(),
            scope: self.scope.dup(),
            expr: self.expr.dup(),
        }
    }

    fn same(&self, other: &Self) -> (b: bool) {
        self.name.same(&other.name)
            && self.scope.same(&other.scope)
            && self.expr.same(&other.expr)
    }
}

/// Why a rule breaks.
#[derive(Clone, Debug, PartialEq, Eq)]
pub enum BreakKind {
    /// A source column no longer exists.
    SourceRemoved(ColumnId),
    /// A source was retyped or moved so that the atom no longer fits it.
    SourceRetyped(ColumnId),
    /// A constant names an option that is gone.
    OptionRemoved(ColumnId, OptionId),
    /// A nomenclature's extra field is gone.
    FieldRemoved(ColumnId, String),
    /// No resolver is anchored on the group any more.
    ResolverRemoved(GroupId),
    /// Anything else that the rule is refused for.
    Other(TypeError),
}

/// The model of [`BreakKind`].
#[verifier::ext_equal]
pub enum BreakKindModel {
    SourceRemoved(Seq<char>),
    SourceRetyped(Seq<char>),
    OptionRemoved(Seq<char>, Seq<char>),
    FieldRemoved(Seq<char>, Seq<char>),
    ResolverRemoved(Seq<char>),
    Other(TypeErrorModel),
}

impl DeepView for BreakKind {
    type V = BreakKindModel;

    open spec fn deep_view(&self) -> BreakKindModel {
        match self {
            BreakKind::SourceRemoved(x) => BreakKindModel::SourceRemoved(x.deep_view()),
            BreakKind::SourceRetyped(x) => BreakKindModel::SourceRetyped(x.deep_view()),
            BreakKind::OptionRemoved(x0, x1) => BreakKindModel::OptionRemoved(x0.deep_view(), x1.deep_view()),
            BreakKind::FieldRemoved(x0, x1) => BreakKindModel::FieldRemoved(x0.deep_view(), x1.deep_view()),
            BreakKind::ResolverRemoved(x) => BreakKindModel::ResolverRemoved(x.deep_view()),
            BreakKind::Other(x) => BreakKindModel::Other(x.deep_view()),
        }
    }
}

impl View for BreakKind {
    type V = BreakKindModel;

    open spec fn view(&self) -> BreakKindModel {
        self.deep_view()
    }
}

impl Modeled for BreakKind {
    fn dup(&self) -> (r: Self) {
        match self {
            BreakKind::SourceRemoved(x) => BreakKind::SourceRemoved(x.dup()),
            BreakKind::SourceRetyped(x) => BreakKind::SourceRetyped(x.dup()),
            BreakKind::OptionRemoved(x0, x1) => BreakKind::OptionRemoved(x0.dup(), x1.dup()),
            BreakKind::FieldRemoved(x0, x1) => BreakKind::FieldRemoved(x0.dup(), x1.dup()),
            BreakKind::ResolverRemoved(x) => BreakKind::ResolverRemoved(x.dup()),
            BreakKind::Other(x) => BreakKind::Other(x.dup()),
        }
    }

    fn same(&self, other: &Self) -> (b: bool) {
        match (self, other) {
            (BreakKind::SourceRemoved(x), BreakKind::SourceRemoved(y)) => x.same(y),
            (BreakKind::SourceRetyped(x), BreakKind::SourceRetyped(y)) => x.same(y),
            (BreakKind::OptionRemoved(x0, x1), BreakKind::OptionRemoved(y0, y1)) => x0.same(y0) && x1.same(y1),
            (BreakKind::FieldRemoved(x0, x1), BreakKind::FieldRemoved(y0, y1)) => x0.same(y0) && x1.same(y1),
            (BreakKind::ResolverRemoved(x), BreakKind::ResolverRemoved(y)) => x.same(y),
            (BreakKind::Other(x), BreakKind::Other(y)) => x.same(y),
            _ => false,
        }
    }
}

/// A rule that the new revision refuses.
#[derive(Clone, Debug, PartialEq, Eq)]
pub struct BrokenRule {
    pub name: String,
    pub kinds: Vec<BreakKind>,
    /// The old revision refuses it too.
    pub already_broken: bool,
}

/// The model of [`BrokenRule`].
#[verifier::ext_equal]
pub struct BrokenRuleModel {
    pub name: Seq<char>,
    pub kinds: Seq<BreakKindModel>,
    pub already_broken: bool,
}

impl DeepView for BrokenRule {
    type V = BrokenRuleModel;

    open spec fn deep_view(&self) -> BrokenRuleModel {
        BrokenRuleModel {
            name: self.name.deep_view(),
            kinds: self.kinds.deep_view(),
            already_broken: self.already_broken,
        }
    }
}

impl View for BrokenRule {
    type V = BrokenRuleModel;

    open spec fn view(&self) -> BrokenRuleModel {
        self.deep_view()
    }
}

impl Modeled for BrokenRule {
    fn dup(&self) -> (r: Self) {
        BrokenRule {
            name: self.name.dup(),
            kinds: self.kinds.dup(),
            already_broken: self.already_broken,
        }
    }

    fn same(&self, other: &Self) -> (b: bool) {
        self.name.same(&other.name)
            && self.kinds.same(&other.kinds)
            && self.already_broken == other.already_broken
    }
}

/// A group's tie to the block that it was included from.
#[derive(Clone, Debug, PartialEq, Eq)]
pub enum BlockChange {
    /// A group from a block appears.
    Included { group: GroupId, block: BlockRef },
    /// A group from a block is gone.
    Removed { group: GroupId, block: BlockRef },
    /// The group now comes from another version, or another block.
    Bumped { group: GroupId, from: BlockRef, to: BlockRef },
    /// The group stays and is tied to no block any more.
    Detached { group: GroupId, was: BlockRef },
    /// The group stays and is now tied to a block.
    Attached { group: GroupId, now: BlockRef },
}

/// The model of [`BlockChange`].
#[verifier::ext_equal]
pub enum BlockChangeModel {
    Included { group: Seq<char>, block: BlockRefModel },
    Removed { group: Seq<char>, block: BlockRefModel },
    Bumped { group: Seq<char>, from: BlockRefModel, to: BlockRefModel },
    Detached { group: Seq<char>, was: BlockRefModel },
    Attached { group: Seq<char>, now: BlockRefModel },
}

impl DeepView for BlockChange {
    type V = BlockChangeModel;

    open spec fn deep_view(&self) -> BlockChangeModel {
        match self {
            BlockChange::Included { group, block } => BlockChangeModel::Included {
                group: group.deep_view(),
                block: block.deep_view(),
            },
            BlockChange::Removed { group, block } => BlockChangeModel::Removed {
                group: group.deep_view(),
                block: block.deep_view(),
            },
            BlockChange::Bumped { group, from, to } => BlockChangeModel::Bumped {
                group: group.deep_view(),
                from: from.deep_view(),
                to: to.deep_view(),
            },
            BlockChange::Detached { group, was } => BlockChangeModel::Detached {
                group: group.deep_view(),
                was: was.deep_view(),
            },
            BlockChange::Attached { group, now } => BlockChangeModel::Attached {
                group: group.deep_view(),
                now: now.deep_view(),
            },
        }
    }
}

impl View for BlockChange {
    type V = BlockChangeModel;

    open spec fn view(&self) -> BlockChangeModel {
        self.deep_view()
    }
}

impl Modeled for BlockChange {
    fn dup(&self) -> (r: Self) {
        match self {
            BlockChange::Included { group, block } => BlockChange::Included {
                group: group.dup(),
                block: block.dup(),
            },
            BlockChange::Removed { group, block } => BlockChange::Removed {
                group: group.dup(),
                block: block.dup(),
            },
            BlockChange::Bumped { group, from, to } => BlockChange::Bumped {
                group: group.dup(),
                from: from.dup(),
                to: to.dup(),
            },
            BlockChange::Detached { group, was } => BlockChange::Detached {
                group: group.dup(),
                was: was.dup(),
            },
            BlockChange::Attached { group, now } => BlockChange::Attached {
                group: group.dup(),
                now: now.dup(),
            },
        }
    }

    fn same(&self, other: &Self) -> (b: bool) {
        match (self, other) {
            (
                BlockChange::Included { group, block },
                BlockChange::Included { group: group2, block: block2 },
            ) => {
                group.same(group2)
                    && block.same(block2)
            },
            (
                BlockChange::Removed { group, block },
                BlockChange::Removed { group: group2, block: block2 },
            ) => {
                group.same(group2)
                    && block.same(block2)
            },
            (
                BlockChange::Bumped { group, from, to },
                BlockChange::Bumped { group: group2, from: from2, to: to2 },
            ) => {
                group.same(group2)
                    && from.same(from2)
                    && to.same(to2)
            },
            (
                BlockChange::Detached { group, was },
                BlockChange::Detached { group: group2, was: was2 },
            ) => {
                group.same(group2)
                    && was.same(was2)
            },
            (
                BlockChange::Attached { group, now },
                BlockChange::Attached { group: group2, now: now2 },
            ) => {
                group.same(group2)
                    && now.same(now2)
            },
            _ => false,
        }
    }
}

/// An impact without particulars.
pub open spec fn bare_impact(change: ColumnChange, class: ChangeClass) -> ColumnImpactModel {
    ColumnImpactModel {
        change,
        class,
        removed_options: Seq::empty(),
        constraint_change: None,
        unit_change: None,
    }
}

fn bare(change: ColumnChange, class: ChangeClass) -> (r: ColumnImpact)
    ensures
        r@ == bare_impact(change, class),
{
    let r = ColumnImpact {
        change,
        class,
        removed_options: Vec::new(),
        constraint_change: None,
        unit_change: None,
    };
    assert(r@.removed_options =~= Seq::<Seq<char>>::empty());
    r
}

/// The change of constraints between two file types.
pub open spec fn constraints_changed(from: ScalarTypeModel, to: ScalarTypeModel) -> Option<
    ConstraintChangeModel,
> {
    match (from, to) {
        (ScalarTypeModel::Attachment(f), ScalarTypeModel::Attachment(t)) => if f == t {
            None
        } else {
            Some(ConstraintChangeModel { from: f, to: t })
        },
        _ => None,
    }
}

fn constraint_change(from: &ScalarType, to: &ScalarType) -> (r: Option<ConstraintChange>)
    ensures
        r.deep_view() == constraints_changed(from@, to@),
{
    match (from, to) {
        (ScalarType::Attachment(f), ScalarType::Attachment(t)) => {
            if f.same(t) {
                None
            } else {
                Some(ConstraintChange { from: f.dup(), to: t.dup() })
            }
        },
        _ => None,
    }
}

/// The change of unit between two number types.
pub open spec fn unit_changed(from: ScalarTypeModel, to: ScalarTypeModel) -> Option<UnitChange> {
    match (eval::column_unit(from), eval::column_unit(to)) {
        (Some(f), Some(t)) => if f == t {
            None
        } else {
            Some(UnitChange { from: f, to: t })
        },
        _ => None,
    }
}

fn unit_of(ty: &ScalarType) -> (r: Option<Option<Unit>>)
    ensures
        r == eval::column_unit(ty@),
{
    match ty {
        ScalarType::Integer(u) => Some(*u),
        ScalarType::Decimal(u) => Some(*u),
        _ => None,
    }
}

fn unit_change(from: &ScalarType, to: &ScalarType) -> (r: Option<UnitChange>)
    ensures
        r == unit_changed(from@, to@),
{
    match (unit_of(from), unit_of(to)) {
        (Some(f), Some(t)) => {
            let same = match (f, t) {
                (None, None) => true,
                (Some(a), Some(b)) => a == b,
                _ => false,
            };
            if same {
                None
            } else {
                Some(UnitChange { from: f, to: t })
            }
        },
        _ => None,
    }
}

/// The options of some rows that others do not have.
pub open spec fn options_lost(from: Seq<OptionRowModel>, to: Seq<OptionRowModel>) -> Set<
    Seq<char>,
> {
    Set::new(|id: Seq<char>| cast::has_option(from, id) && !cast::has_option(to, id))
}

/// The options that an enum column loses, in order.
pub open spec fn options_removed(
    from: ScalarTypeModel,
    to: ScalarTypeModel,
    noms: Map<(Seq<char>, u32), Seq<OptionRowModel>>,
) -> Result<Seq<Seq<char>>, CastErrorModel> {
    match (from, to) {
        (ScalarTypeModel::Enum(f), ScalarTypeModel::Enum(t)) => match cast::rows_of(f, noms) {
            Err(e) => Err(e),
            Ok(old) => match cast::rows_of(t, noms) {
                Err(e) => Err(e),
                Ok(new) => Ok(collections::key_order::<OptionId>(options_lost(old, new))),
            },
        },
        _ => Ok(Seq::empty()),
    }
}

fn lost_options(old: &Vec<OptionRow>, new: &Vec<OptionRow>) -> (r: Vec<OptionId>)
    ensures
        r.deep_view() == collections::key_order::<OptionId>(options_lost(old.deep_view(), new.deep_view())),
{
    let ghost f = old.deep_view();
    let ghost t = new.deep_view();
    let mut lost: OrderedSet<OptionId> = OrderedSet::new();
    let mut i: usize = 0;
    assert(lost@ =~= options_lost(f.take(0), t));
    while i < old.len()
        invariant
            i <= old@.len(),
            f == old.deep_view(),
            t == new.deep_view(),
            lost@ == options_lost(f.take(i as int), t),
        decreases old@.len() - i,
    {
        let ghost had = lost@;
        let id = &old[i].id;
        let ghost before = f.take(i as int);
        let ghost after = f.take(i + 1);
        assert(after[i as int].id == id@);
        assert forall|x: Seq<char>| cast::has_option(after, x) <==> cast::has_option(before, x) || x == id@ by {
            if cast::has_option(after, x) {
                let k = choose|k: int| 0 <= k < after.len() && (#[trigger] after[k]).id == x;
                if k < i {
                    assert(before[k].id == x);
                }
            }
            if cast::has_option(before, x) {
                let k = choose|k: int| 0 <= k < before.len() && (#[trigger] before[k]).id == x;
                assert(after[k].id == x);
            }
        }
        if !row_has_option(new, id) {
            lost.insert(id.dup());
            assert(lost@ =~= options_lost(after, t));
        } else {
            assert(lost@ =~= options_lost(after, t));
        }
        i += 1;
    }
    assert(f.take(f.len() as int) =~= f);
    lost.to_vec()
}

fn removed_options(
    from: &ScalarType,
    to: &ScalarType,
    nomenclatures: &NomenclatureTable,
) -> (r: Result<Vec<OptionId>, CastError>)
    ensures
        match r {
            Ok(v) => options_removed(from@, to@, nomenclatures@) == Ok::<_, CastErrorModel>(
                v.deep_view(),
            ),
            Err(e) => options_removed(from@, to@, nomenclatures@) == Err::<Seq<Seq<char>>, _>(e@),
        },
{
    match (from, to) {
        (ScalarType::Enum(f), ScalarType::Enum(t)) => {
            let old = match nomenclature_rows(f, nomenclatures) {
                Ok(rows) => rows,
                Err(e) => {
                    return Err(e);
                },
            };
            let new = match nomenclature_rows(t, nomenclatures) {
                Ok(rows) => rows,
                Err(e) => {
                    return Err(e);
                },
            };
            Ok(lost_options(old, new))
        },
        _ => {
            let none: Vec<OptionId> = Vec::new();
            assert(none.deep_view() =~= Seq::<Seq<char>>::empty());
            Ok(none)
        },
    }
}

/// The change and class of a column whose cast has a class.
pub open spec fn cast_change(cast: Cast) -> (ColumnChange, ChangeClass) {
    match cast.spec_class() {
        CastClass::Identity => (ColumnChange::Identical, ChangeClass::Safe),
        CastClass::Forbidden => (ColumnChange::Forbidden, ChangeClass::Breaking),
        CastClass::Widening => (ColumnChange::Cast { cast }, ChangeClass::Safe),
        CastClass::Lossy => (ColumnChange::Cast { cast }, ChangeClass::Lossy),
        CastClass::Checked => (ColumnChange::Cast { cast }, ChangeClass::Checked),
    }
}

fn change_of(cast: Cast) -> (r: (ColumnChange, ChangeClass))
    ensures
        r == cast_change(cast),
{
    match cast.class() {
        CastClass::Identity => (ColumnChange::Identical, ChangeClass::Safe),
        CastClass::Forbidden => (ColumnChange::Forbidden, ChangeClass::Breaking),
        CastClass::Widening => (ColumnChange::Cast { cast }, ChangeClass::Safe),
        CastClass::Lossy => (ColumnChange::Cast { cast }, ChangeClass::Lossy),
        CastClass::Checked => (ColumnChange::Cast { cast }, ChangeClass::Checked),
    }
}

/// What the transition does to a column that the old revision has.
pub open spec fn column_impact(
    column: Seq<char>,
    from: ColumnInfoModel,
    to: Map<Seq<char>, ColumnInfoModel>,
    noms: Map<(Seq<char>, u32), Seq<OptionRowModel>>,
) -> Result<ColumnImpactModel, CastErrorModel> {
    if !to.dom().contains(column) {
        Ok(bare_impact(ColumnChange::Removed, ChangeClass::Safe))
    } else if from.scope != to[column].scope {
        Ok(bare_impact(ColumnChange::ScopeMoved, ChangeClass::Breaking))
    } else {
        let t = to[column];
        match cast::column_cast_of((from.ty, from.arity), (t.ty, t.arity), noms) {
            Err(e) => Err(e),
            Ok(cast) => match options_removed(from.ty, t.ty, noms) {
                Err(e) => Err(e),
                Ok(removed_options) => {
                    let (change, class) = cast_change(cast);
                    Ok(
                        ColumnImpactModel {
                            change,
                            class,
                            removed_options,
                            constraint_change: constraints_changed(from.ty, t.ty),
                            unit_change: unit_changed(from.ty, t.ty),
                        },
                    )
                },
            },
        }
    }
}

fn impact_of(
    column: &ColumnId,
    from: &ColumnInfo,
    to: &SchemaIndex,
    nomenclatures: &NomenclatureTable,
) -> (r: Result<ColumnImpact, CastError>)
    ensures
        order::result_model(r) == column_impact(column@, from@, to@.columns, nomenclatures@),
{
    let t = match to.columns.get(column) {
        Some(t) => t,
        None => {
            return Ok(bare(ColumnChange::Removed, ChangeClass::Safe));
        },
    };
    if !from.scope.same(&t.scope) {
        return Ok(bare(ColumnChange::ScopeMoved, ChangeClass::Breaking));
    }
    let cast = match column_cast((&from.ty, from.arity), (&t.ty, t.arity), nomenclatures) {
        Ok(c) => c,
        Err(e) => {
            return Err(e);
        },
    };
    let removed = match removed_options(&from.ty, &t.ty, nomenclatures) {
        Ok(v) => v,
        Err(e) => {
            return Err(e);
        },
    };
    let (change, class) = change_of(cast);
    Ok(
        ColumnImpact {
            change,
            class,
            removed_options: removed,
            constraint_change: constraint_change(&from.ty, &t.ty),
            unit_change: unit_change(&from.ty, &t.ty),
        },
    )
}

/// What the transition does to some columns of the old revision; the
/// first that cannot be judged refuses it.
pub open spec fn column_impacts(
    keys: Seq<Seq<char>>,
    from: Map<Seq<char>, ColumnInfoModel>,
    to: Map<Seq<char>, ColumnInfoModel>,
    noms: Map<(Seq<char>, u32), Seq<OptionRowModel>>,
) -> Result<Map<Seq<char>, ColumnImpactModel>, CastErrorModel>
    decreases keys.len(),
{
    if keys.len() == 0 {
        Ok(Map::empty())
    } else {
        match column_impacts(keys.drop_last(), from, to, noms) {
            Err(e) => Err(e),
            Ok(m) => match column_impact(keys.last(), from[keys.last()], to, noms) {
                Err(e) => Err(e),
                Ok(i) => Ok(m.insert(keys.last(), i)),
            },
        }
    }
}

/// The columns that only the new revision has.
pub open spec fn added_columns(
    from: Map<Seq<char>, ColumnInfoModel>,
    to: Map<Seq<char>, ColumnInfoModel>,
) -> Map<Seq<char>, ColumnImpactModel> {
    Map::new(
        |c: Seq<char>| to.dom().contains(c) && !from.dom().contains(c),
        |c: Seq<char>| bare_impact(ColumnChange::Added, ChangeClass::Safe),
    )
}

/// Every column of the old revision is judged on its own.
pub proof fn impacts_cover(
    keys: Seq<Seq<char>>,
    from: Map<Seq<char>, ColumnInfoModel>,
    to: Map<Seq<char>, ColumnInfoModel>,
    noms: Map<(Seq<char>, u32), Seq<OptionRowModel>>,
)
    ensures
        column_impacts(keys, from, to, noms) matches Ok(m) ==> forall|c: Seq<char>| #[trigger]
            m.dom().contains(c) <==> keys.contains(c),
        column_impacts(keys, from, to, noms) matches Ok(m) ==> forall|c: Seq<char>| #[trigger]
            m.dom().contains(c) ==> column_impact(c, from[c], to, noms) == Ok::<
                ColumnImpactModel,
                CastErrorModel,
            >(m[c]),
    decreases keys.len(),
{
    if keys.len() > 0 {
        let rest = keys.drop_last();
        impacts_cover(rest, from, to, noms);
        if let Ok(m) = column_impacts(keys, from, to, noms) {
            assert forall|c: Seq<char>| #[trigger] m.dom().contains(c) <==> keys.contains(c) by {
                if keys.contains(c) {
                    let i = keys.index_of(c);
                    if i < rest.len() {
                        assert(rest[i] == c);
                        assert(rest.contains(c));
                    }
                }
                if rest.contains(c) {
                    let i = rest.index_of(c);
                    assert(keys[i] == c);
                }
                assert(keys[keys.len() - 1] == keys.last());
            }
        }
    }
}

proof fn impacts_stop(
    keys: Seq<Seq<char>>,
    from: Map<Seq<char>, ColumnInfoModel>,
    to: Map<Seq<char>, ColumnInfoModel>,
    noms: Map<(Seq<char>, u32), Seq<OptionRowModel>>,
    k: int,
)
    requires
        0 <= k <= keys.len(),
        column_impacts(keys.take(k), from, to, noms) is Err,
    ensures
        column_impacts(keys, from, to, noms) == column_impacts(keys.take(k), from, to, noms),
    decreases keys.len() - k,
{
    if k == keys.len() {
        assert(keys.take(k) =~= keys);
    } else {
        assert(keys.take(k + 1).drop_last() =~= keys.take(k));
        impacts_stop(keys, from, to, noms, k + 1);
    }
}

pub fn impacts_of(from: &SchemaIndex, to: &SchemaIndex, nomenclatures: &NomenclatureTable) -> (r:
    Result<OrderedMap<ColumnId, ColumnImpact>, CastError>)
    ensures
        match r {
            Ok(m) => column_impacts(
                collections::key_order::<ColumnId>(from@.columns.dom()),
                from@.columns,
                to@.columns,
                nomenclatures@,
            ) == Ok::<_, CastErrorModel>(m@),
            Err(e) => column_impacts(
                collections::key_order::<ColumnId>(from@.columns.dom()),
                from@.columns,
                to@.columns,
                nomenclatures@,
            ) == Err::<Map<Seq<char>, ColumnImpactModel>, _>(e@),
        },
{
    let n = from.columns.len();
    let ghost keys = from.columns.keys();
    let mut out: OrderedMap<ColumnId, ColumnImpact> = OrderedMap::new();
    let mut i: usize = 0;
    assert(keys.take(0) =~= Seq::<Seq<char>>::empty());
    while i < n
        invariant
            i <= n == keys.len(),
            keys == from.columns.keys(),
            column_impacts(keys.take(i as int), from@.columns, to@.columns, nomenclatures@)
                == Ok::<Map<Seq<char>, ColumnImpactModel>, CastErrorModel>(out@),
        decreases n - i,
    {
        proof {
            assert(keys.take(i + 1).drop_last() =~= keys.take(i as int));
        }
        let column = from.columns.key_at(i);
        match impact_of(column, from.columns.value_at(i), to, nomenclatures) {
            Ok(impact) => {
                out.insert(column.dup(), impact);
            },
            Err(e) => {
                proof {
                    impacts_stop(keys, from@.columns, to@.columns, nomenclatures@, i + 1);
                }
                return Err(e);
            },
        }
        i += 1;
    }
    assert(keys.take(n as int) =~= keys);
    Ok(out)
}

/// Puts the columns that only the new revision has beside the others.
pub fn add_new(from: &SchemaIndex, to: &SchemaIndex, out: &mut OrderedMap<ColumnId, ColumnImpact>)
    requires
        old(out)@.dom() == from@.columns.dom(),
    ensures
        final(out)@ == old(out)@.union_prefer_right(added_columns(from@.columns, to@.columns)),
{
    let n = to.columns.len();
    let ghost keys = to.columns.keys();
    let ghost start = out@;
    let ghost added = added_columns(from@.columns, to@.columns);
    let mut i: usize = 0;
    while i < n
        invariant
            i <= n == keys.len(),
            keys == to.columns.keys(),
            collections::lists::<ColumnId>(keys, to@.columns.dom()),
            start == old(out)@,
            start.dom() == from@.columns.dom(),
            added == added_columns(from@.columns, to@.columns),
            forall|c: Seq<char>| #[trigger]
                out@.dom().contains(c) <==> start.dom().contains(c) || (added.dom().contains(c)
                    && keys.take(i as int).contains(c)),
            forall|c: Seq<char>|
                start.dom().contains(c) ==> #[trigger] out@[c] == start[c],
            forall|c: Seq<char>|
                added.dom().contains(c) && keys.take(i as int).contains(c) ==> #[trigger] out@[c]
                    == added[c],
        decreases n - i,
    {
        let column = to.columns.key_at(i);
        let ghost before = keys.take(i as int);
        let ghost after = keys.take(i + 1);
        proof {
            assert(after[i as int] == column@);
            assert(keys.contains(keys[i as int]));
            assert forall|c: Seq<char>| after.contains(c) <==> before.contains(c) || c
                == column@ by {
                if after.contains(c) {
                    let k = after.index_of(c);
                    if k < i {
                        assert(before[k] == c);
                    }
                }
                if before.contains(c) {
                    let k = before.index_of(c);
                    assert(after[k] == c);
                }
            }
        }
        if !from.columns.contains_key(column) {
            out.insert(column.dup(), bare(ColumnChange::Added, ChangeClass::Safe));
        }
        i += 1;
    }
    proof {
        assert(keys.take(n as int) =~= keys);
        assert forall|c: Seq<char>| added.dom().contains(c) implies keys.contains(c) by {}
        assert(out@ =~= start.union_prefer_right(added));
    }
}

/// The members of a list that are to be kept.
pub open spec fn kept<A>(s: Seq<A>, keep: spec_fn(A) -> bool) -> Seq<A>
    decreases s.len(),
{
    if s.len() == 0 {
        Seq::empty()
    } else if keep(s.last()) {
        kept(s.drop_last(), keep).push(s.last())
    } else {
        kept(s.drop_last(), keep)
    }
}

/// Where mappings land.
pub open spec fn targets(s: Seq<MappingModel>) -> Seq<Seq<char>> {
    Seq::new(s.len(), |i: int| s[i].target)
}

/// Whether a mapping's result field vanished or no longer fits its
/// column. A column that is gone is a question of columns.
pub open spec fn mapping_is_broken(
    m: MappingModel,
    result_type: Seq<ResultFieldModel>,
    columns: Map<Seq<char>, ColumnInfoModel>,
) -> bool {
    match schema::field_type(result_type, m.result_field) {
        None => true,
        Some(ty) => columns.dom().contains(m.target) && !ty.same_constructor(
            columns[m.target].ty,
        ),
    }
}

/// Whether some mapping lands in a column.
pub open spec fn is_fed(s: Seq<MappingModel>, column: Seq<char>) -> bool {
    exists|i: int| 0 <= i < s.len() && (#[trigger] s[i]).target == column
}

/// The mapped columns that stay.
pub open spec fn staying_targets(
    s: Seq<MappingModel>,
    columns: Map<Seq<char>, ColumnInfoModel>,
) -> Seq<Seq<char>> {
    targets(kept(s, |m: MappingModel| columns.dom().contains(m.target)))
}

/// The mappings that no longer work.
pub open spec fn broken_mappings(
    to: ResolverDeclarationModel,
    columns: Map<Seq<char>, ColumnInfoModel>,
) -> Seq<MappingModel> {
    kept(to.mapping, |m: MappingModel| mapping_is_broken(m, to.result_type, columns))
}

/// The columns that are fed differently or newly.
pub open spec fn stale_targets(from: Seq<MappingModel>, to: Seq<MappingModel>) -> Seq<Seq<char>> {
    targets(kept(to, |m: MappingModel| !from.contains(m)))
}

/// The columns that stay and are no longer fed.
pub open spec fn orphaned_targets(
    from: Seq<MappingModel>,
    to: Seq<MappingModel>,
    columns: Map<Seq<char>, ColumnInfoModel>,
) -> Seq<Seq<char>> {
    targets(
        kept(from, |m: MappingModel| !is_fed(to, m.target) && columns.dom().contains(m.target)),
    )
}

fn feeds(mapping: &Vec<Mapping>, column: &ColumnId) -> (r: bool)
    ensures
        r == is_fed(mapping.deep_view(), column@),
{
    let mut i: usize = 0;
    while i < mapping.len()
        invariant
            i <= mapping@.len(),
            forall|j: int| 0 <= j < i ==> (#[trigger] mapping.deep_view()[j]).target != column@,
        decreases mapping@.len() - i,
    {
        assert(mapping.deep_view()[i as int] == mapping@[i as int]@);
        if mapping[i].target.same(column) {
            return true;
        }
        i += 1;
    }
    false
}

fn find_staying(mapping: &Vec<Mapping>, columns: &OrderedMap<ColumnId, ColumnInfo>) -> (r: Vec<
    ColumnId,
>)
    ensures
        r.deep_view() == staying_targets(mapping.deep_view(), columns@),
{
    let ghost m = mapping.deep_view();
    let ghost keep = |m: MappingModel| columns@.dom().contains(m.target);
    let mut r: Vec<ColumnId> = Vec::new();
    let mut i: usize = 0;
    assert(m.take(0) =~= Seq::<MappingModel>::empty());
    assert(r.deep_view() =~= targets(kept(m.take(0), keep)));
    while i < mapping.len()
        invariant
            i <= mapping@.len(),
            m == mapping.deep_view(),
            keep == (|m: MappingModel| columns@.dom().contains(m.target)),
            r.deep_view() == targets(kept(m.take(i as int), keep)),
        decreases mapping@.len() - i,
    {
        let x = &mapping[i];
        let ghost had = kept(m.take(i as int), keep);
        proof {
            assert(m.take(i + 1).drop_last() =~= m.take(i as int));
            assert(m.take(i + 1).last() == x@);
        }
        if columns.contains_key(&x.target) {
            let ghost before = r.deep_view();
            r.push(x.target.dup());
            assert(r.deep_view() =~= before.push(x@.target));
            assert(targets(had.push(x@)) =~= targets(had).push(x@.target));
        }
        i += 1;
    }
    assert(m.take(m.len() as int) =~= m);
    r
}

fn find_broken(decl: &ResolverDeclaration, columns: &OrderedMap<ColumnId, ColumnInfo>) -> (r: Vec<
    Mapping,
>)
    ensures
        r.deep_view() == broken_mappings(decl@, columns@),
{
    let mapping = &decl.mapping;
    let ghost m = mapping.deep_view();
    let ghost keep = |m: MappingModel| mapping_is_broken(m, decl@.result_type, columns@);
    let mut r: Vec<Mapping> = Vec::new();
    let mut i: usize = 0;
    assert(m.take(0) =~= Seq::<MappingModel>::empty());
    assert(r.deep_view() =~= kept(m.take(0), keep));
    while i < mapping.len()
        invariant
            i <= mapping@.len(),
            m == mapping.deep_view(),
            keep == (|m: MappingModel| mapping_is_broken(m, decl@.result_type, columns@)),
            r.deep_view() == kept(m.take(i as int), keep),
        decreases mapping@.len() - i,
    {
        let x = &mapping[i];
        proof {
            assert(m.take(i + 1).drop_last() =~= m.take(i as int));
            assert(m.take(i + 1).last() == x@);
        }
        let broken = match find_field(&decl.result_type, &x.result_field) {
            None => true,
            Some(ty) => match columns.get(&x.target) {
                Some(info) => !ty.same_constructor(&info.ty),
                None => false,
            },
        };
        if broken {
            let ghost before = r.deep_view();
            r.push(x.dup());
            assert(r.deep_view() =~= before.push(x@));
        }
        i += 1;
    }
    assert(m.take(m.len() as int) =~= m);
    r
}

fn find_stale(from: &Vec<Mapping>, to: &Vec<Mapping>) -> (r: Vec<ColumnId>)
    ensures
        r.deep_view() == stale_targets(from.deep_view(), to.deep_view()),
{
    let ghost m = to.deep_view();
    let ghost keep = |m: MappingModel| !from.deep_view().contains(m);
    let mut r: Vec<ColumnId> = Vec::new();
    let mut i: usize = 0;
    assert(m.take(0) =~= Seq::<MappingModel>::empty());
    assert(r.deep_view() =~= targets(kept(m.take(0), keep)));
    while i < to.len()
        invariant
            i <= to@.len(),
            m == to.deep_view(),
            keep == (|m: MappingModel| !from.deep_view().contains(m)),
            r.deep_view() == targets(kept(m.take(i as int), keep)),
        decreases to@.len() - i,
    {
        let x = &to[i];
        let ghost had = kept(m.take(i as int), keep);
        proof {
            assert(m.take(i + 1).drop_last() =~= m.take(i as int));
            assert(m.take(i + 1).last() == x@);
        }
        if !contains_model(from, x) {
            let ghost before = r.deep_view();
            r.push(x.target.dup());
            assert(r.deep_view() =~= before.push(x@.target));
            assert(targets(had.push(x@)) =~= targets(had).push(x@.target));
        }
        i += 1;
    }
    assert(m.take(m.len() as int) =~= m);
    r
}

fn find_orphaned(
    from: &Vec<Mapping>,
    to: &Vec<Mapping>,
    columns: &OrderedMap<ColumnId, ColumnInfo>,
) -> (r: Vec<ColumnId>)
    ensures
        r.deep_view() == orphaned_targets(from.deep_view(), to.deep_view(), columns@),
{
    let ghost m = from.deep_view();
    let ghost keep = |m: MappingModel|
        !is_fed(to.deep_view(), m.target) && columns@.dom().contains(m.target);
    let mut r: Vec<ColumnId> = Vec::new();
    let mut i: usize = 0;
    assert(m.take(0) =~= Seq::<MappingModel>::empty());
    assert(r.deep_view() =~= targets(kept(m.take(0), keep)));
    while i < from.len()
        invariant
            i <= from@.len(),
            m == from.deep_view(),
            keep == (|m: MappingModel|
                !is_fed(to.deep_view(), m.target) && columns@.dom().contains(m.target)),
            r.deep_view() == targets(kept(m.take(i as int), keep)),
        decreases from@.len() - i,
    {
        let x = &from[i];
        let ghost had = kept(m.take(i as int), keep);
        proof {
            assert(m.take(i + 1).drop_last() =~= m.take(i as int));
            assert(m.take(i + 1).last() == x@);
        }
        if !feeds(to, &x.target) && columns.contains_key(&x.target) {
            let ghost before = r.deep_view();
            r.push(x.target.dup());
            assert(r.deep_view() =~= before.push(x@.target));
            assert(targets(had.push(x@)) =~= targets(had).push(x@.target));
        }
        i += 1;
    }
    assert(m.take(m.len() as int) =~= m);
    r
}

/// Declarations by anchor and id; of two the later counts.
pub open spec fn declarations(s: Seq<ResolverDeclarationModel>) -> Map<
    (Seq<char>, Seq<char>),
    ResolverDeclarationModel,
>
    decreases s.len(),
{
    if s.len() == 0 {
        Map::empty()
    } else {
        declarations(s.drop_last()).insert((s.last().anchor, s.last().id), s.last())
    }
}

fn by_id(resolvers: &Vec<ResolverDeclaration>) -> (r: OrderedMap<
    (GroupId, ResolverId),
    ResolverDeclaration,
>)
    ensures
        r@ == declarations(resolvers.deep_view()),
{
    let ghost m = resolvers.deep_view();
    let mut r: OrderedMap<(GroupId, ResolverId), ResolverDeclaration> = OrderedMap::new();
    let mut i: usize = 0;
    assert(m.take(0) =~= Seq::<ResolverDeclarationModel>::empty());
    while i < resolvers.len()
        invariant
            i <= resolvers@.len(),
            m == resolvers.deep_view(),
            r@ == declarations(m.take(i as int)),
        decreases resolvers@.len() - i,
    {
        let d = &resolvers[i];
        proof {
            assert(m.take(i + 1).drop_last() =~= m.take(i as int));
            assert(m.take(i + 1).last() == d@);
        }
        r.insert((d.anchor.dup(), d.id.dup()), d.dup());
        i += 1;
    }
    assert(m.take(m.len() as int) =~= m);
    r
}

/// One change, or none.
pub open spec fn if_changed(changed: bool, c: ResolverChangeModel) -> Seq<ResolverChangeModel> {
    if changed {
        seq![c]
    } else {
        Seq::empty()
    }
}

/// What happens to a declaration that the old revision has.
pub open spec fn declaration_changes(
    key: (Seq<char>, Seq<char>),
    from: ResolverDeclarationModel,
    to: Map<(Seq<char>, Seq<char>), ResolverDeclarationModel>,
    columns: Map<Seq<char>, ColumnInfoModel>,
) -> Seq<ResolverChangeModel> {
    let (anchor, id) = key;
    if !to.dom().contains(key) {
        seq![
            ResolverChangeModel::Removed {
                anchor,
                id,
                orphaned_columns: staying_targets(from.mapping, columns),
            },
        ]
    } else {
        let t = to[key];
        if_changed(
            t.result_type != from.result_type,
            ResolverChangeModel::ResultTypeChanged {
                anchor,
                id,
                broken_mappings: broken_mappings(t, columns),
            },
        ) + if_changed(
            t.mapping != from.mapping,
            ResolverChangeModel::MappingChanged {
                anchor,
                id,
                stale_columns: stale_targets(from.mapping, t.mapping),
                orphaned_columns: orphaned_targets(from.mapping, t.mapping, columns),
            },
        ) + if_changed(
            t.input != from.input,
            ResolverChangeModel::InputChanged { anchor, id },
        ) + if_changed(
            t.version != from.version,
            ResolverChangeModel::VersionChanged {
                anchor,
                id,
                from: from.version,
                to: t.version,
            },
        )
    }
}

fn push_declaration_changes(
    anchor: &GroupId,
    id: &ResolverId,
    from: &ResolverDeclaration,
    to: &OrderedMap<(GroupId, ResolverId), ResolverDeclaration>,
    columns: &OrderedMap<ColumnId, ColumnInfo>,
    out: &mut Vec<ResolverChange>,
)
    ensures
        final(out).deep_view() == old(out).deep_view() + declaration_changes(
            (anchor@, id@),
            from@,
            to@,
            columns@,
        ),
{
    let ghost start = out.deep_view();
    let key = (anchor.dup(), id.dup());
    let t = match to.get(&key) {
        Some(t) => t,
        None => {
            let orphaned_columns = find_staying(&from.mapping, columns);
            out.push(
                ResolverChange::Removed { anchor: anchor.dup(), id: id.dup(), orphaned_columns },
            );
            assert(out.deep_view() =~= start + declaration_changes(
                (anchor@, id@),
                from@,
                to@,
                columns@,
            ));
            return;
        },
    };
    let ghost mut added = Seq::<ResolverChangeModel>::empty();
    if !t.result_type.same(&from.result_type) {
        let broken_mappings = find_broken(t, columns);
        let change = ResolverChange::ResultTypeChanged {
            anchor: anchor.dup(),
            id: id.dup(),
            broken_mappings,
        };
        proof {
            added = added.push(change@);
        }
        out.push(change);
    }
    assert(out.deep_view() =~= start + added);
    if !t.mapping.same(&from.mapping) {
        let stale_columns = find_stale(&from.mapping, &t.mapping);
        let orphaned_columns = find_orphaned(&from.mapping, &t.mapping, columns);
        let change = ResolverChange::MappingChanged {
            anchor: anchor.dup(),
            id: id.dup(),
            stale_columns,
            orphaned_columns,
        };
        proof {
            added = added.push(change@);
        }
        out.push(change);
    }
    assert(out.deep_view() =~= start + added);
    if !t.input.same(&from.input) {
        let change = ResolverChange::InputChanged { anchor: anchor.dup(), id: id.dup() };
        proof {
            added = added.push(change@);
        }
        out.push(change);
    }
    assert(out.deep_view() =~= start + added);
    if t.version != from.version {
        let change = ResolverChange::VersionChanged {
            anchor: anchor.dup(),
            id: id.dup(),
            from: from.version,
            to: t.version,
        };
        proof {
            added = added.push(change@);
        }
        out.push(change);
    }
    assert(out.deep_view() =~= start + added);
    assert(added =~= declaration_changes((anchor@, id@), from@, to@, columns@));
}

/// What happens to some declarations of the old revision, in order.
pub open spec fn old_declaration_changes(
    keys: Seq<(Seq<char>, Seq<char>)>,
    from: Map<(Seq<char>, Seq<char>), ResolverDeclarationModel>,
    to: Map<(Seq<char>, Seq<char>), ResolverDeclarationModel>,
    columns: Map<Seq<char>, ColumnInfoModel>,
) -> Seq<ResolverChangeModel>
    decreases keys.len(),
{
    if keys.len() == 0 {
        Seq::empty()
    } else {
        old_declaration_changes(keys.drop_last(), from, to, columns) + declaration_changes(
            keys.last(),
            from[keys.last()],
            to,
            columns,
        )
    }
}

/// The declarations among some that the old revision does not have.
pub open spec fn new_declarations(
    keys: Seq<(Seq<char>, Seq<char>)>,
    from: Map<(Seq<char>, Seq<char>), ResolverDeclarationModel>,
) -> Seq<ResolverChangeModel>
    decreases keys.len(),
{
    if keys.len() == 0 {
        Seq::empty()
    } else {
        let rest = new_declarations(keys.drop_last(), from);
        let (anchor, id) = keys.last();
        if from.dom().contains(keys.last()) {
            rest
        } else {
            rest.push(ResolverChangeModel::Added { anchor, id })
        }
    }
}

/// What happens to the resolvers: first those of the old revision, then
/// the new ones.
pub open spec fn changes_of_resolvers(
    from: SchemaModel,
    to: SchemaModel,
    columns: Map<Seq<char>, ColumnInfoModel>,
) -> Seq<ResolverChangeModel> {
    let f = declarations(from.resolvers);
    let t = declarations(to.resolvers);
    old_declaration_changes(
        collections::key_order::<(GroupId, ResolverId)>(f.dom()),
        f,
        t,
        columns,
    ) + new_declarations(collections::key_order::<(GroupId, ResolverId)>(t.dom()), f)
}

pub fn resolver_changes(from: &Schema, to: &Schema, to_index: &SchemaIndex) -> (r: Vec<ResolverChange>)
    ensures
        r.deep_view() == changes_of_resolvers(from@, to@, to_index@.columns),
{
    let f = by_id(&from.resolvers);
    let t = by_id(&to.resolvers);
    let columns = &to_index.columns;
    let mut out: Vec<ResolverChange> = Vec::new();
    let n = f.len();
    let ghost keys = f.keys();
    let mut i: usize = 0;
    assert(keys.take(0) =~= Seq::<(Seq<char>, Seq<char>)>::empty());
    assert(out.deep_view() =~= Seq::<ResolverChangeModel>::empty());
    while i < n
        invariant
            i <= n == keys.len(),
            keys == f.keys(),
            out.deep_view() == old_declaration_changes(keys.take(i as int), f@, t@, columns@),
        decreases n - i,
    {
        proof {
            assert(keys.take(i + 1).drop_last() =~= keys.take(i as int));
        }
        let key = f.key_at(i);
        push_declaration_changes(&key.0, &key.1, f.value_at(i), &t, columns, &mut out);
        i += 1;
    }
    assert(keys.take(n as int) =~= keys);
    let ghost first = out.deep_view();
    let n = t.len();
    let ghost keys = t.keys();
    let mut i: usize = 0;
    assert(keys.take(0) =~= Seq::<(Seq<char>, Seq<char>)>::empty());
    assert(out.deep_view() =~= first + Seq::<ResolverChangeModel>::empty());
    while i < n
        invariant
            i <= n == keys.len(),
            keys == t.keys(),
            out.deep_view() == first + new_declarations(keys.take(i as int), f@),
        decreases n - i,
    {
        let ghost had = out.deep_view();
        let ghost so_far = new_declarations(keys.take(i as int), f@);
        proof {
            assert(keys.take(i + 1).drop_last() =~= keys.take(i as int));
        }
        let key = t.key_at(i);
        if !f.contains_key(key) {
            out.push(ResolverChange::Added { anchor: key.0.dup(), id: key.1.dup() });
            assert(out.deep_view() =~= had.push(
                ResolverChangeModel::Added { anchor: key.0@, id: key.1@ },
            ));
            assert(out.deep_view() =~= first + so_far.push(
                ResolverChangeModel::Added { anchor: key.0@, id: key.1@ },
            ));
        }
        i += 1;
    }
    assert(keys.take(n as int) =~= keys);
    out
}

/// The groups among some elements that come from a block, with it; of
/// two with one identity the later counts.
pub open spec fn blocks_among(s: Seq<PlacedModel>) -> Map<Seq<char>, BlockRefModel>
    decreases s.len(),
{
    if s.len() == 0 {
        Map::empty()
    } else {
        let rest = blocks_among(s.drop_last());
        match s.last().shell {
            ShellModel::Group(g) => match g.included_from {
                Some(b) => rest.insert(g.id, b),
                None => rest,
            },
            ShellModel::Column(_) => rest,
        }
    }
}

/// The groups of a schema that come from a block, with it.
pub fn included_blocks(schema: &Schema) -> (r: OrderedMap<GroupId, BlockRef>)
    ensures
        r@ == blocks_among(schema::schema_elements(schema@)),
{
    let elements = schema.elements();
    let ghost s = elements.deep_view();
    let mut r: OrderedMap<GroupId, BlockRef> = OrderedMap::new();
    let mut i: usize = 0;
    assert(s.take(0) =~= Seq::<PlacedModel>::empty());
    while i < elements.len()
        invariant
            i <= elements@.len(),
            s == elements.deep_view(),
            r@ == blocks_among(s.take(i as int)),
        decreases elements@.len() - i,
    {
        let e = &elements[i];
        proof {
            assert(s.take(i + 1).drop_last() =~= s.take(i as int));
            assert(s.take(i + 1).last() == e@);
        }
        if let Shell::Group(g) = &e.shell {
            if let Some(b) = &g.included_from {
                r.insert(g.id.dup(), b.dup());
            }
        }
        i += 1;
    }
    assert(s.take(s.len() as int) =~= s);
    r
}

/// What happens to a group that came from a block.
pub open spec fn block_change(
    group: Seq<char>,
    was: BlockRefModel,
    after: Map<Seq<char>, BlockRefModel>,
    groups: Map<Seq<char>, GroupInfoModel>,
) -> Seq<BlockChangeModel> {
    if after.dom().contains(group) {
        if after[group] == was {
            Seq::empty()
        } else {
            seq![BlockChangeModel::Bumped { group, from: was, to: after[group] }]
        }
    } else if groups.dom().contains(group) {
        seq![BlockChangeModel::Detached { group, was }]
    } else {
        seq![BlockChangeModel::Removed { group, block: was }]
    }
}

/// What happens to some groups that came from a block, in order.
pub open spec fn old_block_changes(
    keys: Seq<Seq<char>>,
    before: Map<Seq<char>, BlockRefModel>,
    after: Map<Seq<char>, BlockRefModel>,
    groups: Map<Seq<char>, GroupInfoModel>,
) -> Seq<BlockChangeModel>
    decreases keys.len(),
{
    if keys.len() == 0 {
        Seq::empty()
    } else {
        old_block_changes(keys.drop_last(), before, after, groups) + block_change(
            keys.last(),
            before[keys.last()],
            after,
            groups,
        )
    }
}

/// The groups among some that now come from a block and did not before.
pub open spec fn new_blocks(
    keys: Seq<Seq<char>>,
    before: Map<Seq<char>, BlockRefModel>,
    after: Map<Seq<char>, BlockRefModel>,
    groups: Map<Seq<char>, GroupInfoModel>,
) -> Seq<BlockChangeModel>
    decreases keys.len(),
{
    if keys.len() == 0 {
        Seq::empty()
    } else {
        let rest = new_blocks(keys.drop_last(), before, after, groups);
        let group = keys.last();
        if before.dom().contains(group) {
            rest
        } else if groups.dom().contains(group) {
            rest.push(BlockChangeModel::Attached { group, now: after[group] })
        } else {
            rest.push(BlockChangeModel::Included { group, block: after[group] })
        }
    }
}

/// What happens to the blocks: first what was included, then what is
/// new.
pub open spec fn changes_of_blocks(from: SchemaModel, to: SchemaModel) -> Seq<BlockChangeModel> {
    let before = blocks_among(schema::schema_elements(from));
    let after = blocks_among(schema::schema_elements(to));
    old_block_changes(
        collections::key_order::<GroupId>(before.dom()),
        before,
        after,
        conformance::schema_index(to).groups,
    ) + new_blocks(
        collections::key_order::<GroupId>(after.dom()),
        before,
        after,
        conformance::schema_index(from).groups,
    )
}

pub fn block_changes(
    from: &Schema,
    to: &Schema,
    from_index: &SchemaIndex,
    to_index: &SchemaIndex,
) -> (r: Vec<BlockChange>)
    requires
        from_index@ == conformance::schema_index(from@),
        to_index@ == conformance::schema_index(to@),
    ensures
        r.deep_view() == changes_of_blocks(from@, to@),
{
    let before = included_blocks(from);
    let after = included_blocks(to);
    let mut out: Vec<BlockChange> = Vec::new();
    let n = before.len();
    let ghost keys = before.keys();
    let mut i: usize = 0;
    assert(keys.take(0) =~= Seq::<Seq<char>>::empty());
    assert(out.deep_view() =~= Seq::<BlockChangeModel>::empty());
    while i < n
        invariant
            i <= n == keys.len(),
            keys == before.keys(),
            out.deep_view() == old_block_changes(
                keys.take(i as int),
                before@,
                after@,
                to_index@.groups,
            ),
        decreases n - i,
    {
        let ghost had = out.deep_view();
        proof {
            assert(keys.take(i + 1).drop_last() =~= keys.take(i as int));
        }
        let group = before.key_at(i);
        let was = before.value_at(i);
        match after.get(group) {
            Some(now) => {
                if !now.same(was) {
                    out.push(
                        BlockChange::Bumped { group: group.dup(), from: was.dup(), to: now.dup() },
                    );
                }
            },
            None => {
                if to_index.groups.contains_key(group) {
                    out.push(BlockChange::Detached { group: group.dup(), was: was.dup() });
                } else {
                    out.push(BlockChange::Removed { group: group.dup(), block: was.dup() });
                }
            },
        }
        assert(out.deep_view() =~= had + block_change(
            group@,
            was@,
            after@,
            to_index@.groups,
        ));
        i += 1;
    }
    assert(keys.take(n as int) =~= keys);
    let ghost first = out.deep_view();
    let n = after.len();
    let ghost keys = after.keys();
    let mut i: usize = 0;
    assert(keys.take(0) =~= Seq::<Seq<char>>::empty());
    assert(out.deep_view() =~= first + Seq::<BlockChangeModel>::empty());
    while i < n
        invariant
            i <= n == keys.len(),
            keys == after.keys(),
            out.deep_view() == first + new_blocks(
                keys.take(i as int),
                before@,
                after@,
                from_index@.groups,
            ),
        decreases n - i,
    {
        proof {
            assert(keys.take(i + 1).drop_last() =~= keys.take(i as int));
        }
        let group = after.key_at(i);
        let now = after.value_at(i);
        let ghost had = out.deep_view();
        if !before.contains_key(group) {
            if from_index.groups.contains_key(group) {
                out.push(BlockChange::Attached { group: group.dup(), now: now.dup() });
                assert(out.deep_view() =~= had.push(
                    BlockChangeModel::Attached { group: group@, now: now@ },
                ));
            } else {
                out.push(BlockChange::Included { group: group.dup(), block: now.dup() });
                assert(out.deep_view() =~= had.push(
                    BlockChangeModel::Included { group: group@, block: now@ },
                ));
            }
        }
        assert(out.deep_view() =~= first + new_blocks(
            keys.take(i + 1),
            before@,
            after@,
            from_index@.groups,
        ));
        i += 1;
    }
    assert(keys.take(n as int) =~= keys);
    out
}

/// What an error of the new revision says of a rule.
pub open spec fn break_kind(
    e: TypeErrorModel,
    from: Map<Seq<char>, ColumnInfoModel>,
) -> BreakKindModel {
    match e {
        TypeErrorModel::UnknownColumn(c) => if from.dom().contains(c) {
            BreakKindModel::SourceRemoved(c)
        } else {
            BreakKindModel::Other(e)
        },
        TypeErrorModel::AtomNotAllowed(c) => BreakKindModel::SourceRetyped(c),
        TypeErrorModel::TypeMismatch(c) => BreakKindModel::SourceRetyped(c),
        TypeErrorModel::UnitMismatch(c) => BreakKindModel::SourceRetyped(c),
        TypeErrorModel::ScopeViolation(c) => BreakKindModel::SourceRetyped(c),
        TypeErrorModel::UnknownOption(c, o) => BreakKindModel::OptionRemoved(c, o),
        TypeErrorModel::UnknownField(c, f) => BreakKindModel::FieldRemoved(c, f),
        TypeErrorModel::NoResolverAnchored(g) => BreakKindModel::ResolverRemoved(g),
        _ => BreakKindModel::Other(e),
    }
}

fn kind_of(e: TypeError, from: &SchemaIndex) -> (r: BreakKind)
    ensures
        r@ == break_kind(e@, from@.columns),
{
    match e {
        TypeError::UnknownColumn(c) => {
            if from.columns.contains_key(&c) {
                BreakKind::SourceRemoved(c)
            } else {
                BreakKind::Other(TypeError::UnknownColumn(c))
            }
        },
        TypeError::AtomNotAllowed(c) => BreakKind::SourceRetyped(c),
        TypeError::TypeMismatch(c) => BreakKind::SourceRetyped(c),
        TypeError::UnitMismatch(c) => BreakKind::SourceRetyped(c),
        TypeError::ScopeViolation(c) => BreakKind::SourceRetyped(c),
        TypeError::UnknownOption(c, o) => BreakKind::OptionRemoved(c, o),
        TypeError::UnknownField(c, f) => BreakKind::FieldRemoved(c, f),
        TypeError::NoResolverAnchored(g) => BreakKind::ResolverRemoved(g),
        TypeError::ColumnComparisonNotEnabled => BreakKind::Other(
            TypeError::ColumnComparisonNotEnabled,
        ),
        TypeError::UnknownNomenclature(c) => BreakKind::Other(TypeError::UnknownNomenclature(c)),
        TypeError::TooDeep(n) => BreakKind::Other(TypeError::TooDeep(n)),
    }
}

/// The rules among some that the new revision refuses.
pub open spec fn rules_broken(
    rules: Seq<RuleRefModel>,
    from: SchemaModel,
    to: SchemaModel,
    noms: Map<(Seq<char>, u32), Seq<OptionRowModel>>,
) -> Seq<BrokenRuleModel>
    decreases rules.len(),
{
    if rules.len() == 0 {
        Seq::empty()
    } else {
        let rest = rules_broken(rules.drop_last(), from, to, noms);
        let rule = rules.last();
        let errors = typecheck::rule_errors(rule.expr, to, noms, rule.scope);
        if errors.len() == 0 {
            rest
        } else {
            rest.push(
                BrokenRuleModel {
                    name: rule.name,
                    kinds: Seq::new(
                        errors.len(),
                        |i: int| break_kind(errors[i], conformance::schema_index(from).columns),
                    ),
                    already_broken: typecheck::rule_errors(rule.expr, from, noms, rule.scope).len() != 0,
                },
            )
        }
    }
}

fn kinds_of(errors: Vec<TypeError>, from: &SchemaIndex) -> (r: Vec<BreakKind>)
    ensures
        r.deep_view() == Seq::new(
            errors.deep_view().len(),
            |i: int| break_kind(errors.deep_view()[i], from@.columns),
        ),
{
    let ghost m = errors.deep_view();
    let mut r: Vec<BreakKind> = Vec::new();
    let mut i: usize = 0;
    while i < errors.len()
        invariant
            i <= errors@.len(),
            m == errors.deep_view(),
            r@.len() == i,
            forall|j: int|
                0 <= j < i ==> (#[trigger] r@[j])@ == break_kind(m[j], from@.columns),
        decreases errors@.len() - i,
    {
        assert(m[i as int] == errors@[i as int]@);
        r.push(kind_of(errors[i].dup(), from));
        i += 1;
    }
    assert(r.deep_view() =~= Seq::new(m.len(), |i: int| break_kind(m[i], from@.columns)));
    r
}

/// Which rules the transition breaks: those that the new revision
/// refuses, with the reasons.
pub fn broken_rules(
    rules: &[RuleRef],
    from: &Schema,
    to: &Schema,
    nomenclatures: &NomenclatureTable,
) -> (r: Vec<BrokenRule>)
    ensures
        r.deep_view() == rules_broken(order::models(rules@), from@, to@, nomenclatures@),
{
    let from_index = SchemaIndex::build(from);
    let ghost m = order::models(rules@);
    let mut out: Vec<BrokenRule> = Vec::new();
    let mut i: usize = 0;
    assert(m.take(0) =~= Seq::<RuleRefModel>::empty());
    assert(out.deep_view() =~= Seq::<BrokenRuleModel>::empty());
    while i < rules.len()
        invariant
            i <= rules@.len(),
            m == order::models(rules@),
            from_index@ == conformance::schema_index(from@),
            out.deep_view() == rules_broken(m.take(i as int), from@, to@, nomenclatures@),
        decreases rules@.len() - i,
    {
        let rule = &rules[i];
        proof {
            assert(m.take(i + 1).drop_last() =~= m.take(i as int));
            assert(m.take(i + 1).last() == rule@);
            assert(order::models(rule.scope@) =~= rule@.scope);
        }
        let errors = typecheck(&rule.expr, to, nomenclatures, rule.scope.as_slice());
        assert(errors.deep_view().len() == errors@.len());
        if errors.len() > 0 {
            let was = typecheck(&rule.expr, from, nomenclatures, rule.scope.as_slice());
            let already_broken = was.len() > 0;
            let ghost had = out.deep_view();
            assert(was.deep_view().len() == was@.len());
            let kinds = kinds_of(errors, &from_index);
            let broken = BrokenRule { name: rule.name.dup(), kinds, already_broken };
            let ghost bm = broken@;
            out.push(broken);
            assert(out.deep_view() =~= had.push(bm));
        }
        i += 1;
    }
    assert(m.take(m.len() as int) =~= m);
    out
}

} // verus!
