//! The impact report: the static classification of a transition between
//! two revisions, the rules that it breaks, and what becomes of the
//! records at hand.

use vstd::prelude::*;
use crate::cast;
use crate::collections;
use crate::conformance;
use crate::impact;
use crate::order;
use crate::projection;
use crate::schema;
use crate::cast::{CastError, CastErrorModel, NomenclatureTable};
use crate::collections::{OrderedMap, OrderedSet};
use crate::conformance::{ColumnInfoModel, GroupInfoModel, SchemaIndex};
use crate::ids::{ColumnId, GroupId, ResolverId};
use crate::impact::{
    BlockChange, BlockChangeModel, BrokenRule, BrokenRuleModel, ChangeClass, ColumnChange,
    ColumnImpact, ColumnImpactModel, ResolverChange, ResolverChangeModel, RuleRef, RuleRefModel,
    add_new, block_changes, broken_rules, impacts_of, resolver_changes,
};
use crate::order::{Key, Modeled};
use crate::projection::{ColumnReport, ProjectionReport, ProjectionReportModel, project};
use crate::schema::{
    Arity, BlockRefModel, OptionRowModel, PlacedModel, ResolverDeclarationModel, ScalarTypeModel,
    Schema, SchemaModel,
};
use crate::value::{
    CellAddr, CellAddrModel, CellState, CellStateModel, CellValueModel, RecordValues,
    RecordValuesModel, ScalarModel,
};

verus! {

/// What became of a set of records.
#[derive(Clone, Debug, PartialEq, Eq)]
pub struct RecordAssessment {
    pub records: u64,
    pub records_with_failures: u64,
    pub records_with_loss: u64,
    pub cells_failed: u64,
    pub cells_lossy: u64,
    pub failed_by_column: OrderedMap<ColumnId, u64>,
    /// Records with cells in a column that has no cast or moved: these
    /// cells have nowhere to go.
    pub records_with_uncastable: u64,
    pub uncastable_by_column: OrderedMap<ColumnId, u64>,
    /// Records that wait for a resolver that the new revision removes.
    pub pending_on_removed_resolvers: OrderedMap<(GroupId, ResolverId), u64>,
}

/// The model of [`RecordAssessment`].
#[verifier::ext_equal]
pub struct RecordAssessmentModel {
    pub records: u64,
    pub records_with_failures: u64,
    pub records_with_loss: u64,
    pub cells_failed: u64,
    pub cells_lossy: u64,
    pub failed_by_column: Map<Seq<char>, u64>,
    pub records_with_uncastable: u64,
    pub uncastable_by_column: Map<Seq<char>, u64>,
    pub pending_on_removed_resolvers: Map<(Seq<char>, Seq<char>), u64>,
}

impl DeepView for RecordAssessment {
    type V = RecordAssessmentModel;

    open spec fn deep_view(&self) -> RecordAssessmentModel {
        RecordAssessmentModel {
            records: self.records,
            records_with_failures: self.records_with_failures,
            records_with_loss: self.records_with_loss,
            cells_failed: self.cells_failed,
            cells_lossy: self.cells_lossy,
            failed_by_column: self.failed_by_column.deep_view(),
            records_with_uncastable: self.records_with_uncastable,
            uncastable_by_column: self.uncastable_by_column.deep_view(),
            pending_on_removed_resolvers: self.pending_on_removed_resolvers.deep_view(),
        }
    }
}

impl View for RecordAssessment {
    type V = RecordAssessmentModel;

    open spec fn view(&self) -> RecordAssessmentModel {
        self.deep_view()
    }
}

impl Modeled for RecordAssessment {
    fn dup(&self) -> (r: Self) {
        RecordAssessment {
            records: self.records,
            records_with_failures: self.records_with_failures,
            records_with_loss: self.records_with_loss,
            cells_failed: self.cells_failed,
            cells_lossy: self.cells_lossy,
            failed_by_column: self.failed_by_column.dup(),
            records_with_uncastable: self.records_with_uncastable,
            uncastable_by_column: self.uncastable_by_column.dup(),
            pending_on_removed_resolvers: self.pending_on_removed_resolvers.dup(),
        }
    }

    fn same(&self, other: &Self) -> (b: bool) {
        self.records == other.records
            && self.records_with_failures == other.records_with_failures
            && self.records_with_loss == other.records_with_loss
            && self.cells_failed == other.cells_failed
            && self.cells_lossy == other.cells_lossy
            && self.failed_by_column.same(&other.failed_by_column)
            && self.records_with_uncastable == other.records_with_uncastable
            && self.uncastable_by_column.same(&other.uncastable_by_column)
            && self.pending_on_removed_resolvers.same(&other.pending_on_removed_resolvers)
    }
}

/// What publishing a revision does.
#[derive(Clone, Debug, PartialEq, Eq)]
pub struct ImpactReport {
    pub columns: OrderedMap<ColumnId, ColumnImpact>,
    pub resolvers: Vec<ResolverChange>,
    pub blocks: Vec<BlockChange>,
    pub rules: Vec<BrokenRule>,
    /// There where records were assessed.
    pub records: Option<RecordAssessment>,
}

/// The model of [`ImpactReport`].
#[verifier::ext_equal]
pub struct ImpactReportModel {
    pub columns: Map<Seq<char>, ColumnImpactModel>,
    pub resolvers: Seq<ResolverChangeModel>,
    pub blocks: Seq<BlockChangeModel>,
    pub rules: Seq<BrokenRuleModel>,
    pub records: Option<RecordAssessmentModel>,
}

impl DeepView for ImpactReport {
    type V = ImpactReportModel;

    open spec fn deep_view(&self) -> ImpactReportModel {
        ImpactReportModel {
            columns: self.columns.deep_view(),
            resolvers: self.resolvers.deep_view(),
            blocks: self.blocks.deep_view(),
            rules: self.rules.deep_view(),
            records: self.records.deep_view(),
        }
    }
}

impl View for ImpactReport {
    type V = ImpactReportModel;

    open spec fn view(&self) -> ImpactReportModel {
        self.deep_view()
    }
}

impl Modeled for ImpactReport {
    fn dup(&self) -> (r: Self) {
        ImpactReport {
            columns: self.columns.dup(),
            resolvers: self.resolvers.dup(),
            blocks: self.blocks.dup(),
            rules: self.rules.dup(),
            records: self.records.dup(),
        }
    }

    fn same(&self, other: &Self) -> (b: bool) {
        self.columns.same(&other.columns)
            && self.resolvers.same(&other.resolvers)
            && self.blocks.same(&other.blocks)
            && self.rules.same(&other.rules)
            && self.records.same(&other.records)
    }
}

/// The worst class among some columns.
pub open spec fn worst_class(
    keys: Seq<Seq<char>>,
    columns: Map<Seq<char>, ColumnImpactModel>,
) -> ChangeClass
    decreases keys.len(),
{
    if keys.len() == 0 {
        ChangeClass::Safe
    } else {
        worst_class(keys.drop_last(), columns).spec_worse(columns[keys.last()].class)
    }
}

impl ImpactReportModel {
    /// Whether some rule is broken that was not before.
    pub open spec fn breaks_rules(self) -> bool {
        exists|i: int| 0 <= i < self.rules.len() && !(#[trigger] self.rules[i]).already_broken
    }

    /// The worst class of any column; a rule that the transition breaks
    /// makes it breaking.
    pub open spec fn worst(self) -> ChangeClass {
        if self.breaks_rules() {
            ChangeClass::Breaking
        } else {
            worst_class(collections::key_order::<ColumnId>(self.columns.dom()), self.columns)
        }
    }
}

impl ImpactReport {
    /// The one-line verdict.
    pub fn worst(&self) -> (r: ChangeClass)
        ensures
            r == self@.worst(),
    {
        let mut i: usize = 0;
        while i < self.rules.len()
            invariant
                i <= self.rules@.len(),
                forall|j: int| 0 <= j < i ==> (#[trigger] self@.rules[j]).already_broken,
            decreases self.rules@.len() - i,
        {
            assert(self@.rules[i as int] == self.rules@[i as int]@);
            if !self.rules[i].already_broken {
                return ChangeClass::Breaking;
            }
            i += 1;
        }
        let n = self.columns.len();
        let ghost keys = self.columns.keys();
        let mut worst = ChangeClass::Safe;
        let mut i: usize = 0;
        assert(keys.take(0) =~= Seq::<Seq<char>>::empty());
        while i < n
            invariant
                i <= n == keys.len(),
                keys == self.columns.keys(),
                worst == worst_class(keys.take(i as int), self@.columns),
            decreases n - i,
        {
            proof {
                assert(keys.take(i + 1).drop_last() =~= keys.take(i as int));
            }
            worst = worst.worse(self.columns.value_at(i).class);
            i += 1;
        }
        assert(keys.take(n as int) =~= keys);
        worst
    }
}

/// The static classification of a transition.
pub open spec fn classified(
    from: SchemaModel,
    to: SchemaModel,
    noms: Map<(Seq<char>, u32), Seq<OptionRowModel>>,
) -> Result<ImpactReportModel, CastErrorModel> {
    let f = conformance::schema_index(from);
    let t = conformance::schema_index(to);
    match impact::column_impacts(collections::key_order::<ColumnId>(f.columns.dom()), f.columns, t.columns, noms) {
        Err(e) => Err(e),
        Ok(m) => Ok(
            ImpactReportModel {
                columns: m.union_prefer_right(impact::added_columns(f.columns, t.columns)),
                resolvers: impact::changes_of_resolvers(from, to, t.columns),
                blocks: impact::changes_of_blocks(from, to),
                rules: Seq::empty(),
                records: None,
            },
        ),
    }
}

/// The static classification of the transition between two revisions.
pub fn classify(from: &Schema, to: &Schema, nomenclatures: &NomenclatureTable) -> (r: Result<
    ImpactReport,
    CastError,
>)
    ensures
        order::result_model(r) == classified(from@, to@, nomenclatures@),
{
    let from_index = SchemaIndex::build(from);
    let to_index = SchemaIndex::build(to);
    let mut columns = match impacts_of(&from_index, &to_index, nomenclatures) {
        Ok(m) => m,
        Err(e) => {
            return Err(e);
        },
    };
    let n = from_index.columns.len();
    proof {
        impact::impacts_cover(
            from_index.columns.keys(),
            from_index@.columns,
            to_index@.columns,
            nomenclatures@,
        );
        assert(columns@.dom() =~= from_index@.columns.dom());
    }
    add_new(&from_index, &to_index, &mut columns);
    let resolvers = resolver_changes(from, to, &to_index);
    let blocks = block_changes(from, to, &from_index, &to_index);
    let r = ImpactReport { columns, resolvers, blocks, rules: Vec::new(), records: None };
    assert(r@.rules =~= Seq::<BrokenRuleModel>::empty());
    Ok(r)
}

/// The classification with the rules that the transition breaks.
pub open spec fn classified_with_rules(
    from: SchemaModel,
    to: SchemaModel,
    noms: Map<(Seq<char>, u32), Seq<OptionRowModel>>,
    rules: Seq<RuleRefModel>,
) -> Result<ImpactReportModel, CastErrorModel> {
    match classified(from, to, noms) {
        Err(e) => Err(e),
        Ok(report) => Ok(
            ImpactReportModel { rules: impact::rules_broken(rules, from, to, noms), ..report },
        ),
    }
}

/// [`classify`], with the rules that the transition breaks.
pub fn classify_with_rules(
    from: &Schema,
    to: &Schema,
    nomenclatures: &NomenclatureTable,
    rules: &[RuleRef],
) -> (r: Result<ImpactReport, CastError>)
    ensures
        order::result_model(r) == classified_with_rules(from@, to@, nomenclatures@, order::models(rules@)),
{
    match classify(from, to, nomenclatures) {
        Err(e) => Err(e),
        Ok(report) => Ok(
            ImpactReport {
                columns: report.columns,
                resolvers: report.resolvers,
                blocks: report.blocks,
                rules: broken_rules(rules, from, to, nomenclatures),
                records: report.records,
            },
        ),
    }
}

/// A record to be assessed: its values, and the resolvers that it waits
/// for, each with its anchor.
pub struct RecordUnderAssessment<'a> {
    pub values: &'a RecordValues,
    pub pending: &'a OrderedSet<(GroupId, ResolverId)>,
}

/// The model of [`RecordUnderAssessment`].
#[verifier::ext_equal]
pub struct RecordUnderAssessmentModel {
    pub values: RecordValuesModel,
    pub pending: Set<(Seq<char>, Seq<char>)>,
}

impl<'a> DeepView for RecordUnderAssessment<'a> {
    type V = RecordUnderAssessmentModel;

    open spec fn deep_view(&self) -> RecordUnderAssessmentModel {
        RecordUnderAssessmentModel { values: self.values@, pending: self.pending@ }
    }
}

/// What a tally holds under a key.
pub open spec fn tallied<K>(m: Map<K, u64>, k: K) -> u64 {
    if m.dom().contains(k) {
        m[k]
    } else {
        0
    }
}

/// A tally with `n` more under a key.
pub open spec fn tally<K>(m: Map<K, u64>, k: K, n: u64) -> Map<K, u64> {
    m.insert(k, (tallied(m, k) + n) as u64)
}

/// A tally of the cells among some that stand in certain columns.
pub open spec fn tally_cells(
    m: Map<Seq<char>, u64>,
    keys: Seq<CellAddrModel>,
    columns: Set<Seq<char>>,
) -> Map<Seq<char>, u64>
    decreases keys.len(),
{
    if keys.len() == 0 {
        m
    } else {
        let rest = tally_cells(m, keys.drop_last(), columns);
        if columns.contains(keys.last().column) {
            tally(rest, keys.last().column, 1)
        } else {
            rest
        }
    }
}

/// A tally of some resolvers.
pub open spec fn tally_each(
    m: Map<(Seq<char>, Seq<char>), u64>,
    keys: Seq<(Seq<char>, Seq<char>)>,
    removed: Set<(Seq<char>, Seq<char>)>,
) -> Map<(Seq<char>, Seq<char>), u64>
    decreases keys.len(),
{
    if keys.len() == 0 {
        m
    } else {
        let rest = tally_each(m, keys.drop_last(), removed);
        if removed.contains(keys.last()) {
            tally(rest, keys.last(), 1)
        } else {
            rest
        }
    }
}

/// A tally of the failed cells of some columns.
pub open spec fn tally_failed(
    m: Map<Seq<char>, u64>,
    keys: Seq<Seq<char>>,
    columns: Map<Seq<char>, ColumnReport>,
) -> Map<Seq<char>, u64>
    decreases keys.len(),
{
    if keys.len() == 0 {
        m
    } else {
        let rest = tally_failed(m, keys.drop_last(), columns);
        let failed = columns[keys.last()].cells_failed;
        if failed > 0 {
            tally(rest, keys.last(), failed)
        } else {
            rest
        }
    }
}

/// Whether a record has a cell in one of certain columns.
pub open spec fn has_cell_in(
    cells: Map<CellAddrModel, CellStateModel>,
    columns: Set<Seq<char>>,
) -> bool {
    exists|a: CellAddrModel| #[trigger] cells.dom().contains(a) && columns.contains(a.column)
}

/// A condition as a number.
pub open spec fn one_if(b: bool) -> nat {
    if b {
        1
    } else {
        0
    }
}

/// An assessment with one more record.
pub open spec fn with_record(
    a: RecordAssessmentModel,
    r: RecordUnderAssessmentModel,
    report: ProjectionReportModel,
    uncastable: Set<Seq<char>>,
    removed: Set<(Seq<char>, Seq<char>)>,
) -> RecordAssessmentModel {
    let failed = report.total_failed();
    let lossy = report.total_lossy();
    RecordAssessmentModel {
        records: (a.records + 1) as u64,
        records_with_failures: (a.records_with_failures + one_if(failed > 0)) as u64,
        records_with_loss: (a.records_with_loss + one_if(lossy > 0)) as u64,
        cells_failed: (a.cells_failed + failed) as u64,
        cells_lossy: (a.cells_lossy + lossy) as u64,
        failed_by_column: tally_failed(
            a.failed_by_column,
            collections::key_order::<ColumnId>(report.columns.dom()),
            report.columns,
        ),
        records_with_uncastable: (a.records_with_uncastable + one_if(
            has_cell_in(r.values.cells, uncastable),
        )) as u64,
        uncastable_by_column: tally_cells(
            a.uncastable_by_column,
            collections::key_order::<CellAddr>(r.values.cells.dom()),
            uncastable,
        ),
        pending_on_removed_resolvers: tally_each(
            a.pending_on_removed_resolvers,
            collections::key_order::<(GroupId, ResolverId)>(r.pending),
            removed,
        ),
    }
}

/// The assessment of no records.
pub open spec fn no_records() -> RecordAssessmentModel {
    RecordAssessmentModel {
        records: 0,
        records_with_failures: 0,
        records_with_loss: 0,
        cells_failed: 0,
        cells_lossy: 0,
        failed_by_column: Map::empty(),
        records_with_uncastable: 0,
        uncastable_by_column: Map::empty(),
        pending_on_removed_resolvers: Map::empty(),
    }
}

/// The assessment of some records, each projected into the new revision.
pub open spec fn assessment(
    records: Seq<RecordUnderAssessmentModel>,
    from: SchemaModel,
    to: SchemaModel,
    noms: Map<(Seq<char>, u32), Seq<OptionRowModel>>,
    uncastable: Set<Seq<char>>,
    removed: Set<(Seq<char>, Seq<char>)>,
) -> Result<RecordAssessmentModel, CastErrorModel>
    decreases records.len(),
{
    if records.len() == 0 {
        Ok(no_records())
    } else {
        match assessment(records.drop_last(), from, to, noms, uncastable, removed) {
            Err(e) => Err(e),
            Ok(a) => match projection::projection(records.last().values, from, to, noms) {
                Err(e) => Err(e),
                Ok(p) => Ok(with_record(a, records.last(), p.report, uncastable, removed)),
            },
        }
    }
}

/// The columns whose cells have nowhere to go.
pub open spec fn uncastable_columns(columns: Map<Seq<char>, ColumnImpactModel>) -> Set<Seq<char>> {
    Set::new(
        |c: Seq<char>|
            columns.dom().contains(c) && (columns[c].change == ColumnChange::Forbidden
                || columns[c].change == ColumnChange::ScopeMoved),
    )
}

/// The resolvers that are removed.
pub open spec fn removed_resolvers(s: Seq<ResolverChangeModel>) -> Set<(Seq<char>, Seq<char>)>
    decreases s.len(),
{
    if s.len() == 0 {
        Set::empty()
    } else {
        let rest = removed_resolvers(s.drop_last());
        match s.last() {
            ResolverChangeModel::Removed { anchor, id, .. } => rest.insert((anchor, id)),
            _ => rest,
        }
    }
}

/// How many cells some records hold.
pub open spec fn cells_held(records: Seq<RecordUnderAssessmentModel>) -> nat
    decreases records.len(),
{
    if records.len() == 0 {
        0
    } else {
        cells_held(records.drop_last()) + collections::key_order::<CellAddr>(
            records.last().values.cells.dom(),
        ).len()
    }
}

/// The full report on a transition and some records.
pub open spec fn assessed(
    from: SchemaModel,
    to: SchemaModel,
    noms: Map<(Seq<char>, u32), Seq<OptionRowModel>>,
    rules: Seq<RuleRefModel>,
    records: Seq<RecordUnderAssessmentModel>,
) -> Result<ImpactReportModel, CastErrorModel> {
    match classified_with_rules(from, to, noms, rules) {
        Err(e) => Err(e),
        Ok(report) => match assessment(
            records,
            from,
            to,
            noms,
            uncastable_columns(report.columns),
            removed_resolvers(report.resolvers),
        ) {
            Err(e) => Err(e),
            Ok(a) => Ok(ImpactReportModel { records: Some(a), ..report }),
        },
    }
}

fn find_uncastable(columns: &OrderedMap<ColumnId, ColumnImpact>) -> (r: OrderedSet<ColumnId>)
    ensures
        r@ == uncastable_columns(columns@),
{
    let n = columns.len();
    let ghost keys = columns.keys();
    let ghost all = uncastable_columns(columns@);
    let mut r: OrderedSet<ColumnId> = OrderedSet::new();
    let mut i: usize = 0;
    while i < n
        invariant
            i <= n == keys.len(),
            keys == columns.keys(),
            collections::lists::<ColumnId>(keys, columns@.dom()),
            all == uncastable_columns(columns@),
            forall|c: Seq<char>| #[trigger]
                r@.contains(c) <==> all.contains(c) && keys.take(i as int).contains(c),
        decreases n - i,
    {
        let ghost before = keys.take(i as int);
        let ghost after = keys.take(i + 1);
        proof {
            assert(after[i as int] == keys[i as int]);
            assert(keys.contains(keys[i as int]));
            assert forall|c: Seq<char>| after.contains(c) <==> before.contains(c) || c
                == keys[i as int] by {
                if after.contains(c) {
                    let k = after.index_of(c);
                    if k < i {
                        assert(before[k] == c);
                    }
                }
                if before.contains(c) {
                    let k = before.index_of(c);
                    assert(after[k] == c);
                }
            }
        }
        let hit = match columns.value_at(i).change {
            ColumnChange::Forbidden => true,
            ColumnChange::ScopeMoved => true,
            _ => false,
        };
        if hit {
            r.insert(columns.key_at(i).dup());
        }
        i += 1;
    }
    proof {
        assert(keys.take(n as int) =~= keys);
        assert forall|c: Seq<char>| all.contains(c) implies keys.contains(c) by {}
        assert(r@ =~= all);
    }
    r
}

fn find_removed(changes: &Vec<ResolverChange>) -> (r: OrderedSet<(GroupId, ResolverId)>)
    ensures
        r@ == removed_resolvers(changes.deep_view()),
{
    let ghost m = changes.deep_view();
    let mut r: OrderedSet<(GroupId, ResolverId)> = OrderedSet::new();
    let mut i: usize = 0;
    assert(m.take(0) =~= Seq::<ResolverChangeModel>::empty());
    while i < changes.len()
        invariant
            i <= changes@.len(),
            m == changes.deep_view(),
            r@ == removed_resolvers(m.take(i as int)),
        decreases changes@.len() - i,
    {
        let c = &changes[i];
        proof {
            assert(m.take(i + 1).drop_last() =~= m.take(i as int));
            assert(m.take(i + 1).last() == c@);
        }
        if let ResolverChange::Removed { anchor, id, .. } = c {
            r.insert((anchor.dup(), id.dup()));
        }
        i += 1;
    }
    assert(m.take(m.len() as int) =~= m);
    r
}

/// No tally is above `n`.
spec fn stays_below<K>(m: Map<K, u64>, n: nat) -> bool {
    forall|k: K| #[trigger] tallied(m, k) <= n
}

fn add_to<K: Key>(m: &mut OrderedMap<K, u64>, k: K, n: u64)
    requires
        tallied(old(m)@, k.deep_view()) + n <= u64::MAX,
    ensures
        final(m)@ == tally(old(m)@, k.deep_view(), n),
{
    let had = match m.get(&k) {
        Some(x) => *x,
        None => 0,
    };
    m.insert(k, had + n);
}

proof fn tally_grows<K>(m: Map<K, u64>, k: K, n: u64)
    requires
        tallied(m, k) + n <= u64::MAX,
    ensures
        forall|q: K| #[trigger]
            tallied(tally(m, k, n), q) == tallied(m, q) + (if q == k {
                n as int
            } else {
                0
            }),
{
}

fn count_cells(
    tally_of: &mut OrderedMap<ColumnId, u64>,
    cells: &OrderedMap<CellAddr, CellState>,
    columns: &OrderedSet<ColumnId>,
    Ghost(held): Ghost<nat>,
) -> (hit: bool)
    requires
        stays_below(old(tally_of)@, held),
        held + collections::key_order::<CellAddr>(cells@.dom()).len() <= u64::MAX,
    ensures
        final(tally_of)@ == tally_cells(
            old(tally_of)@,
            collections::key_order::<CellAddr>(cells@.dom()),
            columns@,
        ),
        stays_below(final(tally_of)@, held + collections::key_order::<CellAddr>(cells@.dom()).len()),
        hit == has_cell_in(cells@, columns@),
{
    let n = cells.len();
    let ghost keys = cells.keys();
    let ghost start = tally_of@;
    let mut hit = false;
    let mut i: usize = 0;
    assert(keys.take(0) =~= Seq::<CellAddrModel>::empty());
    while i < n
        invariant
            i <= n == keys.len(),
            keys == cells.keys(),
            collections::lists::<CellAddr>(keys, cells@.dom()),
            held + n <= u64::MAX,
            start == old(tally_of)@,
            tally_of@ == tally_cells(start, keys.take(i as int), columns@),
            stays_below(tally_of@, held + i as nat),
            hit ==> has_cell_in(cells@, columns@),
            !hit ==> forall|j: int| 0 <= j < i ==> !columns@.contains((#[trigger] keys[j]).column),
        decreases n - i,
    {
        proof {
            assert(keys.take(i + 1).drop_last() =~= keys.take(i as int));
            assert(keys.contains(keys[i as int]));
        }
        let column = &cells.key_at(i).column;
        if columns.contains(column) {
            proof {
                assert(tallied(tally_of@, column@) <= held + i);
                tally_grows(tally_of@, column@, 1);
            }
            add_to(tally_of, column.dup(), 1);
            hit = true;
        }
        assert forall|q: Seq<char>| #[trigger] tallied(tally_of@, q) <= held + i + 1 by {}
        i += 1;
    }
    proof {
        assert(keys.take(n as int) =~= keys);
        if !hit {
            assert forall|a: CellAddrModel| #[trigger]
                cells@.dom().contains(a) implies !columns@.contains(a.column) by {
                assert(keys.contains(a));
                let j = keys.index_of(a);
                assert(keys[j] == a);
            }
        }
    }
    hit
}

fn count_pending(
    tally_of: &mut OrderedMap<(GroupId, ResolverId), u64>,
    pending: &OrderedSet<(GroupId, ResolverId)>,
    removed: &OrderedSet<(GroupId, ResolverId)>,
    Ghost(seen): Ghost<nat>,
)
    requires
        stays_below(old(tally_of)@, seen),
        seen + 1 <= u64::MAX,
    ensures
        final(tally_of)@ == tally_each(
            old(tally_of)@,
            collections::key_order::<(GroupId, ResolverId)>(pending@),
            removed@,
        ),
        stays_below(final(tally_of)@, seen + 1),
{
    let n = pending.len();
    let ghost keys = pending.items();
    let ghost start = tally_of@;
    let mut i: usize = 0;
    assert(keys.take(0) =~= Seq::<(Seq<char>, Seq<char>)>::empty());
    while i < n
        invariant
            i <= n == keys.len(),
            keys == pending.items(),
            collections::lists::<(GroupId, ResolverId)>(keys, pending@),
            start == old(tally_of)@,
            seen + 1 <= u64::MAX,
            tally_of@ == tally_each(start, keys.take(i as int), removed@),
            stays_below(tally_of@, seen + 1),
            forall|j: int| i <= j < n ==> tallied(tally_of@, #[trigger] keys[j]) <= seen,
        decreases n - i,
    {
        proof {
            assert(keys.take(i + 1).drop_last() =~= keys.take(i as int));
            collections::in_order_is_distinct::<(GroupId, ResolverId)>(keys);
            assert(tallied(tally_of@, keys[i as int]) <= seen);
        }
        let p = pending.at(i);
        let ghost before = tally_of@;
        if removed.contains(p) {
            proof {
                tally_grows(tally_of@, p.deep_view(), 1);
            }
            add_to(tally_of, p.dup(), 1);
        }
        proof {
            assert forall|q: (Seq<char>, Seq<char>)| #[trigger]
                tallied(tally_of@, q) <= seen + 1 by {
                assert(tallied(before, q) <= seen + 1);
            }
            assert forall|j: int| i + 1 <= j < n implies tallied(tally_of@, #[trigger] keys[j])
                <= seen by {
                assert(keys[j] != keys[i as int]);
                assert(tallied(before, keys[j]) <= seen);
            }
        }
        i += 1;
    }
    assert(keys.take(n as int) =~= keys);
}

fn count_failed(
    tally_of: &mut OrderedMap<ColumnId, u64>,
    columns: &OrderedMap<ColumnId, ColumnReport>,
    Ghost(held): Ghost<nat>,
    Ghost(more): Ghost<nat>,
)
    requires
        stays_below(old(tally_of)@, held),
        held + more <= u64::MAX,
        forall|c: Seq<char>| #[trigger]
            columns@.dom().contains(c) ==> columns@[c].cells_failed <= more,
    ensures
        final(tally_of)@ == tally_failed(
            old(tally_of)@,
            collections::key_order::<ColumnId>(columns@.dom()),
            columns@,
        ),
        stays_below(final(tally_of)@, held + more),
{
    let n = columns.len();
    let ghost keys = columns.keys();
    let ghost start = tally_of@;
    let mut i: usize = 0;
    assert(keys.take(0) =~= Seq::<Seq<char>>::empty());
    while i < n
        invariant
            i <= n == keys.len(),
            keys == columns.keys(),
            collections::lists::<ColumnId>(keys, columns@.dom()),
            start == old(tally_of)@,
            held + more <= u64::MAX,
            forall|c: Seq<char>| #[trigger]
                columns@.dom().contains(c) ==> columns@[c].cells_failed <= more,
            tally_of@ == tally_failed(start, keys.take(i as int), columns@),
            stays_below(tally_of@, held + more),
            forall|j: int| i <= j < n ==> tallied(tally_of@, #[trigger] keys[j]) <= held,
        decreases n - i,
    {
        proof {
            assert(keys.take(i + 1).drop_last() =~= keys.take(i as int));
            collections::in_order_is_distinct::<ColumnId>(keys);
            assert(keys.contains(keys[i as int]));
            assert(columns@.dom().contains(keys[i as int]));
            assert(tallied(tally_of@, keys[i as int]) <= held);
        }
        let failed = columns.value_at(i).cells_failed;
        let ghost before = tally_of@;
        if failed > 0 {
            proof {
                tally_grows(tally_of@, keys[i as int], failed);
            }
            add_to(tally_of, columns.key_at(i).dup(), failed);
        }
        proof {
            assert forall|q: Seq<char>| #[trigger] tallied(tally_of@, q) <= held + more by {
                assert(tallied(before, q) <= held + more);
            }
            assert forall|j: int| i + 1 <= j < n implies tallied(tally_of@, #[trigger] keys[j])
                <= held by {
                assert(keys[j] != keys[i as int]);
                assert(tallied(before, keys[j]) <= held);
            }
        }
        i += 1;
    }
    assert(keys.take(n as int) =~= keys);
}

/// How far an assessment of some records with some cells can have come.
spec fn is_within(a: RecordAssessmentModel, records: nat, held: nat) -> bool {
    &&& a.records <= records
    &&& a.records_with_failures <= records
    &&& a.records_with_loss <= records
    &&& a.records_with_uncastable <= records
    &&& a.cells_failed <= held
    &&& a.cells_lossy <= held
    &&& stays_below(a.failed_by_column, held)
    &&& stays_below(a.uncastable_by_column, held)
    &&& stays_below(a.pending_on_removed_resolvers, records)
}

impl Default for RecordAssessment {
    fn default() -> (r: Self)
        ensures
            r@ == no_records(),
    {
        RecordAssessment {
            records: 0,
            records_with_failures: 0,
            records_with_loss: 0,
            cells_failed: 0,
            cells_lossy: 0,
            failed_by_column: OrderedMap::new(),
            records_with_uncastable: 0,
            uncastable_by_column: OrderedMap::new(),
            pending_on_removed_resolvers: OrderedMap::new(),
        }
    }
}

fn assess_record(
    a: RecordAssessment,
    record: &RecordUnderAssessment,
    report: &ProjectionReport,
    uncastable: &OrderedSet<ColumnId>,
    removed: &OrderedSet<(GroupId, ResolverId)>,
    Ghost(seen): Ghost<nat>,
    Ghost(held): Ghost<nat>,
) -> (r: RecordAssessment)
    requires
        is_within(a@, seen, held),
        seen < u64::MAX,
        held + collections::key_order::<CellAddr>(record.values@.cells.dom()).len() <= u64::MAX,
        report@.total_failed() <= collections::key_order::<CellAddr>(record.values@.cells.dom()).len(),
        report@.total_lossy() <= collections::key_order::<CellAddr>(record.values@.cells.dom()).len(),
    ensures
        r@ == with_record(a@, record.deep_view(), report@, uncastable@, removed@),
        is_within(
            r@,
            seen + 1,
            held + collections::key_order::<CellAddr>(record.values@.cells.dom()).len(),
        ),
{
    let mut a = a;
    let ghost start = a@;
    let ghost more = collections::key_order::<CellAddr>(record.values@.cells.dom()).len();
    let failed = report.total_failed();
    let lossy = report.total_lossy();
    a.records = a.records + 1;
    if failed > 0 {
        a.records_with_failures = a.records_with_failures + 1;
    }
    if lossy > 0 {
        a.records_with_loss = a.records_with_loss + 1;
    }
    a.cells_failed = a.cells_failed + failed;
    a.cells_lossy = a.cells_lossy + lossy;
    let mut by_column = a.uncastable_by_column;
    let hit = count_cells(&mut by_column, &record.values.cells, uncastable, Ghost(held));
    let mut with_uncastable = a.records_with_uncastable;
    if hit {
        with_uncastable = with_uncastable + 1;
    }
    let mut pending = a.pending_on_removed_resolvers;
    count_pending(&mut pending, record.pending, removed, Ghost(seen));
    let mut failed_by = a.failed_by_column;
    let n = report.columns.len();
    proof {
        projection::each_is_below_the_sum(report.columns.keys(), report@.columns);
        assert forall|c: Seq<char>| #[trigger]
            report@.columns.dom().contains(c) implies report@.columns[c].cells_failed <= more by {
            assert(report.columns.keys().contains(c));
        }
    }
    count_failed(&mut failed_by, &report.columns, Ghost(held), Ghost(more));
    RecordAssessment {
        records: a.records,
        records_with_failures: a.records_with_failures,
        records_with_loss: a.records_with_loss,
        cells_failed: a.cells_failed,
        cells_lossy: a.cells_lossy,
        failed_by_column: failed_by,
        records_with_uncastable: with_uncastable,
        uncastable_by_column: by_column,
        pending_on_removed_resolvers: pending,
    }
}

proof fn assessment_stops(
    records: Seq<RecordUnderAssessmentModel>,
    from: SchemaModel,
    to: SchemaModel,
    noms: Map<(Seq<char>, u32), Seq<OptionRowModel>>,
    uncastable: Set<Seq<char>>,
    removed: Set<(Seq<char>, Seq<char>)>,
    k: int,
)
    requires
        0 <= k <= records.len(),
        assessment(records.take(k), from, to, noms, uncastable, removed) is Err,
    ensures
        assessment(records, from, to, noms, uncastable, removed) == assessment(
            records.take(k),
            from,
            to,
            noms,
            uncastable,
            removed,
        ),
    decreases records.len() - k,
{
    if k == records.len() {
        assert(records.take(k) =~= records);
    } else {
        assert(records.take(k + 1).drop_last() =~= records.take(k));
        assessment_stops(records, from, to, noms, uncastable, removed, k + 1);
    }
}

proof fn fewer_hold_fewer(records: Seq<RecordUnderAssessmentModel>, k: int)
    requires
        0 <= k <= records.len(),
    ensures
        cells_held(records.take(k)) <= cells_held(records),
    decreases records.len() - k,
{
    if k == records.len() {
        assert(records.take(k) =~= records);
    } else {
        assert(records.take(k + 1).drop_last() =~= records.take(k));
        fewer_hold_fewer(records, k + 1);
    }
}

/// The full impact: the classification, the rules that break, and the
/// projection run over records, which turns every checked change into
/// exact counts. The records' cells must be countable in 64 bits.
pub fn assess(
    from: &Schema,
    to: &Schema,
    nomenclatures: &NomenclatureTable,
    rules: &[RuleRef],
    records: &[RecordUnderAssessment],
) -> (r: Result<ImpactReport, CastError>)
    requires
        cells_held(order::models(records@)) <= u64::MAX,
    ensures
        order::result_model(r) == assessed(
            from@,
            to@,
            nomenclatures@,
            order::models(rules@),
            order::models(records@),
        ),
{
    let report = match classify_with_rules(from, to, nomenclatures, rules) {
        Ok(report) => report,
        Err(e) => {
            return Err(e);
        },
    };
    let removed = find_removed(&report.resolvers);
    let uncastable = find_uncastable(&report.columns);
    let mut a = RecordAssessment::default();
    let ghost m = order::models(records@);
    let n = records.len();
    let mut i: usize = 0;
    assert(m.take(0) =~= Seq::<RecordUnderAssessmentModel>::empty());
    while i < n
        invariant
            i <= n == records@.len(),
            m == order::models(records@),
            cells_held(m) <= u64::MAX,
            classified_with_rules(from@, to@, nomenclatures@, order::models(rules@)) == Ok::<
                ImpactReportModel,
                CastErrorModel,
            >(report@),
            uncastable@ == uncastable_columns(report@.columns),
            removed@ == removed_resolvers(report@.resolvers),
            assessment(m.take(i as int), from@, to@, nomenclatures@, uncastable@, removed@)
                == Ok::<RecordAssessmentModel, CastErrorModel>(a@),
            is_within(a@, i as nat, cells_held(m.take(i as int))),
        decreases n - i,
    {
        let record = &records[i];
        proof {
            assert(m.take(i + 1).drop_last() =~= m.take(i as int));
            assert(m.take(i + 1).last() == record.deep_view());
            fewer_hold_fewer(m, i + 1);
        }
        match project(record.values, from, to, nomenclatures) {
            Ok(p) => {
                let cells = record.values.cells.len();
                let columns = p.report.columns.len();
                proof {
                    projection::counts_are_bounded(record.values@, from@, to@, nomenclatures@);
                }
                a = assess_record(
                    a,
                    record,
                    &p.report,
                    &uncastable,
                    &removed,
                    Ghost(i as nat),
                    Ghost(cells_held(m.take(i as int))),
                );
            },
            Err(e) => {
                proof {
                    assessment_stops(
                        m,
                        from@,
                        to@,
                        nomenclatures@,
                        uncastable@,
                        removed@,
                        i + 1,
                    );
                }
                return Err(e);
            },
        }
        i += 1;
    }
    assert(m.take(m.len() as int) =~= m);
    Ok(
        ImpactReport {
            columns: report.columns,
            resolvers: report.resolvers,
            blocks: report.blocks,
            rules: report.rules,
            records: Some(a),
        },
    )
}

/// Whether a file satisfies the constraints of a column's type.
pub open spec fn scalar_is_admitted(s: ScalarModel, ty: ScalarTypeModel) -> bool {
    match (s, ty) {
        (ScalarModel::Attachment(a), ScalarTypeModel::Attachment(c)) => c.accepts(a.content_type)
            && c.admits_size(a.byte_size),
        _ => true,
    }
}

/// Whether a cell's files satisfy the constraints of its column's type.
pub open spec fn state_is_admitted(state: CellStateModel, ty: ScalarTypeModel) -> bool {
    match state {
        CellStateModel::Empty => true,
        CellStateModel::Value(CellValueModel::One(s)) => scalar_is_admitted(s, ty),
        CellStateModel::Value(CellValueModel::Many(l)) => forall|i: int|
            0 <= i < l.len() ==> scalar_is_admitted(#[trigger] l[i], ty),
    }
}

proof fn scalars_come_through(
    s: Seq<ScalarModel>,
    from: ScalarTypeModel,
    to: ScalarTypeModel,
    column: Seq<char>,
    noms: Map<(Seq<char>, u32), Seq<OptionRowModel>>,
)
    requires
        forall|i: int|
            0 <= i < s.len() ==> conformance::scalar_errors(#[trigger] s[i], from, column, noms).len() == 0,
        forall|i: int| 0 <= i < s.len() ==> scalar_is_admitted(#[trigger] s[i], from),
        cast::cast_between(from, to, noms) matches Ok(c) && c.possible && !c.checked,
    ensures
        projection::scalars_projection(s, from, to, noms) matches Ok(Some(_)),
    decreases s.len(),
{
    if s.len() > 0 {
        let rest = s.drop_last();
        assert forall|i: int| 0 <= i < rest.len() implies conformance::scalar_errors(
            #[trigger] rest[i],
            from,
            column,
            noms,
        ).len() == 0 && scalar_is_admitted(rest[i], from) by {
            assert(rest[i] == s[i]);
        }
        scalars_come_through(rest, from, to, column, noms);
        assert(s.last() == s[s.len() - 1]);
        projection::total_casts_come_through(s.last(), from, to, column, noms);
    }
}

proof fn state_comes_through(
    state: CellStateModel,
    writer: ColumnInfoModel,
    reader: ColumnInfoModel,
    column: Seq<char>,
    noms: Map<(Seq<char>, u32), Seq<OptionRowModel>>,
)
    requires
        conformance::state_errors(state, writer, column, noms).len() == 0,
        state_is_admitted(state, writer.ty),
        cast::cast_between(writer.ty, reader.ty, noms) matches Ok(c) && c.possible && !c.checked,
    ensures
        projection::state_projection(state, writer, reader, noms) matches Ok(Some(_)),
{
    if let CellStateModel::Value(v) = state {
        let (scalars, cut) = projection::seen_scalars(v, reader.arity);
        match v {
            CellValueModel::One(s) => {
                assert(scalars[0] == s);
            },
            CellValueModel::Many(list) => {
                conformance::list_conforms_where_each_does(list, writer.ty, column, noms);
                assert forall|i: int| 0 <= i < scalars.len() implies #[trigger] scalars[i]
                    == list[i] by {}
            },
        }
        scalars_come_through(scalars, writer.ty, reader.ty, column, noms);
        if reader.arity == Arity::Many {
            if let CellValueModel::One(s) = v {
                one_is_not_repeated(scalars);
            }
            projection::casts_repeat_nothing(scalars, writer.ty, reader.ty, noms);
        }
    }
}

proof fn one_is_not_repeated(s: Seq<ScalarModel>)
    requires
        s.len() == 1,
    ensures
        !conformance::repeats_element(s),
{
    assert(s.take(0) =~= Seq::<ScalarModel>::empty());
    assert(!conformance::is_repeated(s, 0));
}

proof fn cells_come_through(
    cells: Map<CellAddrModel, CellStateModel>,
    keys: Seq<CellAddrModel>,
    values: Map<CellAddrModel, CellStateModel>,
    column: Seq<char>,
    writer: ColumnInfoModel,
    reader: ColumnInfoModel,
    noms: Map<(Seq<char>, u32), Seq<OptionRowModel>>,
)
    requires
        forall|i: int|
            0 <= i < keys.len() && (#[trigger] keys[i]).column == column ==> conformance::state_errors(
                values[keys[i]],
                writer,
                column,
                noms,
            ).len() == 0 && state_is_admitted(values[keys[i]], writer.ty),
        cast::cast_between(writer.ty, reader.ty, noms) matches Ok(c) && c.possible && !c.checked,
    ensures
        projection::cells_projection(cells, keys, values, column, writer, reader, noms) matches Ok(c)
            ==> c.failed == 0,
    decreases keys.len(),
{
    if keys.len() > 0 {
        let rest = keys.drop_last();
        assert forall|i: int|
            0 <= i < rest.len() && (#[trigger] rest[i]).column == column implies conformance::state_errors(
            values[rest[i]],
            writer,
            column,
            noms,
        ).len() == 0 && state_is_admitted(values[rest[i]], writer.ty) by {
            assert(rest[i] == keys[i]);
        }
        cells_come_through(cells, rest, values, column, writer, reader, noms);
        assert(keys.last() == keys[keys.len() - 1]);
        if keys.last().column == column {
            state_comes_through(values[keys.last()], writer, reader, column, noms);
        }
    }
}

/// A column whose change is not checked rejects no cell, on any record
/// that fits the old revision and whose files satisfy its constraints:
/// only checked changes need the data.
pub proof fn only_checked_changes_fail(
    v: RecordValuesModel,
    from: SchemaModel,
    to: SchemaModel,
    noms: Map<(Seq<char>, u32), Seq<OptionRowModel>>,
    column: Seq<char>,
)
    requires
        v.cells.dom().finite(),
        projection::fits(v, conformance::schema_index(from), noms),
        forall|a: CellAddrModel| #[trigger]
            v.cells.dom().contains(a) ==> state_is_admitted(
                v.cells[a],
                conformance::schema_index(from).columns[a.column].ty,
            ),
        classified(from, to, noms) matches Ok(report) && report.columns.dom().contains(column)
            && report.columns[column].class != ChangeClass::Checked,
    ensures
        projection::projection(v, from, to, noms) matches Ok(p) ==> p.report.columns.dom().contains(column)
            ==> p.report.columns[column].cells_failed == 0,
{
    let f = conformance::schema_index(from).columns;
    let t = conformance::schema_index(to).columns;
    let keys = collections::key_order::<ColumnId>(t.dom());
    conformance::index_is_finite(from);
    conformance::index_is_finite(to);
    collections::finite_is_listed::<ColumnId>(f.dom());
    collections::finite_is_listed::<ColumnId>(t.dom());
    impact::impacts_cover(collections::key_order::<ColumnId>(f.dom()), f, t, noms);
    each_column_is_projected(keys, v.cells, f, t, noms);
    collections::finite_is_listed::<CellAddr>(v.cells.dom());
    if let Ok(p) = projection::projection(v, from, to, noms) {
        let columns = p.report.columns;
        if columns.dom().contains(column) && f.dom().contains(column) {
            let list = collections::key_order::<CellAddr>(v.cells.dom());
            let cells = choose|cells: Map<CellAddrModel, CellStateModel>|
                is_report_of(cells, v.cells, column, f, t[column], noms, columns[column]);
            let w = f[column];
            let r = t[column];
            let m = impact::column_impacts(collections::key_order::<ColumnId>(f.dom()), f, t, noms)->Ok_0;
            let judged = classified(from, to, noms)->Ok_0.columns[column];
            if w.scope == r.scope {
                assert(!impact::added_columns(f, t).dom().contains(column));
                assert(m.dom().contains(column)) by {
                    assert(classified(from, to, noms)->Ok_0.columns.dom().contains(column));
                }
                assert(judged == m[column]);
                if cast::column_cast_of((w.ty, w.arity), (r.ty, r.arity), noms)->Ok_0.possible {
                    assert forall|i: int|
                        0 <= i < list.len() && (#[trigger] list[i]).column == column implies conformance::state_errors(
                        v.cells[list[i]],
                        w,
                        column,
                        noms,
                    ).len() == 0 && state_is_admitted(v.cells[list[i]], w.ty) by {
                        assert(list.contains(list[i]));
                        assert(v.cells.dom().contains(list[i]));
                    }
                    cells_come_through(cells, list, v.cells, column, w, r, noms);
                }
            }
        } else if columns.dom().contains(column) {
            let cells = choose|cells: Map<CellAddrModel, CellStateModel>|
                is_report_of(cells, v.cells, column, f, t[column], noms, columns[column]);
        }
    }
}

/// A report is that of a column projected beside some cells.
spec fn is_report_of(
    cells: Map<CellAddrModel, CellStateModel>,
    values: Map<CellAddrModel, CellStateModel>,
    column: Seq<char>,
    writer: Map<Seq<char>, ColumnInfoModel>,
    reader: ColumnInfoModel,
    noms: Map<(Seq<char>, u32), Seq<OptionRowModel>>,
    report: ColumnReport,
) -> bool {
    projection::column_projection(cells, values, column, writer, reader, noms) matches Ok(p) && p.1 == report
}

proof fn each_column_is_projected(
    keys: Seq<Seq<char>>,
    values: Map<CellAddrModel, CellStateModel>,
    writer: Map<Seq<char>, ColumnInfoModel>,
    reader: Map<Seq<char>, ColumnInfoModel>,
    noms: Map<(Seq<char>, u32), Seq<OptionRowModel>>,
)
    ensures
        projection::columns_projection(keys, values, writer, reader, noms) matches Ok(p) ==> forall|c: Seq<char>|
         #[trigger]
            p.1.dom().contains(c) ==> keys.contains(c) && exists|
                cells: Map<CellAddrModel, CellStateModel>,
            | is_report_of(cells, values, c, writer, reader[c], noms, p.1[c]),
    decreases keys.len(),
{
    if keys.len() > 0 {
        let rest = keys.drop_last();
        each_column_is_projected(rest, values, writer, reader, noms);
        if let Ok((cells, reports)) = projection::columns_projection(
            keys.drop_last(),
            values,
            writer,
            reader,
            noms,
        ) {
            if let Ok((after, report)) = projection::column_projection(
                cells,
                values,
                keys.last(),
                writer,
                reader[keys.last()],
                noms,
            ) {
                assert(is_report_of(
                    cells,
                    values,
                    keys.last(),
                    writer,
                    reader[keys.last()],
                    noms,
                    report,
                ));
                assert forall|c: Seq<char>| #[trigger]
                    reports.insert(keys.last(), report).dom().contains(c) implies keys.contains(c)
                    && exists|cells: Map<CellAddrModel, CellStateModel>|
                    is_report_of(
                        cells,
                        values,
                        c,
                        writer,
                        reader[c],
                        noms,
                        reports.insert(keys.last(), report)[c],
                    ) by {
                    let all = reports.insert(keys.last(), report);
                    if c == keys.last() {
                        assert(keys[keys.len() - 1] == c);
                        assert(is_report_of(cells, values, c, writer, reader[c], noms, all[c]));
                    } else {
                        assert(reports.dom().contains(c));
                        let i = rest.index_of(c);
                        assert(keys[i] == c);
                        let prior = choose|prior: Map<CellAddrModel, CellStateModel>|
                            is_report_of(
                                prior,
                                values,
                                c,
                                writer,
                                reader[c],
                                noms,
                                reports[c],
                            );
                        assert(is_report_of(prior, values, c, writer, reader[c], noms, all[c]));
                    }
                }
            }
        }
    }
}

proof fn own_declarations_stay(
    keys: Seq<(Seq<char>, Seq<char>)>,
    m: Map<(Seq<char>, Seq<char>), ResolverDeclarationModel>,
    columns: Map<Seq<char>, ColumnInfoModel>,
)
    requires
        forall|i: int| 0 <= i < keys.len() ==> m.dom().contains(#[trigger] keys[i]),
    ensures
        impact::old_declaration_changes(keys, m, m, columns).len() == 0,
        impact::new_declarations(keys, m).len() == 0,
    decreases keys.len(),
{
    if keys.len() > 0 {
        let rest = keys.drop_last();
        assert forall|i: int| 0 <= i < rest.len() implies m.dom().contains(
            #[trigger] rest[i],
        ) by {
            assert(rest[i] == keys[i]);
        }
        own_declarations_stay(rest, m, columns);
        assert(keys.last() == keys[keys.len() - 1]);
    }
}

proof fn own_blocks_stay(
    keys: Seq<Seq<char>>,
    m: Map<Seq<char>, BlockRefModel>,
    groups: Map<Seq<char>, GroupInfoModel>,
)
    requires
        forall|i: int| 0 <= i < keys.len() ==> m.dom().contains(#[trigger] keys[i]),
    ensures
        impact::old_block_changes(keys, m, m, groups).len() == 0,
        impact::new_blocks(keys, m, m, groups).len() == 0,
    decreases keys.len(),
{
    if keys.len() > 0 {
        let rest = keys.drop_last();
        assert forall|i: int| 0 <= i < rest.len() implies m.dom().contains(
            #[trigger] rest[i],
        ) by {
            assert(rest[i] == keys[i]);
        }
        own_blocks_stay(rest, m, groups);
        assert(keys.last() == keys[keys.len() - 1]);
    }
}

proof fn declarations_are_finite(s: Seq<ResolverDeclarationModel>)
    ensures
        impact::declarations(s).dom().finite(),
    decreases s.len(),
{
    if s.len() > 0 {
        declarations_are_finite(s.drop_last());
    }
}

proof fn blocks_are_finite(s: Seq<PlacedModel>)
    ensures
        impact::blocks_among(s).dom().finite(),
    decreases s.len(),
{
    if s.len() > 0 {
        blocks_are_finite(s.drop_last());
    }
}

proof fn all_safe_is_safe(keys: Seq<Seq<char>>, columns: Map<Seq<char>, ColumnImpactModel>)
    requires
        forall|i: int|
            0 <= i < keys.len() ==> columns[#[trigger] keys[i]].class == ChangeClass::Safe,
    ensures
        worst_class(keys, columns) == ChangeClass::Safe,
    decreases keys.len(),
{
    if keys.len() > 0 {
        let rest = keys.drop_last();
        assert forall|i: int| 0 <= i < rest.len() implies columns[#[trigger] rest[i]].class
            == ChangeClass::Safe by {
            assert(rest[i] == keys[i]);
        }
        all_safe_is_safe(rest, columns);
        assert(keys.last() == keys[keys.len() - 1]);
    }
}

/// Publishing a schema again changes nothing: every column is identical,
/// and no resolver or block changes.
pub proof fn own_revision_is_safe(
    schema: SchemaModel,
    noms: Map<(Seq<char>, u32), Seq<OptionRowModel>>,
)
    ensures
        classified(schema, schema, noms) matches Ok(r) ==> {
            &&& r.resolvers.len() == 0
            &&& r.blocks.len() == 0
            &&& forall|c: Seq<char>| #[trigger]
                r.columns.dom().contains(c) ==> r.columns[c].change == ColumnChange::Identical
                    && r.columns[c].class == ChangeClass::Safe
            &&& r.worst() == ChangeClass::Safe
        },
{
    let index = conformance::schema_index(schema);
    conformance::index_is_finite(schema);
    collections::finite_is_listed::<ColumnId>(index.columns.dom());
    impact::impacts_cover(
        collections::key_order::<ColumnId>(index.columns.dom()),
        index.columns,
        index.columns,
        noms,
    );
    let d = impact::declarations(schema.resolvers);
    declarations_are_finite(schema.resolvers);
    collections::finite_is_listed::<(GroupId, ResolverId)>(d.dom());
    let keys = collections::key_order::<(GroupId, ResolverId)>(d.dom());
    assert forall|i: int| 0 <= i < keys.len() implies d.dom().contains(#[trigger] keys[i]) by {
        assert(keys.contains(keys[i]));
    }
    own_declarations_stay(keys, d, index.columns);
    let b = impact::blocks_among(schema::schema_elements(schema));
    blocks_are_finite(schema::schema_elements(schema));
    collections::finite_is_listed::<GroupId>(b.dom());
    let groups = collections::key_order::<GroupId>(b.dom());
    assert forall|i: int| 0 <= i < groups.len() implies b.dom().contains(#[trigger] groups[i]) by {
        assert(groups.contains(groups[i]));
    }
    own_blocks_stay(groups, b, index.groups);
    if let Ok(r) = classified(schema, schema, noms) {
        let m = impact::column_impacts(
            collections::key_order::<ColumnId>(index.columns.dom()),
            index.columns,
            index.columns,
            noms,
        )->Ok_0;
        assert forall|c: Seq<char>| #[trigger] r.columns.dom().contains(c) implies r.columns[c].change
            == ColumnChange::Identical && r.columns[c].class == ChangeClass::Safe by {
            assert(m.dom().contains(c));
            assert(r.columns[c] == m[c]);
            let info = index.columns[c];
            assert(cast::one_type(info.ty, info.ty));
        }
        assert(r.columns.dom() =~= index.columns.dom()) by {
            assert forall|c: Seq<char>| r.columns.dom().contains(c)
                <==> index.columns.dom().contains(c) by {
                assert(m.dom().contains(c) <==> collections::key_order::<ColumnId>(
                    index.columns.dom(),
                ).contains(c));
            }
        }
        let all = collections::key_order::<ColumnId>(r.columns.dom());
        assert forall|i: int| 0 <= i < all.len() implies r.columns[#[trigger] all[i]].class
            == ChangeClass::Safe by {
            assert(all.contains(all[i]));
            assert(r.columns.dom().contains(all[i]));
        }
        all_safe_is_safe(all, r.columns);
    }
}

} // verus!
