//! The aggregate of a schema's whole history: the one set of columns that
//! records of every revision project into. A column's aggregate type is
//! the join of its types; every policy that a column hits is reported.

use vstd::prelude::*;
use crate::cast;
use crate::collections;
use crate::conformance;
use crate::impact;
use crate::order;
use crate::schema;
use crate::cast::{
    CastError, CastErrorModel, JoinConflict, JoinConflictModel, JoinPath, NomenclatureTable,
    column_join,
};
use crate::collections::{OrderedMap, OrderedSet};
use crate::conformance::SchemaIndex;
use crate::ids::{ColumnId, GroupId, RevisionId};
use crate::order::{Modeled, contains_model};
use crate::schema::{
    Arity, Column, Group, OptionRowModel, Placed, PlacedModel, ScalarType, ScalarTypeModel, Schema,
    SchemaModel, Shell, ShellModel,
};

verus! {

/// A column of the aggregate.
#[derive(Clone, Debug, PartialEq, Eq)]
pub struct AggregateColumn {
    pub column: ColumnId,
    /// The label of the latest revision that has the column.
    pub label: String,
    pub ty: ScalarType,
    pub arity: Arity,
    pub scope: Vec<GroupId>,
    /// The first revision after the last one that has the column.
    pub deprecated_since: Option<RevisionId>,
}

/// The model of [`AggregateColumn`].
#[verifier::ext_equal]
pub struct AggregateColumnModel {
    pub column: Seq<char>,
    pub label: Seq<char>,
    pub ty: ScalarTypeModel,
    pub arity: Arity,
    pub scope: Seq<Seq<char>>,
    pub deprecated_since: Option<Seq<char>>,
}

impl DeepView for AggregateColumn {
    type V = AggregateColumnModel;

    open spec fn deep_view(&self) -> AggregateColumnModel {
        AggregateColumnModel {
            column: self.column.deep_view(),
            label: self.label.deep_view(),
            ty: self.ty.deep_view(),
            arity: self.arity.deep_view(),
            scope: self.scope.deep_view(),
            deprecated_since: self.deprecated_since.deep_view(),
        }
    }
}

impl View for AggregateColumn {
    type V = AggregateColumnModel;

    open spec fn view(&self) -> AggregateColumnModel {
        self.deep_view()
    }
}

impl Modeled for AggregateColumn {
    fn dup(&self) -> (r: Self) {
        AggregateColumn {
            column: self.column.dup(),
            label: self.label.dup(),
            ty: self.ty.dup(),
            arity: self.arity.dup(),
            scope: self.scope.dup(),
            deprecated_since: self.deprecated_since.dup(),
        }
    }

    fn same(&self, other: &Self) -> (b: bool) {
        self.column.same(&other.column)
            && self.label.same(&other.label)
            && self.ty.same(&other.ty)
            && self.arity.same(&other.arity)
            && self.scope.same(&other.scope)
            && self.deprecated_since.same(&other.deprecated_since)
    }
}

/// The columns of a history. No record is ever created on it: it has no
/// revision's identity.
#[derive(Clone, Debug, PartialEq, Eq)]
pub struct AggregateRevision {
    /// The latest revision's columns in its order, then the others in
    /// the order in which they first appeared.
    pub columns: Vec<AggregateColumn>,
}

/// The model of [`AggregateRevision`].
#[verifier::ext_equal]
pub struct AggregateRevisionModel {
    pub columns: Seq<AggregateColumnModel>,
}

impl DeepView for AggregateRevision {
    type V = AggregateRevisionModel;

    open spec fn deep_view(&self) -> AggregateRevisionModel {
        AggregateRevisionModel {
            columns: self.columns.deep_view(),
        }
    }
}

impl View for AggregateRevision {
    type V = AggregateRevisionModel;

    open spec fn view(&self) -> AggregateRevisionModel {
        self.deep_view()
    }
}

impl Modeled for AggregateRevision {
    fn dup(&self) -> (r: Self) {
        AggregateRevision {
            columns: self.columns.dup(),
        }
    }

    fn same(&self, other: &Self) -> (b: bool) {
        self.columns.same(&other.columns)
    }
}

/// What happened to a column.
#[derive(Clone, Copy, Debug, PartialEq, Eq, Structural)]
pub enum AggregatePolicy {
    /// Types other than text joined into text.
    ViaText,
    /// No join exists: the column is left out.
    Omitted,
    /// The column moved between scopes: only its latest scope is joined.
    ScopeKeptLatest,
    /// The column went away and came back with another type.
    ReAddedRetyped,
}

impl DeepView for AggregatePolicy {
    type V = AggregatePolicy;

    open spec fn deep_view(&self) -> AggregatePolicy {
        *self
    }
}

impl View for AggregatePolicy {
    type V = AggregatePolicy;

    open spec fn view(&self) -> AggregatePolicy {
        *self
    }
}

impl Modeled for AggregatePolicy {
    fn dup(&self) -> (r: Self) {
        *self
    }

    fn same(&self, other: &Self) -> (b: bool) {
        *self == *other
    }
}

/// Which columns hit which policy.
#[derive(Clone, Debug, PartialEq, Eq)]
pub struct AggregateReport {
    pub entries: Vec<(ColumnId, AggregatePolicy)>,
}

/// The model of [`AggregateReport`].
#[verifier::ext_equal]
pub struct AggregateReportModel {
    pub entries: Seq<(Seq<char>, AggregatePolicy)>,
}

impl DeepView for AggregateReport {
    type V = AggregateReportModel;

    open spec fn deep_view(&self) -> AggregateReportModel {
        AggregateReportModel {
            entries: self.entries.deep_view(),
        }
    }
}

impl View for AggregateReport {
    type V = AggregateReportModel;

    open spec fn view(&self) -> AggregateReportModel {
        self.deep_view()
    }
}

impl Modeled for AggregateReport {
    fn dup(&self) -> (r: Self) {
        AggregateReport {
            entries: self.entries.dup(),
        }
    }

    fn same(&self, other: &Self) -> (b: bool) {
        self.entries.same(&other.entries)
    }
}

/// A column in one revision.
#[derive(Clone, Debug, PartialEq, Eq)]
pub struct Occurrence {
    /// The revision's place in the history.
    pub revision: usize,
    pub label: String,
    pub ty: ScalarType,
    pub arity: Arity,
    pub scope: Vec<GroupId>,
}

/// The model of [`Occurrence`].
#[verifier::ext_equal]
pub struct OccurrenceModel {
    pub revision: usize,
    pub label: Seq<char>,
    pub ty: ScalarTypeModel,
    pub arity: Arity,
    pub scope: Seq<Seq<char>>,
}

impl DeepView for Occurrence {
    type V = OccurrenceModel;

    open spec fn deep_view(&self) -> OccurrenceModel {
        OccurrenceModel {
            revision: self.revision,
            label: self.label.deep_view(),
            ty: self.ty.deep_view(),
            arity: self.arity.deep_view(),
            scope: self.scope.deep_view(),
        }
    }
}

impl View for Occurrence {
    type V = OccurrenceModel;

    open spec fn view(&self) -> OccurrenceModel {
        self.deep_view()
    }
}

impl Modeled for Occurrence {
    fn dup(&self) -> (r: Self) {
        Occurrence {
            revision: self.revision,
            label: self.label.dup(),
            ty: self.ty.dup(),
            arity: self.arity.dup(),
            scope: self.scope.dup(),
        }
    }

    fn same(&self, other: &Self) -> (b: bool) {
        self.revision == other.revision
            && self.label.same(&other.label)
            && self.ty.same(&other.ty)
            && self.arity.same(&other.arity)
            && self.scope.same(&other.scope)
    }
}

/// The labels of some elements' columns; of two with one identity the
/// later counts.
pub open spec fn labels_of(s: Seq<PlacedModel>) -> Map<Seq<char>, Seq<char>>
    decreases s.len(),
{
    if s.len() == 0 {
        Map::empty()
    } else {
        let rest = labels_of(s.drop_last());
        match s.last().shell {
            ShellModel::Column(c) => rest.insert(c.id, c.label),
            ShellModel::Group(_) => rest,
        }
    }
}

/// The columns among some elements, in order.
pub open spec fn column_sequence(s: Seq<PlacedModel>) -> Seq<Seq<char>>
    decreases s.len(),
{
    if s.len() == 0 {
        Seq::empty()
    } else {
        let rest = column_sequence(s.drop_last());
        match s.last().shell {
            ShellModel::Column(c) => rest.push(c.id),
            ShellModel::Group(_) => rest,
        }
    }
}

/// The label of a column in a schema.
pub open spec fn label_in(s: SchemaModel, column: Seq<char>) -> Seq<char> {
    let labels = labels_of(schema::schema_elements(s));
    if labels.dom().contains(column) {
        labels[column]
    } else {
        Seq::empty()
    }
}

/// Where a column occurs in a history, oldest first.
pub open spec fn occurrences(history: Seq<(Seq<char>, SchemaModel)>, column: Seq<char>) -> Seq<
    OccurrenceModel,
>
    decreases history.len(),
{
    if history.len() == 0 {
        Seq::empty()
    } else {
        let rest = occurrences(history.drop_last(), column);
        let schema = history.last().1;
        let columns = conformance::schema_index(schema).columns;
        if columns.dom().contains(column) {
            rest.push(
                OccurrenceModel {
                    revision: (history.len() - 1) as usize,
                    label: label_in(schema, column),
                    ty: columns[column].ty,
                    arity: columns[column].arity,
                    scope: columns[column].scope,
                },
            )
        } else {
            rest
        }
    }
}

/// The columns of a history.
pub open spec fn columns_seen(history: Seq<(Seq<char>, SchemaModel)>) -> Set<Seq<char>>
    decreases history.len(),
{
    if history.len() == 0 {
        Set::empty()
    } else {
        columns_seen(history.drop_last()).union(conformance::schema_index(history.last().1).columns.dom())
    }
}

/// Whether some occurrence stands in another scope than the latest.
pub open spec fn scope_moved(occs: Seq<OccurrenceModel>) -> bool {
    exists|i: int| 0 <= i < occs.len() && (#[trigger] occs[i]).scope != occs.last().scope
}

/// The occurrences in the latest scope.
pub open spec fn in_latest_scope(occs: Seq<OccurrenceModel>) -> Seq<OccurrenceModel> {
    impact::kept(occs, |o: OccurrenceModel| o.scope == occs.last().scope)
}

/// Whether the column was away between two occurrences of different
/// type or arity.
pub open spec fn is_retyped_return(a: OccurrenceModel, b: OccurrenceModel) -> bool {
    b.revision > a.revision + 1 && (b.ty != a.ty || b.arity != a.arity)
}

/// Whether the column went away and came back with another type.
pub open spec fn re_added_retyped(occs: Seq<OccurrenceModel>) -> bool {
    exists|i: int| 0 <= i < occs.len() - 1 && is_retyped_return(#[trigger] occs[i], occs[i + 1])
}

/// The join of some occurrences, and whether it went through text.
/// Nothing where two have no join.
pub open spec fn joined_type(
    occs: Seq<OccurrenceModel>,
    noms: Map<(Seq<char>, u32), Seq<OptionRowModel>>,
) -> Result<Option<(ScalarTypeModel, Arity, bool)>, CastErrorModel>
    decreases occs.len(),
{
    if occs.len() <= 1 {
        Ok(Some((occs[0].ty, occs[0].arity, false)))
    } else {
        match joined_type(occs.drop_last(), noms) {
            Ok(Some((ty, arity, via_text))) => match cast::column_join_of(
                (ty, arity),
                (occs.last().ty, occs.last().arity),
                noms,
            ) {
                Ok(((t, a), path)) => Ok(Some((t, a, via_text || path == JoinPath::ViaText))),
                Err(JoinConflictModel::Incompatible) => Ok(None),
                Err(JoinConflictModel::UnknownNomenclature(id, v)) => Err(
                    CastErrorModel::UnknownNomenclature(id, v),
                ),
            },
            x => x,
        }
    }
}

/// One policy, or none.
pub open spec fn if_hit(
    hit: bool,
    column: Seq<char>,
    policy: AggregatePolicy,
) -> Seq<(Seq<char>, AggregatePolicy)> {
    if hit {
        seq![(column, policy)]
    } else {
        Seq::empty()
    }
}

/// The policies that a column hits.
pub open spec fn policies(
    column: Seq<char>,
    occs: Seq<OccurrenceModel>,
    joined: Option<(ScalarTypeModel, Arity, bool)>,
) -> Seq<(Seq<char>, AggregatePolicy)> {
    if_hit(scope_moved(occs), column, AggregatePolicy::ScopeKeptLatest) + if_hit(
        re_added_retyped(occs),
        column,
        AggregatePolicy::ReAddedRetyped,
    ) + match joined {
        None => seq![(column, AggregatePolicy::Omitted)],
        Some((_, _, via_text)) => if_hit(via_text, column, AggregatePolicy::ViaText),
    }
}

/// A column of the aggregate.
pub open spec fn aggregate_column(
    history: Seq<(Seq<char>, SchemaModel)>,
    column: Seq<char>,
    ty: ScalarTypeModel,
    arity: Arity,
) -> AggregateColumnModel {
    let latest = occurrences(history, column).last();
    AggregateColumnModel {
        column,
        label: latest.label,
        ty,
        arity,
        scope: latest.scope,
        deprecated_since: if latest.revision + 1 < history.len() {
            Some(history[latest.revision + 1].0)
        } else {
            None
        },
    }
}

/// Some columns of a history, aggregated, with the policies that they
/// hit.
pub open spec fn aggregated(
    keys: Seq<Seq<char>>,
    history: Seq<(Seq<char>, SchemaModel)>,
    noms: Map<(Seq<char>, u32), Seq<OptionRowModel>>,
) -> Result<
    (Map<Seq<char>, AggregateColumnModel>, Seq<(Seq<char>, AggregatePolicy)>),
    CastErrorModel,
>
    decreases keys.len(),
{
    if keys.len() == 0 {
        Ok((Map::empty(), Seq::empty()))
    } else {
        match aggregated(keys.drop_last(), history, noms) {
            Err(e) => Err(e),
            Ok((m, entries)) => {
                let column = keys.last();
                let occs = occurrences(history, column);
                match joined_type(in_latest_scope(occs), noms) {
                    Err(e) => Err(e),
                    Ok(joined) => Ok(
                        (
                            match joined {
                                Some((ty, arity, _)) => m.insert(
                                    column,
                                    aggregate_column(history, column, ty, arity),
                                ),
                                None => m,
                            },
                            entries + policies(column, occs, joined),
                        ),
                    ),
                }
            },
        }
    }
}

/// The aggregated columns of a list, each once.
pub open spec fn listed_columns(
    order: Seq<Seq<char>>,
    m: Map<Seq<char>, AggregateColumnModel>,
) -> Seq<AggregateColumnModel>
    decreases order.len(),
{
    if order.len() == 0 {
        Seq::empty()
    } else {
        let rest = listed_columns(order.drop_last(), m);
        if m.dom().contains(order.last()) && !order.drop_last().contains(order.last()) {
            rest.push(m[order.last()])
        } else {
            rest
        }
    }
}

/// Whether a column is in no list and first appeared in a revision.
pub open spec fn is_old_since(
    order: Seq<Seq<char>>,
    history: Seq<(Seq<char>, SchemaModel)>,
    revision: int,
) -> spec_fn(Seq<char>) -> bool {
    |c: Seq<char>|
        !order.contains(c) && occurrences(history, c).len() > 0 && occurrences(
            history,
            c,
        )[0].revision == revision
}

/// What a map holds under some keys.
pub open spec fn values_at(keys: Seq<Seq<char>>, m: Map<Seq<char>, AggregateColumnModel>) -> Seq<
    AggregateColumnModel,
> {
    Seq::new(keys.len(), |i: int| m[keys[i]])
}

/// The columns that are in no list and first appeared in the first
/// revisions, in the order of their first appearance.
pub open spec fn old_columns(
    order: Seq<Seq<char>>,
    m: Map<Seq<char>, AggregateColumnModel>,
    history: Seq<(Seq<char>, SchemaModel)>,
    revisions: nat,
) -> Seq<AggregateColumnModel>
    decreases revisions,
{
    if revisions == 0 {
        Seq::empty()
    } else {
        old_columns(order, m, history, (revisions - 1) as nat) + values_at(
            impact::kept(collections::key_order::<ColumnId>(m.dom()), is_old_since(order, history, revisions - 1)),
            m,
        )
    }
}

/// The order of the latest revision's columns.
pub open spec fn latest_order(history: Seq<(Seq<char>, SchemaModel)>) -> Seq<Seq<char>> {
    if history.len() == 0 {
        Seq::empty()
    } else {
        column_sequence(schema::schema_elements(history.last().1))
    }
}

/// The aggregate of a history.
pub open spec fn aggregate_of(
    history: Seq<(Seq<char>, SchemaModel)>,
    noms: Map<(Seq<char>, u32), Seq<OptionRowModel>>,
) -> Result<(AggregateRevisionModel, AggregateReportModel), CastErrorModel> {
    match aggregated(collections::key_order::<ColumnId>(columns_seen(history)), history, noms) {
        Err(e) => Err(e),
        Ok((m, entries)) => {
            let order = latest_order(history);
            Ok(
                (
                    AggregateRevisionModel {
                        columns: listed_columns(order, m) + old_columns(
                            order,
                            m,
                            history,
                            history.len(),
                        ),
                    },
                    AggregateReportModel { entries },
                ),
            )
        },
    }
}

/// The model of a history.
pub open spec fn history_model(h: Seq<(RevisionId, &Schema)>) -> Seq<(Seq<char>, SchemaModel)> {
    Seq::new(h.len(), |i: int| (h[i].0@, h[i].1@))
}

fn column_labels(elements: &Vec<Placed>) -> (r: OrderedMap<ColumnId, String>)
    ensures
        r@ == labels_of(elements.deep_view()),
{
    let ghost s = elements.deep_view();
    let mut r: OrderedMap<ColumnId, String> = OrderedMap::new();
    let mut i: usize = 0;
    assert(s.take(0) =~= Seq::<PlacedModel>::empty());
    while i < elements.len()
        invariant
            i <= elements@.len(),
            s == elements.deep_view(),
            r@ == labels_of(s.take(i as int)),
        decreases elements@.len() - i,
    {
        proof {
            assert(s.take(i + 1).drop_last() =~= s.take(i as int));
            assert(s.take(i + 1).last() == elements@[i as int]@);
        }
        if let Shell::Column(c) = &elements[i].shell {
            r.insert(c.id.dup(), c.label.dup());
        }
        i += 1;
    }
    assert(s.take(s.len() as int) =~= s);
    r
}

fn column_order(schema: &Schema) -> (r: Vec<ColumnId>)
    ensures
        r.deep_view() == column_sequence(schema::schema_elements(schema@)),
{
    let elements = schema.elements();
    let ghost s = elements.deep_view();
    let mut r: Vec<ColumnId> = Vec::new();
    let mut i: usize = 0;
    assert(s.take(0) =~= Seq::<PlacedModel>::empty());
    assert(r.deep_view() =~= Seq::<Seq<char>>::empty());
    while i < elements.len()
        invariant
            i <= elements@.len(),
            s == elements.deep_view(),
            r.deep_view() == column_sequence(s.take(i as int)),
        decreases elements@.len() - i,
    {
        proof {
            assert(s.take(i + 1).drop_last() =~= s.take(i as int));
            assert(s.take(i + 1).last() == elements@[i as int]@);
        }
        if let Shell::Column(c) = &elements[i].shell {
            let ghost had = r.deep_view();
            r.push(c.id.dup());
            assert(r.deep_view() =~= had.push(c.id@));
        }
        i += 1;
    }
    assert(s.take(s.len() as int) =~= s);
    r
}

fn column_label(schema: &Schema, column: &ColumnId) -> (r: String)
    ensures
        r@ == label_in(schema@, column@),
{
    let labels = column_labels(&schema.elements());
    match labels.get(column) {
        Some(l) => l.dup(),
        None => {
            proof {
                reveal_strlit("");
                assert(""@ =~= Seq::<char>::empty());
            }
            "".to_owned()
        },
    }
}

fn find_occurrences(history: &[(RevisionId, &Schema)], column: &ColumnId) -> (r: Vec<Occurrence>)
    ensures
        r.deep_view() == occurrences(history_model(history@), column@),
{
    let ghost h = history_model(history@);
    let mut r: Vec<Occurrence> = Vec::new();
    let mut i: usize = 0;
    assert(h.take(0) =~= Seq::<(Seq<char>, SchemaModel)>::empty());
    assert(r.deep_view() =~= Seq::<OccurrenceModel>::empty());
    while i < history.len()
        invariant
            i <= history@.len(),
            h == history_model(history@),
            r.deep_view() == occurrences(h.take(i as int), column@),
        decreases history@.len() - i,
    {
        let schema = history[i].1;
        proof {
            assert(h.take(i + 1).drop_last() =~= h.take(i as int));
            assert(h.take(i + 1).last() == (history@[i as int].0@, schema@));
        }
        let index = SchemaIndex::build(schema);
        if let Some(info) = index.columns.get(column) {
            let ghost had = r.deep_view();
            let occ = Occurrence {
                revision: i,
                label: column_label(schema, column),
                ty: info.ty.dup(),
                arity: info.arity,
                scope: info.scope.dup(),
            };
            let ghost om = occ@;
            r.push(occ);
            assert(r.deep_view() =~= had.push(om));
        }
        i += 1;
    }
    assert(h.take(h.len() as int) =~= h);
    r
}

fn find_columns(history: &[(RevisionId, &Schema)]) -> (r: OrderedSet<ColumnId>)
    ensures
        r@ == columns_seen(history_model(history@)),
{
    let ghost h = history_model(history@);
    let mut r: OrderedSet<ColumnId> = OrderedSet::new();
    let mut i: usize = 0;
    assert(h.take(0) =~= Seq::<(Seq<char>, SchemaModel)>::empty());
    while i < history.len()
        invariant
            i <= history@.len(),
            h == history_model(history@),
            r@ == columns_seen(h.take(i as int)),
        decreases history@.len() - i,
    {
        let schema = history[i].1;
        proof {
            assert(h.take(i + 1).drop_last() =~= h.take(i as int));
            assert(h.take(i + 1).last() == (history@[i as int].0@, schema@));
        }
        let index = SchemaIndex::build(schema);
        let n = index.columns.len();
        let ghost keys = index.columns.keys();
        let ghost start = r@;
        let mut j: usize = 0;
        while j < n
            invariant
                j <= n == keys.len(),
                keys == index.columns.keys(),
                forall|c: Seq<char>| #[trigger]
                    r@.contains(c) <==> start.contains(c) || keys.take(j as int).contains(c),
            decreases n - j,
        {
            let ghost before = keys.take(j as int);
            let ghost after = keys.take(j + 1);
            proof {
                assert(after =~= before.push(keys[j as int]));
                assert forall|c: Seq<char>| after.contains(c) <==> before.contains(c) || c
                    == keys[j as int] by {
                    if before.contains(c) {
                        assert(after[before.index_of(c)] == c);
                    }
                    assert(after[j as int] == keys[j as int]);
                }
            }
            r.insert(index.columns.key_at(j).dup());
            j += 1;
        }
        proof {
            assert(keys.take(n as int) =~= keys);
            assert(r@ =~= start.union(index@.columns.dom()));
        }
        i += 1;
    }
    assert(h.take(h.len() as int) =~= h);
    r
}

fn has_moved(occs: &Vec<Occurrence>) -> (r: bool)
    requires
        occs@.len() > 0,
    ensures
        r == scope_moved(occs.deep_view()),
{
    let ghost m = occs.deep_view();
    let latest = &occs[occs.len() - 1];
    assert(m.last() == latest@);
    let mut i: usize = 0;
    while i < occs.len()
        invariant
            i <= occs@.len(),
            m == occs.deep_view(),
            m.last() == latest@,
            forall|j: int| 0 <= j < i ==> (#[trigger] m[j]).scope == m.last().scope,
        decreases occs@.len() - i,
    {
        assert(m[i as int] == occs@[i as int]@);
        if !occs[i].scope.same(&latest.scope) {
            return true;
        }
        i += 1;
    }
    false
}

fn find_in_scope<'a>(occs: &'a Vec<Occurrence>) -> (r: Vec<Occurrence>)
    requires
        occs@.len() > 0,
    ensures
        r.deep_view() == in_latest_scope(occs.deep_view()),
{
    let ghost m = occs.deep_view();
    let latest = &occs[occs.len() - 1];
    let ghost keep = |o: OccurrenceModel| o.scope == m.last().scope;
    assert(m.last() == latest@);
    let mut r: Vec<Occurrence> = Vec::new();
    let mut i: usize = 0;
    assert(m.take(0) =~= Seq::<OccurrenceModel>::empty());
    assert(r.deep_view() =~= Seq::<OccurrenceModel>::empty());
    while i < occs.len()
        invariant
            i <= occs@.len(),
            m == occs.deep_view(),
            m.last() == latest@,
            keep == (|o: OccurrenceModel| o.scope == m.last().scope),
            r.deep_view() == impact::kept(m.take(i as int), keep),
        decreases occs@.len() - i,
    {
        let o = &occs[i];
        proof {
            assert(m.take(i + 1).drop_last() =~= m.take(i as int));
            assert(m.take(i + 1).last() == o@);
        }
        if o.scope.same(&latest.scope) {
            let ghost had = r.deep_view();
            r.push(o.dup());
            assert(r.deep_view() =~= had.push(o@));
        }
        i += 1;
    }
    assert(m.take(m.len() as int) =~= m);
    r
}

fn came_back(occs: &Vec<Occurrence>) -> (r: bool)
    ensures
        r == re_added_retyped(occs.deep_view()),
{
    let ghost m = occs.deep_view();
    let n = occs.len();
    let mut i: usize = 1;
    while i < n
        invariant
            1 <= i,
            i <= n || n == 0,
            n == occs@.len(),
            m == occs.deep_view(),
            forall|j: int| 0 <= j < i - 1 ==> !is_retyped_return(#[trigger] m[j], m[j + 1]),
        decreases n - i,
    {
        let a = &occs[i - 1];
        let b = &occs[i];
        assert(m[i - 1] == a@);
        assert(m[i as int] == b@);
        if b.revision > a.revision && b.revision - a.revision > 1 && (!b.ty.same(&a.ty) || b.arity
            != a.arity) {
            assert(is_retyped_return(m[i - 1], m[i - 1 + 1]));
            return true;
        }
        i += 1;
    }
    false
}

proof fn join_stops(
    occs: Seq<OccurrenceModel>,
    noms: Map<(Seq<char>, u32), Seq<OptionRowModel>>,
    k: int,
)
    requires
        1 <= k <= occs.len(),
        !(joined_type(occs.take(k), noms) matches Ok(Some(_))),
    ensures
        joined_type(occs, noms) == joined_type(occs.take(k), noms),
    decreases occs.len() - k,
{
    if k == occs.len() {
        assert(occs.take(k) =~= occs);
    } else {
        assert(occs.take(k + 1).drop_last() =~= occs.take(k));
        join_stops(occs, noms, k + 1);
    }
}

/// The model of what occurrences join into.
pub open spec fn join_model(r: Result<Option<(ScalarType, Arity, bool)>, CastError>) -> Result<
    Option<(ScalarTypeModel, Arity, bool)>,
    CastErrorModel,
> {
    match r {
        Ok(Some((ty, arity, via))) => Ok(Some((ty@, arity, via))),
        Ok(None) => Ok(None),
        Err(e) => Err(e@),
    }
}

fn join_all(occs: &Vec<Occurrence>, nomenclatures: &NomenclatureTable) -> (r: Result<
    Option<(ScalarType, Arity, bool)>,
    CastError,
>)
    requires
        occs@.len() > 0,
    ensures
        join_model(r) == joined_type(occs.deep_view(), nomenclatures@),
{
    let ghost m = occs.deep_view();
    let mut ty = occs[0].ty.dup();
    let mut arity = occs[0].arity;
    let mut via_text = false;
    let mut i: usize = 1;
    assert(m[0] == occs@[0]@);
    assert(m.take(1)[0] == m[0]);
    while i < occs.len()
        invariant
            1 <= i <= occs@.len(),
            m == occs.deep_view(),
            joined_type(m.take(i as int), nomenclatures@) == Ok::<
                Option<(ScalarTypeModel, Arity, bool)>,
                CastErrorModel,
            >(Some((ty@, arity, via_text))),
        decreases occs@.len() - i,
    {
        let o = &occs[i];
        proof {
            assert(m.take(i + 1).drop_last() =~= m.take(i as int));
            assert(m.take(i + 1).last() == o@);
        }
        match column_join((&ty, arity), (&o.ty, o.arity), nomenclatures) {
            Ok(((joined, joined_arity), path)) => {
                if path == JoinPath::ViaText {
                    via_text = true;
                }
                ty = joined;
                arity = joined_arity;
            },
            Err(JoinConflict::Incompatible) => {
                proof {
                    join_stops(m, nomenclatures@, i + 1);
                }
                return Ok(None);
            },
            Err(JoinConflict::UnknownNomenclature(id, version)) => {
                proof {
                    join_stops(m, nomenclatures@, i + 1);
                }
                return Err(CastError::UnknownNomenclature(id, version));
            },
        }
        i += 1;
    }
    assert(m.take(m.len() as int) =~= m);
    Ok(Some((ty, arity, via_text)))
}

proof fn seen_occurs(history: Seq<(Seq<char>, SchemaModel)>, column: Seq<char>)
    ensures
        columns_seen(history).contains(column) <==> occurrences(history, column).len() > 0,
        forall|i: int|
            0 <= i < occurrences(history, column).len() && history.len() <= usize::MAX
                ==> (#[trigger] occurrences(history, column)[i]).revision < history.len(),
    decreases history.len(),
{
    if history.len() > 0 {
        seen_occurs(history.drop_last(), column);
    }
}

proof fn latest_is_in_its_scope(occs: Seq<OccurrenceModel>, keep: spec_fn(OccurrenceModel) -> bool)
    requires
        occs.len() > 0,
        keep(occs.last()),
    ensures
        impact::kept(occs, keep).len() > 0,
{
}

proof fn aggregated_stops(
    keys: Seq<Seq<char>>,
    history: Seq<(Seq<char>, SchemaModel)>,
    noms: Map<(Seq<char>, u32), Seq<OptionRowModel>>,
    k: int,
)
    requires
        0 <= k <= keys.len(),
        aggregated(keys.take(k), history, noms) is Err,
    ensures
        aggregated(keys, history, noms) == aggregated(keys.take(k), history, noms),
    decreases keys.len() - k,
{
    if k == keys.len() {
        assert(keys.take(k) =~= keys);
    } else {
        assert(keys.take(k + 1).drop_last() =~= keys.take(k));
        aggregated_stops(keys, history, noms, k + 1);
    }
}

fn report_policies(
    column: &ColumnId,
    occs: &Vec<Occurrence>,
    joined: &Option<(ScalarType, Arity, bool)>,
    entries: &mut Vec<(ColumnId, AggregatePolicy)>,
)
    requires
        occs@.len() > 0,
    ensures
        final(entries).deep_view() == old(entries).deep_view() + policies(
            column@,
            occs.deep_view(),
            match *joined {
                Some((ty, arity, via)) => Some((ty@, arity, via)),
                None => None,
            },
        ),
{
    let ghost start = entries.deep_view();
    let ghost mut added = Seq::<(Seq<char>, AggregatePolicy)>::empty();
    if has_moved(occs) {
        entries.push((column.dup(), AggregatePolicy::ScopeKeptLatest));
        proof {
            added = added.push((column@, AggregatePolicy::ScopeKeptLatest));
        }
    }
    assert(entries.deep_view() =~= start + added);
    if came_back(occs) {
        entries.push((column.dup(), AggregatePolicy::ReAddedRetyped));
        proof {
            added = added.push((column@, AggregatePolicy::ReAddedRetyped));
        }
    }
    assert(entries.deep_view() =~= start + added);
    match joined {
        None => {
            entries.push((column.dup(), AggregatePolicy::Omitted));
            proof {
                added = added.push((column@, AggregatePolicy::Omitted));
            }
        },
        Some((_, _, via)) => {
            if *via {
                entries.push((column.dup(), AggregatePolicy::ViaText));
                proof {
                    added = added.push((column@, AggregatePolicy::ViaText));
                }
            }
        },
    }
    assert(entries.deep_view() =~= start + added);
    assert(added =~= policies(
        column@,
        occs.deep_view(),
        match *joined {
            Some((ty, arity, via)) => Some((ty@, arity, via)),
            None => None,
        },
    ));
}

fn make_column(
    history: &[(RevisionId, &Schema)],
    column: &ColumnId,
    occs: &Vec<Occurrence>,
    ty: ScalarType,
    arity: Arity,
) -> (r: AggregateColumn)
    requires
        occs@.len() > 0,
        occs.deep_view() == occurrences(history_model(history@), column@),
    ensures
        r@ == aggregate_column(history_model(history@), column@, ty@, arity),
{
    let latest = &occs[occs.len() - 1];
    let n = history.len();
    proof {
        seen_occurs(history_model(history@), column@);
        assert(occs.deep_view().last() == latest@);
    }
    let deprecated_since = if latest.revision < n && n - latest.revision > 1 {
        Some(history[latest.revision + 1].0.dup())
    } else {
        None
    };
    AggregateColumn {
        column: column.dup(),
        label: latest.label.dup(),
        ty,
        arity,
        scope: latest.scope.dup(),
        deprecated_since,
    }
}

fn aggregate_columns(history: &[(RevisionId, &Schema)], nomenclatures: &NomenclatureTable) -> (r:
    Result<
        (OrderedMap<ColumnId, AggregateColumn>, Vec<(ColumnId, AggregatePolicy)>),
        CastError,
    >)
    ensures
        match r {
            Ok((m, entries)) => aggregated(
                collections::key_order::<ColumnId>(columns_seen(history_model(history@))),
                history_model(history@),
                nomenclatures@,
            ) == Ok::<_, CastErrorModel>((m@, entries.deep_view())),
            Err(e) => aggregated(
                collections::key_order::<ColumnId>(columns_seen(history_model(history@))),
                history_model(history@),
                nomenclatures@,
            ) == Err::<
                (Map<Seq<char>, AggregateColumnModel>, Seq<(Seq<char>, AggregatePolicy)>),
                _,
            >(e@),
        },
{
    let ghost h = history_model(history@);
    let seen = find_columns(history);
    let n = seen.len();
    let ghost keys = seen.items();
    let mut m: OrderedMap<ColumnId, AggregateColumn> = OrderedMap::new();
    let mut entries: Vec<(ColumnId, AggregatePolicy)> = Vec::new();
    let mut i: usize = 0;
    assert(keys.take(0) =~= Seq::<Seq<char>>::empty());
    assert(entries.deep_view() =~= Seq::<(Seq<char>, AggregatePolicy)>::empty());
    while i < n
        invariant
            i <= n == keys.len(),
            keys == seen.items(),
            collections::lists::<ColumnId>(keys, seen@),
            seen@ == columns_seen(h),
            h == history_model(history@),
            aggregated(keys.take(i as int), h, nomenclatures@) == Ok::<
                (Map<Seq<char>, AggregateColumnModel>, Seq<(Seq<char>, AggregatePolicy)>),
                CastErrorModel,
            >((m@, entries.deep_view())),
        decreases n - i,
    {
        proof {
            assert(keys.take(i + 1).drop_last() =~= keys.take(i as int));
            assert(keys.contains(keys[i as int]));
        }
        let column = seen.at(i);
        let occs = find_occurrences(history, column);
        proof {
            seen_occurs(h, column@);
            assert(occs.deep_view().len() == occs@.len());
            latest_is_in_its_scope(
                occs.deep_view(),
                |o: OccurrenceModel| o.scope == occs.deep_view().last().scope,
            );
        }
        let in_scope = find_in_scope(&occs);
        assert(in_scope.deep_view().len() == in_scope@.len());
        let joined = match join_all(&in_scope, nomenclatures) {
            Ok(j) => j,
            Err(e) => {
                proof {
                    aggregated_stops(keys, h, nomenclatures@, i + 1);
                }
                return Err(e);
            },
        };
        report_policies(column, &occs, &joined, &mut entries);
        if let Some((ty, arity, _)) = joined {
            m.insert(column.dup(), make_column(history, column, &occs, ty, arity));
        }
        i += 1;
    }
    assert(keys.take(n as int) =~= keys);
    Ok((m, entries))
}

fn list_columns(order: &Vec<ColumnId>, m: &OrderedMap<ColumnId, AggregateColumn>) -> (r: Vec<
    AggregateColumn,
>)
    ensures
        r.deep_view() == listed_columns(order.deep_view(), m@),
{
    let ghost o = order.deep_view();
    let mut r: Vec<AggregateColumn> = Vec::new();
    let mut done: OrderedSet<ColumnId> = OrderedSet::new();
    let mut i: usize = 0;
    assert(o.take(0) =~= Seq::<Seq<char>>::empty());
    assert(r.deep_view() =~= Seq::<AggregateColumnModel>::empty());
    while i < order.len()
        invariant
            i <= order@.len(),
            o == order.deep_view(),
            r.deep_view() == listed_columns(o.take(i as int), m@),
            forall|c: Seq<char>| #[trigger] done@.contains(c) <==> o.take(i as int).contains(c),
        decreases order@.len() - i,
    {
        let c = &order[i];
        let ghost before = o.take(i as int);
        let ghost after = o.take(i + 1);
        proof {
            assert(after.drop_last() =~= before);
            assert(after.last() == c@);
            assert forall|x: Seq<char>| after.contains(x) <==> before.contains(x) || x == c@ by {
                if after.contains(x) {
                    let k = after.index_of(x);
                    if k < i {
                        assert(before[k] == x);
                    }
                }
                if before.contains(x) {
                    assert(after[before.index_of(x)] == x);
                }
                assert(after[i as int] == c@);
            }
        }
        if let Some(a) = m.get(c) {
            if !done.contains(c) {
                let ghost had = r.deep_view();
                r.push(a.dup());
                assert(r.deep_view() =~= had.push(a@));
            }
        }
        done.insert(c.dup());
        i += 1;
    }
    assert(o.take(o.len() as int) =~= o);
    r
}

fn push_old(
    order: &Vec<ColumnId>,
    m: &OrderedMap<ColumnId, AggregateColumn>,
    history: &[(RevisionId, &Schema)],
    revision: usize,
    out: &mut Vec<AggregateColumn>,
)
    ensures
        final(out).deep_view() == old(out).deep_view() + values_at(
            impact::kept(
                collections::key_order::<ColumnId>(m@.dom()),
                is_old_since(order.deep_view(), history_model(history@), revision as int),
            ),
            m@,
        ),
{
    let ghost h = history_model(history@);
    let ghost keep = is_old_since(order.deep_view(), h, revision as int);
    let ghost start = out.deep_view();
    let n = m.len();
    let ghost keys = m.keys();
    let mut i: usize = 0;
    assert(keys.take(0) =~= Seq::<Seq<char>>::empty());
    assert(start =~= start + values_at(impact::kept(keys.take(0), keep), m@));
    while i < n
        invariant
            i <= n == keys.len(),
            keys == m.keys(),
            h == history_model(history@),
            keep == is_old_since(order.deep_view(), h, revision as int),
            start == old(out).deep_view(),
            out.deep_view() == start + values_at(impact::kept(keys.take(i as int), keep), m@),
        decreases n - i,
    {
        let column = m.key_at(i);
        let ghost before = impact::kept(keys.take(i as int), keep);
        proof {
            assert(keys.take(i + 1).drop_last() =~= keys.take(i as int));
            assert(keys.take(i + 1).last() == column@);
        }
        if !contains_model(order, column) {
            let occs = find_occurrences(history, column);
            assert(occs.deep_view().len() == occs@.len());
            if occs.len() > 0 {
                assert(occs.deep_view()[0] == occs@[0]@);
                if occs[0].revision == revision {
                    let ghost had = out.deep_view();
                    out.push(m.value_at(i).dup());
                    proof {
                        assert(out.deep_view() =~= had.push(m@[column@]));
                        assert(values_at(before.push(column@), m@) =~= values_at(before, m@).push(
                            m@[column@],
                        ));
                        assert(out.deep_view() =~= start + values_at(before.push(column@), m@));
                    }
                }
            }
        }
        i += 1;
    }
    assert(keys.take(n as int) =~= keys);
}

/// Builds the aggregate of a history, oldest revision first.
pub fn aggregate(history: &[(RevisionId, &Schema)], nomenclatures: &NomenclatureTable) -> (r:
    Result<(AggregateRevision, AggregateReport), CastError>)
    ensures
        order::result_model(r) == aggregate_of(history_model(history@), nomenclatures@),
{
    let ghost h = history_model(history@);
    let (m, entries) = match aggregate_columns(history, nomenclatures) {
        Ok(x) => x,
        Err(e) => {
            return Err(e);
        },
    };
    let n = history.len();
    let order: Vec<ColumnId> = if n > 0 {
        assert(h.last() == (history@[n - 1].0@, history@[n - 1].1@));
        column_order(history[n - 1].1)
    } else {
        let none: Vec<ColumnId> = Vec::new();
        assert(none.deep_view() =~= Seq::<Seq<char>>::empty());
        none
    };
    assert(order.deep_view() == latest_order(h));
    let mut columns = list_columns(&order, &m);
    let ghost first = columns.deep_view();
    let mut i: usize = 0;
    assert(columns.deep_view() =~= first + old_columns(order.deep_view(), m@, h, 0));
    while i < n
        invariant
            i <= n == history@.len(),
            h == history_model(history@),
            columns.deep_view() == first + old_columns(order.deep_view(), m@, h, i as nat),
        decreases n - i,
    {
        let ghost so_far = old_columns(order.deep_view(), m@, h, i as nat);
        push_old(&order, &m, history, i, &mut columns);
        assert(columns.deep_view() =~= first + old_columns(
            order.deep_view(),
            m@,
            h,
            (i + 1) as nat,
        ));
        i += 1;
    }
    Ok((AggregateRevision { columns }, AggregateReport { entries }))
}

proof fn join_bounds_each(
    occs: Seq<OccurrenceModel>,
    noms: Map<(Seq<char>, u32), Seq<OptionRowModel>>,
    i: int,
)
    requires
        0 <= i < occs.len(),
        joined_type(occs, noms) matches Ok(Some(_)),
    ensures
        joined_type(occs, noms) matches Ok(Some((ty, arity, _))) ==> cast::reaches(occs[i].ty, ty) && (
        occs[i].arity == Arity::Many ==> arity == Arity::Many),
    decreases occs.len(),
{
    if occs.len() > 1 {
        let rest = occs.drop_last();
        let (ty, arity, via) = joined_type(rest, noms)->Ok_0->0;
        let last = occs.last();
        cast::join_is_reached(ty, last.ty, noms);
        if i < rest.len() {
            join_bounds_each(rest, noms, i);
            assert(rest[i] == occs[i]);
            cast::reaching_is_transitive(
                occs[i].ty,
                ty,
                (joined_type(occs, noms)->Ok_0->0).0,
            );
        }
    } else {
        let t = occs[0].ty;
        cast::join_is_reached(t, t, noms);
        assert(cast::one_type(t, t)) by {
            if let ScalarTypeModel::Attachment(c) = t {
                assert forall|k: int| 0 <= k < c.accept.len() implies c.names(
                    #[trigger] c.accept[k],
                ) by {
                    assert(schema::lower(c.accept[k]) == schema::lower(c.accept[k]));
                }
            }
        }
    }
}

proof fn kept_are_kept(
    occs: Seq<OccurrenceModel>,
    keep: spec_fn(OccurrenceModel) -> bool,
    i: int,
)
    requires
        0 <= i < occs.len(),
        keep(occs[i]),
    ensures
        impact::kept(occs, keep).contains(occs[i]),
    decreases occs.len(),
{
    let rest = occs.drop_last();
    let all = impact::kept(occs, keep);
    if i == occs.len() - 1 {
        assert(all[all.len() - 1] == occs[i]);
    } else {
        kept_are_kept(rest, keep, i);
        assert(rest[i] == occs[i]);
        let j = impact::kept(rest, keep).index_of(occs[i]);
        assert(all[j] == occs[i]);
    }
}

proof fn aggregated_holds(
    keys: Seq<Seq<char>>,
    history: Seq<(Seq<char>, SchemaModel)>,
    noms: Map<(Seq<char>, u32), Seq<OptionRowModel>>,
    column: Seq<char>,
)
    requires
        aggregated(keys, history, noms) matches Ok((m, _)) && m.dom().contains(column),
    ensures
        joined_type(in_latest_scope(occurrences(history, column)), noms) matches Ok(Some((ty, arity, _)))
            && (aggregated(keys, history, noms)->Ok_0).0[column] == aggregate_column(
            history,
            column,
            ty,
            arity,
        ),
    decreases keys.len(),
{
    if keys.len() > 0 && keys.last() != column {
        aggregated_holds(keys.drop_last(), history, noms, column);
    } else if keys.len() > 0 {
        let (m, entries) = aggregated(keys.drop_last(), history, noms)->Ok_0;
        if joined_type(in_latest_scope(occurrences(history, column)), noms) matches Ok(None) {
            aggregated_holds(keys.drop_last(), history, noms, column);
        }
    }
}

/// A column's aggregate type is an upper bound of its types in the
/// widening order: whatever revision a record was written under, its
/// cells reach the aggregate from the column's latest scope.
pub proof fn aggregate_is_an_upper_bound(
    history: Seq<(Seq<char>, SchemaModel)>,
    noms: Map<(Seq<char>, u32), Seq<OptionRowModel>>,
    column: Seq<char>,
    i: int,
)
    requires
        aggregated(collections::key_order::<ColumnId>(columns_seen(history)), history, noms) matches Ok((m, _))
            && m.dom().contains(column),
        0 <= i < occurrences(history, column).len(),
        occurrences(history, column)[i].scope == occurrences(history, column).last().scope,
    ensures
        cast::reaches(
            occurrences(history, column)[i].ty,
            (aggregated(
                collections::key_order::<ColumnId>(columns_seen(history)),
                history,
                noms,
            )->Ok_0).0[column].ty,
        ),
{
    let occs = occurrences(history, column);
    let keep = |o: OccurrenceModel| o.scope == occs.last().scope;
    aggregated_holds(collections::key_order::<ColumnId>(columns_seen(history)), history, noms, column);
    kept_are_kept(occs, keep, i);
    let list = in_latest_scope(occs);
    let j = list.index_of(occs[i]);
    join_bounds_each(list, noms, j);
}

} // verus!
