//! Typed conformance: whether a record's values fit a schema.
//!
//! Type-level checking only. Nothing here knows about required fields,
//! visibility or admissibility.

use vstd::prelude::*;
use crate::cast;
use crate::collections;
use crate::order;
use crate::schema;
use crate::value;
use crate::canonical::same_text;
use crate::cast::{CastError, CastErrorModel, NomenclatureTable, nomenclature_rows, row_has_option};
use crate::collections::OrderedMap;
use crate::ids::{ColumnId, GroupId, ItemId, NomenclatureId, OptionId, PathSegModel, RowPath};
use crate::order::{Modeled, contains_model};
use crate::schema::{
    Arity, Cardinality, Column, Group, OptionRowModel, PlacedModel, ScalarType, ScalarTypeModel,
    Schema, SchemaModel, Shell, ShellModel,
};
use crate::value::{
    CellAddr, CellAddrModel, CellState, CellStateModel, CellValue, CellValueModel, ItemsAddr,
    ItemsAddrModel, RecordValues, RecordValuesModel, Scalar, ScalarModel,
};

verus! {

/// Why a record does not conform.
#[derive(Clone, Debug, PartialEq, Eq)]
pub enum ConformanceError {
    UnknownColumn(ColumnId),
    /// The cell's row path is not the chain of `many` groups that
    /// encloses the column.
    ScopeMismatch(ColumnId),
    /// A path segment names an item absent from its group's item list.
    UnknownItem(ColumnId, GroupId),
    ArityMismatch(ColumnId),
    TypeMismatch(ColumnId),
    /// An enum cell holds an id absent from its nomenclature.
    UnknownOption(ColumnId, OptionId),
    /// A published nomenclature is not in the table at hand.
    UnknownNomenclature(ColumnId, NomenclatureId),
    /// Two elements of one `many` cell have one identity.
    DuplicateElement(ColumnId),
    /// A blank `many` cell is empty, never a list without elements.
    EmptyList(ColumnId),
    UnknownGroup(GroupId),
    /// An item list of a group that is not `many`, or whose parent path
    /// is not the group's scope.
    MisplacedItems(GroupId),
    DuplicateItem(GroupId),
}

/// The model of [`ConformanceError`].
#[verifier::ext_equal]
pub enum ConformanceErrorModel {
    UnknownColumn(Seq<char>),
    ScopeMismatch(Seq<char>),
    UnknownItem(Seq<char>, Seq<char>),
    ArityMismatch(Seq<char>),
    TypeMismatch(Seq<char>),
    UnknownOption(Seq<char>, Seq<char>),
    UnknownNomenclature(Seq<char>, Seq<char>),
    DuplicateElement(Seq<char>),
    EmptyList(Seq<char>),
    UnknownGroup(Seq<char>),
    MisplacedItems(Seq<char>),
    DuplicateItem(Seq<char>),
}

impl DeepView for ConformanceError {
    type V = ConformanceErrorModel;

    open spec fn deep_view(&self) -> ConformanceErrorModel {
        match self {
            ConformanceError::UnknownColumn(x) => ConformanceErrorModel::UnknownColumn(x.deep_view()),
            ConformanceError::ScopeMismatch(x) => ConformanceErrorModel::ScopeMismatch(x.deep_view()),
            ConformanceError::UnknownItem(x0, x1) => ConformanceErrorModel::UnknownItem(x0.deep_view(), x1.deep_view()),
            ConformanceError::ArityMismatch(x) => ConformanceErrorModel::ArityMismatch(x.deep_view()),
            ConformanceError::TypeMismatch(x) => ConformanceErrorModel::TypeMismatch(x.deep_view()),
            ConformanceError::UnknownOption(x0, x1) => ConformanceErrorModel::UnknownOption(x0.deep_view(), x1.deep_view()),
            ConformanceError::UnknownNomenclature(x0, x1) => ConformanceErrorModel::UnknownNomenclature(x0.deep_view(), x1.deep_view()),
            ConformanceError::DuplicateElement(x) => ConformanceErrorModel::DuplicateElement(x.deep_view()),
            ConformanceError::EmptyList(x) => ConformanceErrorModel::EmptyList(x.deep_view()),
            ConformanceError::UnknownGroup(x) => ConformanceErrorModel::UnknownGroup(x.deep_view()),
            ConformanceError::MisplacedItems(x) => ConformanceErrorModel::MisplacedItems(x.deep_view()),
            ConformanceError::DuplicateItem(x) => ConformanceErrorModel::DuplicateItem(x.deep_view()),
        }
    }
}

impl View for ConformanceError {
    type V = ConformanceErrorModel;

    open spec fn view(&self) -> ConformanceErrorModel {
        self.deep_view()
    }
}

impl Modeled for ConformanceError {
    fn dup(&self) -> (r: Self) {
        match self {
            ConformanceError::UnknownColumn(x) => ConformanceError::UnknownColumn(x.dup()),
            ConformanceError::ScopeMismatch(x) => ConformanceError::ScopeMismatch(x.dup()),
            ConformanceError::UnknownItem(x0, x1) => ConformanceError::UnknownItem(x0.dup(), x1.dup()),
            ConformanceError::ArityMismatch(x) => ConformanceError::ArityMismatch(x.dup()),
            ConformanceError::TypeMismatch(x) => ConformanceError::TypeMismatch(x.dup()),
            ConformanceError::UnknownOption(x0, x1) => ConformanceError::UnknownOption(x0.dup(), x1.dup()),
            ConformanceError::UnknownNomenclature(x0, x1) => ConformanceError::UnknownNomenclature(x0.dup(), x1.dup()),
            ConformanceError::DuplicateElement(x) => ConformanceError::DuplicateElement(x.dup()),
            ConformanceError::EmptyList(x) => ConformanceError::EmptyList(x.dup()),
            ConformanceError::UnknownGroup(x) => ConformanceError::UnknownGroup(x.dup()),
            ConformanceError::MisplacedItems(x) => ConformanceError::MisplacedItems(x.dup()),
            ConformanceError::DuplicateItem(x) => ConformanceError::DuplicateItem(x.dup()),
        }
    }

    fn same(&self, other: &Self) -> (b: bool) {
        match (self, other) {
            (ConformanceError::UnknownColumn(x), ConformanceError::UnknownColumn(y)) => x.same(y),
            (ConformanceError::ScopeMismatch(x), ConformanceError::ScopeMismatch(y)) => x.same(y),
            (ConformanceError::UnknownItem(x0, x1), ConformanceError::UnknownItem(y0, y1)) => x0.same(y0) && x1.same(y1),
            (ConformanceError::ArityMismatch(x), ConformanceError::ArityMismatch(y)) => x.same(y),
            (ConformanceError::TypeMismatch(x), ConformanceError::TypeMismatch(y)) => x.same(y),
            (ConformanceError::UnknownOption(x0, x1), ConformanceError::UnknownOption(y0, y1)) => x0.same(y0) && x1.same(y1),
            (ConformanceError::UnknownNomenclature(x0, x1), ConformanceError::UnknownNomenclature(y0, y1)) => x0.same(y0) && x1.same(y1),
            (ConformanceError::DuplicateElement(x), ConformanceError::DuplicateElement(y)) => x.same(y),
            (ConformanceError::EmptyList(x), ConformanceError::EmptyList(y)) => x.same(y),
            (ConformanceError::UnknownGroup(x), ConformanceError::UnknownGroup(y)) => x.same(y),
            (ConformanceError::MisplacedItems(x), ConformanceError::MisplacedItems(y)) => x.same(y),
            (ConformanceError::DuplicateItem(x), ConformanceError::DuplicateItem(y)) => x.same(y),
            _ => false,
        }
    }
}

/// What a schema says of a column.
#[derive(Clone, Debug, PartialEq, Eq)]
pub struct ColumnInfo {
    pub ty: ScalarType,
    pub arity: Arity,
    /// Enclosing `many` groups, outermost first.
    pub scope: Vec<GroupId>,
}

/// The model of [`ColumnInfo`].
#[verifier::ext_equal]
pub struct ColumnInfoModel {
    pub ty: ScalarTypeModel,
    pub arity: Arity,
    pub scope: Seq<Seq<char>>,
}

impl DeepView for ColumnInfo {
    type V = ColumnInfoModel;

    open spec fn deep_view(&self) -> ColumnInfoModel {
        ColumnInfoModel {
            ty: self.ty.deep_view(),
            arity: self.arity.deep_view(),
            scope: self.scope.deep_view(),
        }
    }
}

impl View for ColumnInfo {
    type V = ColumnInfoModel;

    open spec fn view(&self) -> ColumnInfoModel {
        self.deep_view()
    }
}

impl Modeled for ColumnInfo {
    fn dup(&self) -> (r: Self) {
        ColumnInfo {
            ty: self.ty.dup(),
            arity: self.arity.dup(),
            scope: self.scope.dup(),
        }
    }

    fn same(&self, other: &Self) -> (b: bool) {
        self.ty.same(&other.ty)
            && self.arity.same(&other.arity)
            && self.scope.same(&other.scope)
    }
}

/// What a schema says of a group.
#[derive(Clone, Debug, PartialEq, Eq)]
pub struct GroupInfo {
    pub cardinality: Cardinality,
    /// `many` groups that enclose this one, outermost first.
    pub parent_scope: Vec<GroupId>,
}

/// The model of [`GroupInfo`].
#[verifier::ext_equal]
pub struct GroupInfoModel {
    pub cardinality: Cardinality,
    pub parent_scope: Seq<Seq<char>>,
}

impl DeepView for GroupInfo {
    type V = GroupInfoModel;

    open spec fn deep_view(&self) -> GroupInfoModel {
        GroupInfoModel {
            cardinality: self.cardinality.deep_view(),
            parent_scope: self.parent_scope.deep_view(),
        }
    }
}

impl View for GroupInfo {
    type V = GroupInfoModel;

    open spec fn view(&self) -> GroupInfoModel {
        self.deep_view()
    }
}

impl Modeled for GroupInfo {
    fn dup(&self) -> (r: Self) {
        GroupInfo {
            cardinality: self.cardinality.dup(),
            parent_scope: self.parent_scope.dup(),
        }
    }

    fn same(&self, other: &Self) -> (b: bool) {
        self.cardinality.same(&other.cardinality)
            && self.parent_scope.same(&other.parent_scope)
    }
}

/// A schema's columns and groups by identity. Of two elements with one
/// identity the later counts.
#[derive(Clone, Debug, PartialEq, Eq)]
pub struct SchemaIndex {
    pub columns: OrderedMap<ColumnId, ColumnInfo>,
    pub groups: OrderedMap<GroupId, GroupInfo>,
}

/// The model of [`SchemaIndex`].
#[verifier::ext_equal]
pub struct SchemaIndexModel {
    pub columns: Map<Seq<char>, ColumnInfoModel>,
    pub groups: Map<Seq<char>, GroupInfoModel>,
}

impl DeepView for SchemaIndex {
    type V = SchemaIndexModel;

    open spec fn deep_view(&self) -> SchemaIndexModel {
        SchemaIndexModel {
            columns: self.columns.deep_view(),
            groups: self.groups.deep_view(),
        }
    }
}

impl View for SchemaIndex {
    type V = SchemaIndexModel;

    open spec fn view(&self) -> SchemaIndexModel {
        self.deep_view()
    }
}

impl Modeled for SchemaIndex {
    fn dup(&self) -> (r: Self) {
        SchemaIndex {
            columns: self.columns.dup(),
            groups: self.groups.dup(),
        }
    }

    fn same(&self, other: &Self) -> (b: bool) {
        self.columns.same(&other.columns)
            && self.groups.same(&other.groups)
    }
}

/// The index of a list of elements.
pub open spec fn index_of(s: Seq<PlacedModel>) -> SchemaIndexModel
    decreases s.len(),
{
    if s.len() == 0 {
        SchemaIndexModel { columns: Map::empty(), groups: Map::empty() }
    } else {
        let rest = index_of(s.drop_last());
        match s.last().shell {
            ShellModel::Column(c) => SchemaIndexModel {
                columns: rest.columns.insert(
                    c.id,
                    ColumnInfoModel { ty: c.ty, arity: c.arity, scope: s.last().scope },
                ),
                groups: rest.groups,
            },
            ShellModel::Group(g) => SchemaIndexModel {
                columns: rest.columns,
                groups: rest.groups.insert(
                    g.id,
                    GroupInfoModel { cardinality: g.cardinality, parent_scope: s.last().scope },
                ),
            },
        }
    }
}

/// The index of a schema.
pub open spec fn schema_index(s: SchemaModel) -> SchemaIndexModel {
    index_of(schema::schema_elements(s))
}

impl SchemaIndex {
    pub fn build(schema: &Schema) -> (r: Self)
        ensures
            r@ == schema_index(schema@),
    {
        let elements = schema.elements();
        let ghost s = elements.deep_view();
        let mut columns: OrderedMap<ColumnId, ColumnInfo> = OrderedMap::new();
        let mut groups: OrderedMap<GroupId, GroupInfo> = OrderedMap::new();
        let mut i: usize = 0;
        assert(s.take(0) =~= Seq::<PlacedModel>::empty());
        while i < elements.len()
            invariant
                i <= elements@.len(),
                s == elements.deep_view(),
                columns@ == index_of(s.take(i as int)).columns,
                groups@ == index_of(s.take(i as int)).groups,
            decreases elements@.len() - i,
        {
            let e = &elements[i];
            proof {
                assert(s.take(i + 1).drop_last() =~= s.take(i as int));
                assert(s.take(i + 1).last() == e@);
            }
            match &e.shell {
                Shell::Column(c) => {
                    columns.insert(
                        c.id.dup(),
                        ColumnInfo { ty: c.ty.dup(), arity: c.arity, scope: e.scope.dup() },
                    );
                },
                Shell::Group(g) => {
                    groups.insert(
                        g.id.dup(),
                        GroupInfo { cardinality: g.cardinality, parent_scope: e.scope.dup() },
                    );
                },
            }
            i += 1;
        }
        assert(s.take(s.len() as int) =~= s);
        SchemaIndex { columns, groups }
    }
}

proof fn index_of_is_finite(s: Seq<PlacedModel>)
    ensures
        index_of(s).columns.dom().finite(),
        index_of(s).groups.dom().finite(),
    decreases s.len(),
{
    if s.len() > 0 {
        index_of_is_finite(s.drop_last());
    }
}

/// A schema has finitely many columns and groups.
pub proof fn index_is_finite(s: SchemaModel)
    ensures
        schema_index(s).columns.dom().finite(),
        schema_index(s).groups.dom().finite(),
{
    index_of_is_finite(schema::schema_elements(s));
}

/// The groups that a row path passes through.
pub open spec fn path_groups(path: Seq<PathSegModel>) -> Seq<Seq<char>> {
    Seq::new(path.len(), |i: int| path[i].group)
}

/// Whether a row path passes through exactly the groups of a scope.
pub fn path_is_in_scope(path: &RowPath, scope: &Vec<GroupId>) -> (r: bool)
    ensures
        r == (path_groups(path@) == scope.deep_view()),
{
    let segments = path.segments();
    if segments.len() != scope.len() {
        assert(path_groups(path@).len() != scope.deep_view().len());
        return false;
    }
    let mut i: usize = 0;
    while i < scope.len()
        invariant
            i <= scope@.len() == segments@.len(),
            order::models(segments@) == path@,
            forall|j: int| 0 <= j < i ==> #[trigger] path@[j].group == scope@[j].deep_view(),
        decreases scope@.len() - i,
    {
        assert(path@[i as int] == segments@[i as int].deep_view());
        if !segments[i].group.same(&scope[i]) {
            assert(path_groups(path@)[i as int] != scope.deep_view()[i as int]);
            return false;
        }
        i += 1;
    }
    assert(path_groups(path@) =~= scope.deep_view());
    true
}

/// The errors of one scalar against a column's type.
pub open spec fn scalar_errors(
    scalar: ScalarModel,
    ty: ScalarTypeModel,
    column: Seq<char>,
    noms: Map<(Seq<char>, u32), Seq<OptionRowModel>>,
) -> Seq<ConformanceErrorModel> {
    match (scalar, ty) {
        (ScalarModel::Text(_), ScalarTypeModel::Text) => Seq::empty(),
        (ScalarModel::Boolean(_), ScalarTypeModel::Boolean) => Seq::empty(),
        (ScalarModel::Integer(_), ScalarTypeModel::Integer(_)) => Seq::empty(),
        (ScalarModel::Decimal(_), ScalarTypeModel::Decimal(_)) => Seq::empty(),
        (ScalarModel::Date(_), ScalarTypeModel::Date) => Seq::empty(),
        (ScalarModel::Datetime(_), ScalarTypeModel::Datetime) => Seq::empty(),
        (ScalarModel::Attachment(_), ScalarTypeModel::Attachment(_)) => Seq::empty(),
        (ScalarModel::Geometry(_), ScalarTypeModel::Geometry) => Seq::empty(),
        (ScalarModel::Enum(option), ScalarTypeModel::Enum(nref)) => match cast::rows_of(nref, noms) {
            Err(CastErrorModel::UnknownNomenclature(id, _)) => seq![
                ConformanceErrorModel::UnknownNomenclature(column, id),
            ],
            Ok(rows) => if cast::has_option(rows, option) {
                Seq::empty()
            } else {
                seq![ConformanceErrorModel::UnknownOption(column, option)]
            },
        },
        _ => seq![ConformanceErrorModel::TypeMismatch(column)],
    }
}

/// Whether some element of a list has the identity `id`.
pub open spec fn has_element(s: Seq<ScalarModel>, id: Seq<char>) -> bool {
    exists|i: int| 0 <= i < s.len() && (#[trigger] s[i]).element_id() == Some(id)
}

/// Whether an element of a list has the identity of an earlier one.
pub open spec fn is_repeated(s: Seq<ScalarModel>, j: int) -> bool {
    s[j].element_id() matches Some(id) && has_element(s.take(j), id)
}

/// Whether two elements of a list have one identity.
pub open spec fn repeats_element(s: Seq<ScalarModel>) -> bool {
    exists|j: int| 0 <= j < s.len() && #[trigger] is_repeated(s, j)
}

/// The errors of a list's elements, in order.
pub open spec fn element_list_errors(
    s: Seq<ScalarModel>,
    ty: ScalarTypeModel,
    column: Seq<char>,
    noms: Map<(Seq<char>, u32), Seq<OptionRowModel>>,
) -> Seq<ConformanceErrorModel>
    decreases s.len(),
{
    if s.len() == 0 {
        Seq::empty()
    } else {
        let earlier = s.drop_last();
        element_list_errors(earlier, ty, column, noms) + scalar_errors(s.last(), ty, column, noms)
            + match s.last().element_id() {
            Some(id) if has_element(earlier, id) => seq![
                ConformanceErrorModel::DuplicateElement(column),
            ],
            _ => Seq::empty(),
        }
    }
}

/// The errors of a cell's state against its column.
pub open spec fn state_errors(
    state: CellStateModel,
    info: ColumnInfoModel,
    column: Seq<char>,
    noms: Map<(Seq<char>, u32), Seq<OptionRowModel>>,
) -> Seq<ConformanceErrorModel> {
    match (state, info.arity) {
        (CellStateModel::Empty, _) => Seq::empty(),
        (CellStateModel::Value(CellValueModel::One(s)), Arity::One) => scalar_errors(
            s,
            info.ty,
            column,
            noms,
        ),
        (CellStateModel::Value(CellValueModel::Many(s)), Arity::Many) => if s.len() == 0 {
            seq![ConformanceErrorModel::EmptyList(column)]
        } else {
            element_list_errors(s, info.ty, column, noms)
        },
        _ => seq![ConformanceErrorModel::ArityMismatch(column)],
    }
}

/// One error for each path segment whose item is in no list.
pub open spec fn missing_items(
    column: Seq<char>,
    path: Seq<PathSegModel>,
    items: Map<ItemsAddrModel, Seq<Seq<char>>>,
) -> Seq<ConformanceErrorModel>
    decreases path.len(),
{
    if path.len() == 0 {
        Seq::empty()
    } else {
        let parent = path.drop_last();
        let seg = path.last();
        missing_items(column, parent, items) + if value::list_at(
            items,
            ItemsAddrModel { group: seg.group, parent },
        ).contains(seg.item) {
            Seq::empty()
        } else {
            seq![ConformanceErrorModel::UnknownItem(column, seg.group)]
        }
    }
}

/// The errors of one cell.
pub open spec fn cell_errors(
    addr: CellAddrModel,
    state: CellStateModel,
    items: Map<ItemsAddrModel, Seq<Seq<char>>>,
    columns: Map<Seq<char>, ColumnInfoModel>,
    noms: Map<(Seq<char>, u32), Seq<OptionRowModel>>,
) -> Seq<ConformanceErrorModel> {
    if !columns.dom().contains(addr.column) {
        seq![ConformanceErrorModel::UnknownColumn(addr.column)]
    } else if path_groups(addr.path) != columns[addr.column].scope {
        seq![ConformanceErrorModel::ScopeMismatch(addr.column)]
    } else {
        missing_items(addr.column, addr.path, items) + state_errors(
            state,
            columns[addr.column],
            addr.column,
            noms,
        )
    }
}

/// The errors of a record's cells, in address order.
pub open spec fn cells_errors(
    keys: Seq<CellAddrModel>,
    v: RecordValuesModel,
    columns: Map<Seq<char>, ColumnInfoModel>,
    noms: Map<(Seq<char>, u32), Seq<OptionRowModel>>,
) -> Seq<ConformanceErrorModel>
    decreases keys.len(),
{
    if keys.len() == 0 {
        Seq::empty()
    } else {
        cells_errors(keys.drop_last(), v, columns, noms) + cell_errors(
            keys.last(),
            v.cells[keys.last()],
            v.items,
            columns,
            noms,
        )
    }
}

/// One error for each item that stands earlier in the list too.
pub open spec fn repeated_items(group: Seq<char>, list: Seq<Seq<char>>) -> Seq<
    ConformanceErrorModel,
>
    decreases list.len(),
{
    if list.len() == 0 {
        Seq::empty()
    } else {
        repeated_items(group, list.drop_last()) + if list.drop_last().contains(list.last()) {
            seq![ConformanceErrorModel::DuplicateItem(group)]
        } else {
            Seq::empty()
        }
    }
}

/// The error of a list that stands where it cannot.
pub open spec fn list_place_errors(
    addr: ItemsAddrModel,
    groups: Map<Seq<char>, GroupInfoModel>,
) -> Seq<ConformanceErrorModel> {
    if !groups.dom().contains(addr.group) {
        seq![ConformanceErrorModel::UnknownGroup(addr.group)]
    } else if groups[addr.group].cardinality != Cardinality::Many || path_groups(addr.parent)
        != groups[addr.group].parent_scope {
        seq![ConformanceErrorModel::MisplacedItems(addr.group)]
    } else {
        Seq::empty()
    }
}

/// The errors of a record's item lists, in address order.
pub open spec fn lists_errors(
    keys: Seq<ItemsAddrModel>,
    items: Map<ItemsAddrModel, Seq<Seq<char>>>,
    groups: Map<Seq<char>, GroupInfoModel>,
) -> Seq<ConformanceErrorModel>
    decreases keys.len(),
{
    if keys.len() == 0 {
        Seq::empty()
    } else {
        lists_errors(keys.drop_last(), items, groups) + list_place_errors(keys.last(), groups)
            + repeated_items(keys.last().group, items[keys.last()])
    }
}

/// The errors of a record against a schema: those of its item lists,
/// then those of its cells, each in address order.
pub open spec fn conformance_errors(
    v: RecordValuesModel,
    schema: SchemaModel,
    noms: Map<(Seq<char>, u32), Seq<OptionRowModel>>,
) -> Seq<ConformanceErrorModel> {
    let index = schema_index(schema);
    lists_errors(collections::key_order::<ItemsAddr>(v.items.dom()), v.items, index.groups) + cells_errors(
        collections::key_order::<CellAddr>(v.cells.dom()),
        v,
        index.columns,
        noms,
    )
}

fn scalar_conforms(
    scalar: &Scalar,
    ty: &ScalarType,
    column: &ColumnId,
    nomenclatures: &NomenclatureTable,
    errors: &mut Vec<ConformanceError>,
)
    ensures
        final(errors).deep_view() == old(errors).deep_view() + scalar_errors(
            scalar@,
            ty@,
            column@,
            nomenclatures@,
        ),
{
    let ghost had = errors.deep_view();
    let error = match (scalar, ty) {
        (Scalar::Text(_), ScalarType::Text) => None,
        (Scalar::Boolean(_), ScalarType::Boolean) => None,
        (Scalar::Integer(_), ScalarType::Integer(_)) => None,
        (Scalar::Decimal(_), ScalarType::Decimal(_)) => None,
        (Scalar::Date(_), ScalarType::Date) => None,
        (Scalar::Datetime(_), ScalarType::Datetime) => None,
        (Scalar::Attachment(_), ScalarType::Attachment(_)) => None,
        (Scalar::Geometry(_), ScalarType::Geometry) => None,
        (Scalar::Enum(option), ScalarType::Enum(nref)) => match nomenclature_rows(
            nref,
            nomenclatures,
        ) {
            Err(CastError::UnknownNomenclature(id, _)) => Some(
                ConformanceError::UnknownNomenclature(column.dup(), id),
            ),
            Ok(rows) => if row_has_option(rows, option) {
                None
            } else {
                Some(ConformanceError::UnknownOption(column.dup(), option.dup()))
            },
        },
        _ => Some(ConformanceError::TypeMismatch(column.dup())),
    };
    let ghost found = scalar_errors(scalar@, ty@, column@, nomenclatures@);
    match error {
        None => {
            assert(found =~= Seq::<ConformanceErrorModel>::empty());
            assert(had + found =~= had);
        },
        Some(e) => {
            assert(found =~= seq![e@]);
            let ghost m = e@;
            errors.push(e);
            assert(errors.deep_view() =~= had.push(m));
            assert(had + found =~= had.push(m));
        },
    }
}

fn element_seen(scalars: &Vec<Scalar>, upto: usize, id: &str) -> (r: bool)
    requires
        upto <= scalars@.len(),
    ensures
        r == has_element(scalars.deep_view().take(upto as int), id@),
{
    let ghost s = scalars.deep_view().take(upto as int);
    let mut i: usize = 0;
    while i < upto
        invariant
            i <= upto <= scalars@.len(),
            s == scalars.deep_view().take(upto as int),
            forall|j: int| 0 <= j < i ==> (#[trigger] s[j]).element_id() != Some(id@),
        decreases upto - i,
    {
        assert(s[i as int] == scalars@[i as int].deep_view());
        if let Some(other) = scalars[i].element_id() {
            if same_text(other, id) {
                return true;
            }
        }
        i += 1;
    }
    false
}

/// Whether two elements of a list have one identity.
pub fn has_repeats(scalars: &Vec<Scalar>) -> (r: bool)
    ensures
        r == repeats_element(scalars.deep_view()),
{
    let ghost s = scalars.deep_view();
    let mut i: usize = 0;
    while i < scalars.len()
        invariant
            i <= scalars@.len(),
            s == scalars.deep_view(),
            forall|j: int| 0 <= j < i ==> !(#[trigger] is_repeated(s, j)),
        decreases scalars@.len() - i,
    {
        assert(s[i as int] == scalars@[i as int].deep_view());
        if let Some(id) = scalars[i].element_id() {
            if element_seen(scalars, i, id) {
                assert(is_repeated(s, i as int));
                return true;
            }
        }
        i += 1;
    }
    false
}

/// The elements of a list fit their column where each fits it and no two
/// have one identity.
pub proof fn list_conforms_where_each_does(
    s: Seq<ScalarModel>,
    ty: ScalarTypeModel,
    column: Seq<char>,
    noms: Map<(Seq<char>, u32), Seq<OptionRowModel>>,
)
    ensures
        element_list_errors(s, ty, column, noms).len() == 0 <==> !repeats_element(s) && forall|
            i: int,
        |
            0 <= i < s.len() ==> scalar_errors(#[trigger] s[i], ty, column, noms).len() == 0,
    decreases s.len(),
{
    if s.len() > 0 {
        let rest = s.drop_last();
        let n = s.len() - 1;
        list_conforms_where_each_does(rest, ty, column, noms);
        assert(s[n] == s.last());
        assert(s.take(n) =~= rest);
        assert forall|j: int| 0 <= j < n implies is_repeated(rest, j) == #[trigger] is_repeated(
            s,
            j,
        ) by {
            assert(rest[j] == s[j]);
            assert(rest.take(j) =~= s.take(j));
        }
        let fits = element_list_errors(s, ty, column, noms).len() == 0;
        if fits {
            assert forall|i: int| 0 <= i < s.len() implies scalar_errors(
                #[trigger] s[i],
                ty,
                column,
                noms,
            ).len() == 0 by {
                if i < n {
                    assert(rest[i] == s[i]);
                }
            }
            if repeats_element(s) {
                let j = choose|j: int| 0 <= j < s.len() && #[trigger] is_repeated(s, j);
                if j < n {
                    assert(is_repeated(rest, j));
                }
            }
        }
        if !repeats_element(s) && forall|i: int|
            0 <= i < s.len() ==> scalar_errors(#[trigger] s[i], ty, column, noms).len() == 0 {
            assert(!is_repeated(s, n));
            if repeats_element(rest) {
                let j = choose|j: int| 0 <= j < rest.len() && #[trigger] is_repeated(rest, j);
                assert(is_repeated(s, j));
            }
            assert forall|i: int| 0 <= i < rest.len() implies scalar_errors(
                #[trigger] rest[i],
                ty,
                column,
                noms,
            ).len() == 0 by {
                assert(rest[i] == s[i]);
            }
        }
    }
}

fn elements_conform(
    scalars: &Vec<Scalar>,
    ty: &ScalarType,
    column: &ColumnId,
    nomenclatures: &NomenclatureTable,
    errors: &mut Vec<ConformanceError>,
)
    ensures
        final(errors).deep_view() == old(errors).deep_view() + element_list_errors(
            scalars.deep_view(),
            ty@,
            column@,
            nomenclatures@,
        ),
{
    let ghost s = scalars.deep_view();
    let ghost start = errors.deep_view();
    let mut i: usize = 0;
    assert(s.take(0) =~= Seq::<ScalarModel>::empty());
    assert(start + Seq::<ConformanceErrorModel>::empty() =~= start);
    while i < scalars.len()
        invariant
            i <= scalars@.len(),
            s == scalars.deep_view(),
            errors.deep_view() == start + element_list_errors(
                s.take(i as int),
                ty@,
                column@,
                nomenclatures@,
            ),
        decreases scalars@.len() - i,
    {
        let ghost before = element_list_errors(s.take(i as int), ty@, column@, nomenclatures@);
        let ghost mine = scalar_errors(s[i as int], ty@, column@, nomenclatures@);
        proof {
            assert(s.take(i + 1).drop_last() =~= s.take(i as int));
            assert(s.take(i + 1).last() == s[i as int]);
        }
        scalar_conforms(&scalars[i], ty, column, nomenclatures, errors);
        let ghost had = errors.deep_view();
        assert(had =~= start + (before + mine));
        let mut repeated = false;
        if let Some(id) = scalars[i].element_id() {
            repeated = element_seen(scalars, i, id);
        }
        if repeated {
            let e = ConformanceError::DuplicateElement(column.dup());
            let ghost m = e@;
            errors.push(e);
            assert(errors.deep_view() =~= had.push(m));
            assert(had.push(m) =~= start + (before + mine + seq![m]));
        } else {
            assert(before + mine + Seq::<ConformanceErrorModel>::empty() =~= before + mine);
        }
        i += 1;
    }
    assert(s.take(s.len() as int) =~= s);
}

fn path_items_exist(
    addr: &CellAddr,
    values: &RecordValues,
    errors: &mut Vec<ConformanceError>,
)
    ensures
        final(errors).deep_view() == old(errors).deep_view() + missing_items(
            addr@.column,
            addr@.path,
            values@.items,
        ),
{
    let segments = addr.path.segments();
    let ghost p = addr@.path;
    let ghost start = errors.deep_view();
    let mut i: usize = 0;
    assert(p.take(0) =~= Seq::<PathSegModel>::empty());
    assert(start + Seq::<ConformanceErrorModel>::empty() =~= start);
    while i < segments.len()
        invariant
            i <= segments@.len(),
            order::models(segments@) == p,
            p == addr@.path,
            errors.deep_view() == start + missing_items(
                addr@.column,
                p.take(i as int),
                values@.items,
            ),
        decreases segments@.len() - i,
    {
        let seg = &segments[i];
        let ghost before = missing_items(addr@.column, p.take(i as int), values@.items);
        let ghost had = errors.deep_view();
        let items_addr = ItemsAddr { group: seg.group.dup(), parent: addr.path.take(i) };
        proof {
            assert(p[i as int] == seg@);
            assert(p.take(i + 1).drop_last() =~= p.take(i as int));
            assert(p.take(i + 1).last() == seg@);
        }
        let exists_there = match values.items.get(&items_addr) {
            Some(list) => contains_model(list, &seg.item),
            None => false,
        };
        if !exists_there {
            let e = ConformanceError::UnknownItem(addr.column.dup(), seg.group.dup());
            let ghost m = e@;
            errors.push(e);
            assert(errors.deep_view() =~= had.push(m));
            assert(had.push(m) =~= start + (before + seq![m]));
        } else {
            assert(before + Seq::<ConformanceErrorModel>::empty() =~= before);
        }
        i += 1;
    }
    assert(p.take(p.len() as int) =~= p);
}

fn push_error(errors: &mut Vec<ConformanceError>, e: ConformanceError)
    ensures
        final(errors).deep_view() == old(errors).deep_view() + seq![e@],
{
    let ghost had = errors.deep_view();
    let ghost m = e@;
    errors.push(e);
    assert(errors.deep_view() =~= had + seq![m]);
}

fn cell_conforms(
    addr: &CellAddr,
    state: &CellState,
    values: &RecordValues,
    index: &SchemaIndex,
    nomenclatures: &NomenclatureTable,
    errors: &mut Vec<ConformanceError>,
)
    ensures
        final(errors).deep_view() == old(errors).deep_view() + cell_errors(
            addr@,
            state@,
            values@.items,
            index@.columns,
            nomenclatures@,
        ),
{
    let ghost start = errors.deep_view();
    match index.columns.get(&addr.column) {
        None => {
            push_error(errors, ConformanceError::UnknownColumn(addr.column.dup()));
        },
        Some(info) => {
            if !path_is_in_scope(&addr.path, &info.scope) {
                push_error(errors, ConformanceError::ScopeMismatch(addr.column.dup()));
                return;
            }
            path_items_exist(addr, values, errors);
            let ghost had = errors.deep_view();
            let ghost missing = missing_items(addr@.column, addr@.path, values@.items);
            let ghost mine = state_errors(state@, info@, addr@.column, nomenclatures@);
            match (state, info.arity) {
                (CellState::Empty, _) => {
                    assert(had + mine =~= had);
                },
                (CellState::Value(CellValue::One(scalar)), Arity::One) => {
                    scalar_conforms(scalar, &info.ty, &addr.column, nomenclatures, errors);
                },
                (CellState::Value(CellValue::Many(scalars)), Arity::Many) => {
                    if scalars.len() == 0 {
                        push_error(errors, ConformanceError::EmptyList(addr.column.dup()));
                    } else {
                        elements_conform(scalars, &info.ty, &addr.column, nomenclatures, errors);
                    }
                },
                _ => {
                    push_error(errors, ConformanceError::ArityMismatch(addr.column.dup()));
                },
            }
            assert(errors.deep_view() =~= had + mine);
            assert((start + missing) + mine =~= start + (missing + mine));
        },
    }
}

fn list_conforms(
    addr: &ItemsAddr,
    list: &Vec<ItemId>,
    index: &SchemaIndex,
    errors: &mut Vec<ConformanceError>,
)
    ensures
        final(errors).deep_view() == old(errors).deep_view() + (list_place_errors(
            addr@,
            index@.groups,
        ) + repeated_items(addr@.group, list.deep_view())),
{
    let ghost begin = errors.deep_view();
    let ghost misplaced = list_place_errors(addr@, index@.groups);
    match index.groups.get(&addr.group) {
        None => {
            push_error(errors, ConformanceError::UnknownGroup(addr.group.dup()));
        },
        Some(info) => {
            if info.cardinality != Cardinality::Many || !path_is_in_scope(
                &addr.parent,
                &info.parent_scope,
            ) {
                push_error(errors, ConformanceError::MisplacedItems(addr.group.dup()));
            }
        },
    }
    assert(errors.deep_view() =~= begin + misplaced);
    let ghost l = list.deep_view();
    let ghost start = errors.deep_view();
    let mut i: usize = 0;
    assert(l.take(0) =~= Seq::<Seq<char>>::empty());
    assert(start + Seq::<ConformanceErrorModel>::empty() =~= start);
    while i < list.len()
        invariant
            i <= list@.len(),
            l == list.deep_view(),
            errors.deep_view() == start + repeated_items(addr@.group, l.take(i as int)),
        decreases list@.len() - i,
    {
        let ghost before = repeated_items(addr@.group, l.take(i as int));
        proof {
            assert(l.take(i + 1).drop_last() =~= l.take(i as int));
            assert(l.take(i + 1).last() == l[i as int]);
        }
        let mut seen = false;
        let mut j: usize = 0;
        while j < i
            invariant
                j <= i < list@.len(),
                l == list.deep_view(),
                seen == l.take(j as int).contains(l[i as int]),
            decreases i - j,
        {
            proof {
                value::take_next(l, j as int);
            }
            if list[j].same(&list[i]) {
                seen = true;
            }
            assert(l[j as int] == list@[j as int].deep_view());
            j += 1;
        }
        if seen {
            push_error(errors, ConformanceError::DuplicateItem(addr.group.dup()));
        }
        assert(errors.deep_view() =~= start + repeated_items(addr@.group, l.take(i + 1)));
        i += 1;
    }
    proof {
        assert(l.take(l.len() as int) =~= l);
        let repeated = repeated_items(addr@.group, l);
        assert((begin + misplaced) + repeated =~= begin + (misplaced + repeated));
    }
}

/// Checks every cell and item list of a record against a schema.
pub fn check(
    values: &RecordValues,
    schema: &Schema,
    nomenclatures: &NomenclatureTable,
) -> (errors: Vec<ConformanceError>)
    ensures
        errors.deep_view() == conformance_errors(values@, schema@, nomenclatures@),
{
    let index = SchemaIndex::build(schema);
    let mut errors: Vec<ConformanceError> = Vec::new();
    let n = values.items.len();
    let ghost lists = values.items.keys();
    let mut i: usize = 0;
    assert(lists.take(0) =~= Seq::<ItemsAddrModel>::empty());
    assert(errors.deep_view() =~= Seq::<ConformanceErrorModel>::empty());
    while i < n
        invariant
            i <= n == lists.len(),
            lists == values.items.keys(),
            errors.deep_view() == lists_errors(
                lists.take(i as int),
                values@.items,
                index@.groups,
            ),
        decreases n - i,
    {
        let ghost before = errors.deep_view();
        proof {
            assert(lists.take(i + 1).drop_last() =~= lists.take(i as int));
            assert(lists.take(i + 1).last() == lists[i as int]);
        }
        list_conforms(values.items.key_at(i), values.items.value_at(i), &index, &mut errors);
        assert(errors.deep_view() =~= lists_errors(
            lists.take(i + 1),
            values@.items,
            index@.groups,
        ));
        i += 1;
    }
    assert(lists.take(n as int) =~= lists);
    let ghost start = errors.deep_view();
    let n = values.cells.len();
    let ghost keys = values.cells.keys();
    let mut i: usize = 0;
    assert(keys.take(0) =~= Seq::<CellAddrModel>::empty());
    assert(start + Seq::<ConformanceErrorModel>::empty() =~= start);
    while i < n
        invariant
            i <= n == keys.len(),
            keys == values.cells.keys(),
            errors.deep_view() == start + cells_errors(
                keys.take(i as int),
                values@,
                index@.columns,
                nomenclatures@,
            ),
        decreases n - i,
    {
        let ghost before = cells_errors(
            keys.take(i as int),
            values@,
            index@.columns,
            nomenclatures@,
        );
        proof {
            assert(keys.take(i + 1).drop_last() =~= keys.take(i as int));
            assert(keys.take(i + 1).last() == keys[i as int]);
        }
        cell_conforms(
            values.cells.key_at(i),
            values.cells.value_at(i),
            values,
            &index,
            nomenclatures,
            &mut errors,
        );
        assert(errors.deep_view() =~= start + cells_errors(
            keys.take(i + 1),
            values@,
            index@.columns,
            nomenclatures@,
        ));
        i += 1;
    }
    assert(keys.take(n as int) =~= keys);
    errors
}

} // verus!
