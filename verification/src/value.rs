//! Cells, items, and the operations that change them.
//!
//! A cell is absent (not in the map), empty (written, blank), or holds a
//! value. Nothing composite is stored: what a group holds is a view over
//! the cells that share its row path.

use vstd::prelude::*;
use crate::canonical;
use crate::collections;
use crate::canonical::{
    CanonicalError, CanonicalValue, CanonicalValueModel, ContentHash, canonical_bytes,
    canonical_text, same_text,
};
use crate::collections::OrderedMap;
use crate::decimal::{Decimal, DecimalModel};
use crate::ids::{ColumnId, GroupId, ItemId, OptionId, PathSeg, PathSegModel, RowPath};
use crate::order::{Key, Modeled, Order, contains_model, dup_vec, same_vec};
use crate::time::{Date, DateModel, Instant};

verus! {

/// Whether a value is a GeoJSON Feature that has canonical bytes.
pub open spec fn is_feature(v: CanonicalValueModel) -> bool {
    &&& v matches CanonicalValueModel::Object(m) && canonical::member(m, "type"@) == Some(
        CanonicalValueModel::String("Feature"@),
    )
    &&& canonical::canonical(v) is Ok
}

/// GeoJSON's own id of a feature, where it is a text.
pub open spec fn feature_id(v: CanonicalValueModel) -> Option<Seq<char>> {
    match v {
        CanonicalValueModel::Object(m) => match canonical::member(m, "id"@) {
            Some(CanonicalValueModel::String(s)) => Some(s),
            _ => None,
        },
        _ => None,
    }
}

/// One GeoJSON Feature, not looked into beyond its id; a feature set is
/// a cell of arity `many`, never a FeatureCollection.
#[derive(Debug, PartialEq, Eq)]
pub struct Feature {
    geojson: CanonicalValue,
}

impl DeepView for Feature {
    type V = CanonicalValueModel;

    closed spec fn deep_view(&self) -> CanonicalValueModel {
        self.geojson@
    }
}

impl View for Feature {
    type V = CanonicalValueModel;

    open spec fn view(&self) -> CanonicalValueModel {
        self.deep_view()
    }
}

impl Modeled for Feature {
    fn dup(&self) -> (r: Self) {
        proof {
            use_type_invariant(self);
        }
        Feature { geojson: self.geojson.dup() }
    }

    fn same(&self, other: &Self) -> (b: bool) {
        self.geojson.same(&other.geojson)
    }
}

impl Clone for Feature {
    fn clone(&self) -> (r: Self)
        ensures
            r@ == self@,
    {
        self.dup()
    }
}

/// The value is not a GeoJSON Feature.
#[derive(Clone, Copy, Debug, PartialEq, Eq, Structural)]
pub struct NotAFeature {}

impl DeepView for NotAFeature {
    type V = NotAFeature;

    open spec fn deep_view(&self) -> NotAFeature {
        *self
    }
}

impl View for NotAFeature {
    type V = NotAFeature;

    open spec fn view(&self) -> NotAFeature {
        *self
    }
}

impl Modeled for NotAFeature {
    fn dup(&self) -> (r: Self) {
        *self
    }

    fn same(&self, other: &Self) -> (b: bool) {
        *self == *other
    }
}

impl Feature {
    #[verifier::type_invariant]
    spec fn valid(self) -> bool {
        is_feature(self.geojson@)
    }

    /// Every feature is a GeoJSON Feature with canonical bytes.
    pub fn facts(&self)
        ensures
            is_feature(self@),
    {
        proof {
            use_type_invariant(self);
        }
    }

    pub fn from_canonical(v: &CanonicalValue) -> (r: Result<Feature, NotAFeature>)
        ensures
            match r {
                Ok(f) => is_feature(v@) && f@ == v@,
                Err(_) => !is_feature(v@),
            },
    {
        match v {
            CanonicalValue::Object(m) => {
                match m.get("type") {
                    Some(CanonicalValue::String(t)) => {
                        if !same_text(t.as_str(), "Feature") {
                            return Err(NotAFeature {  });
                        }
                    },
                    _ => {
                        return Err(NotAFeature {  });
                    },
                }
                match canonical_bytes(v) {
                    Ok(_) => Ok(Feature { geojson: v.dup() }),
                    Err(_) => Err(NotAFeature {  }),
                }
            },
            _ => Err(NotAFeature {  }),
        }
    }

    pub fn to_canonical(&self) -> (r: &CanonicalValue)
        ensures
            r@ == self@,
            is_feature(r@),
    {
        proof {
            use_type_invariant(self);
        }
        &self.geojson
    }

    /// The feature's JCS text.
    pub fn to_string(&self) -> (r: String)
        ensures
            canonical::jcs(self@) == Ok::<Seq<char>, CanonicalError>(r@),
    {
        proof {
            use_type_invariant(self);
        }
        canonical_text(&self.geojson).unwrap()
    }

    /// GeoJSON's own id, by which elements of a cell are told apart.
    pub fn id(&self) -> (r: Option<&str>)
        ensures
            text_model(r) == feature_id(self@),
    {
        match &self.geojson {
            CanonicalValue::Object(m) => match m.get("id") {
                Some(CanonicalValue::String(s)) => Some(s.as_str()),
                _ => None,
            },
            _ => None,
        }
    }
}

/// The text behind an optional reference.
pub open spec fn text_model(s: Option<&str>) -> Option<Seq<char>> {
    match s {
        Some(t) => Some(t@),
        None => None,
    }
}

/// A content-addressed file. The id tells two copies of one file in one
/// cell apart.
#[derive(Clone, Debug, PartialEq, Eq)]
pub struct AttachmentRef {
    pub id: String,
    pub hash: ContentHash,
    pub filename: String,
    pub content_type: String,
    pub byte_size: u64,
}

/// The model of [`AttachmentRef`].
#[verifier::ext_equal]
pub struct AttachmentRefModel {
    pub id: Seq<char>,
    pub hash: Seq<u8>,
    pub filename: Seq<char>,
    pub content_type: Seq<char>,
    pub byte_size: u64,
}

impl DeepView for AttachmentRef {
    type V = AttachmentRefModel;

    open spec fn deep_view(&self) -> AttachmentRefModel {
        AttachmentRefModel {
            id: self.id.deep_view(),
            hash: self.hash.deep_view(),
            filename: self.filename.deep_view(),
            content_type: self.content_type.deep_view(),
            byte_size: self.byte_size,
        }
    }
}

impl View for AttachmentRef {
    type V = AttachmentRefModel;

    open spec fn view(&self) -> AttachmentRefModel {
        self.deep_view()
    }
}

impl Modeled for AttachmentRef {
    fn dup(&self) -> (r: Self) {
        AttachmentRef {
            id: self.id.dup(),
            hash: self.hash.dup(),
            filename: self.filename.dup(),
            content_type: self.content_type.dup(),
            byte_size: self.byte_size,
        }
    }

    fn same(&self, other: &Self) -> (b: bool) {
        self.id.same(&other.id)
            && self.hash.same(&other.hash)
            && self.filename.same(&other.filename)
            && self.content_type.same(&other.content_type)
            && self.byte_size == other.byte_size
    }
}

/// One scalar value.
#[derive(Clone, Debug, PartialEq, Eq)]
pub enum Scalar {
    Text(String),
    Boolean(bool),
    Integer(i64),
    Decimal(Decimal),
    Date(Date),
    Datetime(Instant),
    /// A member of the column's nomenclature. Cells store option ids;
    /// labels live in the revision.
    Enum(OptionId),
    Attachment(Box<AttachmentRef>),
    Geometry(Box<Feature>),
}

/// The model of [`Scalar`].
#[verifier::ext_equal]
pub enum ScalarModel {
    Text(Seq<char>),
    Boolean(bool),
    Integer(i64),
    Decimal(DecimalModel),
    Date(DateModel),
    Datetime(int),
    Enum(Seq<char>),
    Attachment(AttachmentRefModel),
    Geometry(CanonicalValueModel),
}

impl DeepView for Scalar {
    type V = ScalarModel;

    open spec fn deep_view(&self) -> ScalarModel {
        match self {
            Scalar::Text(x) => ScalarModel::Text(x.deep_view()),
            Scalar::Boolean(x) => ScalarModel::Boolean(*x),
            Scalar::Integer(x) => ScalarModel::Integer(*x),
            Scalar::Decimal(x) => ScalarModel::Decimal(x.deep_view()),
            Scalar::Date(x) => ScalarModel::Date(x.deep_view()),
            Scalar::Datetime(x) => ScalarModel::Datetime(x.deep_view()),
            Scalar::Enum(x) => ScalarModel::Enum(x.deep_view()),
            Scalar::Attachment(x) => ScalarModel::Attachment(x.deep_view()),
            Scalar::Geometry(x) => ScalarModel::Geometry(x.deep_view()),
        }
    }
}

impl View for Scalar {
    type V = ScalarModel;

    open spec fn view(&self) -> ScalarModel {
        self.deep_view()
    }
}

impl Modeled for Scalar {
    fn dup(&self) -> (r: Self) {
        match self {
            Scalar::Text(x) => Scalar::Text(x.dup()),
            Scalar::Boolean(x) => Scalar::Boolean(*x),
            Scalar::Integer(x) => Scalar::Integer(*x),
            Scalar::Decimal(x) => Scalar::Decimal(x.dup()),
            Scalar::Date(x) => Scalar::Date(x.dup()),
            Scalar::Datetime(x) => Scalar::Datetime(x.dup()),
            Scalar::Enum(x) => Scalar::Enum(x.dup()),
            Scalar::Attachment(x) => Scalar::Attachment(x.dup()),
            Scalar::Geometry(x) => Scalar::Geometry(x.dup()),
        }
    }

    fn same(&self, other: &Self) -> (b: bool) {
        match (self, other) {
            (Scalar::Text(x), Scalar::Text(y)) => x.same(y),
            (Scalar::Boolean(x), Scalar::Boolean(y)) => *x == *y,
            (Scalar::Integer(x), Scalar::Integer(y)) => *x == *y,
            (Scalar::Decimal(x), Scalar::Decimal(y)) => x.same(y),
            (Scalar::Date(x), Scalar::Date(y)) => x.same(y),
            (Scalar::Datetime(x), Scalar::Datetime(y)) => x.same(y),
            (Scalar::Enum(x), Scalar::Enum(y)) => x.same(y),
            (Scalar::Attachment(x), Scalar::Attachment(y)) => x.same(y),
            (Scalar::Geometry(x), Scalar::Geometry(y)) => x.same(y),
            _ => false,
        }
    }
}

impl ScalarModel {
    /// The identity of an element within its cell. Options are their own
    /// identity; plain values have none.
    pub open spec fn element_id(self) -> Option<Seq<char>> {
        match self {
            ScalarModel::Enum(id) => Some(id),
            ScalarModel::Attachment(a) => Some(a.id),
            ScalarModel::Geometry(f) => feature_id(f),
            _ => None,
        }
    }
}

impl Scalar {
    pub fn element_id(&self) -> (r: Option<&str>)
        ensures
            text_model(r) == self@.element_id(),
    {
        match self {
            Scalar::Enum(id) => Some(id.as_str()),
            Scalar::Attachment(a) => Some(a.id.as_str()),
            Scalar::Geometry(f) => f.id(),
            _ => None,
        }
    }
}

/// The value of a written, non-blank cell.
#[derive(Clone, Debug, PartialEq, Eq)]
pub enum CellValue {
    One(Scalar),
    /// A list value, which adds nothing to the row path.
    Many(Vec<Scalar>),
}

/// The model of [`CellValue`].
#[verifier::ext_equal]
pub enum CellValueModel {
    One(ScalarModel),
    Many(Seq<ScalarModel>),
}

impl DeepView for CellValue {
    type V = CellValueModel;

    open spec fn deep_view(&self) -> CellValueModel {
        match self {
            CellValue::One(x) => CellValueModel::One(x.deep_view()),
            CellValue::Many(x) => CellValueModel::Many(x.deep_view()),
        }
    }
}

impl View for CellValue {
    type V = CellValueModel;

    open spec fn view(&self) -> CellValueModel {
        self.deep_view()
    }
}

impl Modeled for CellValue {
    fn dup(&self) -> (r: Self) {
        match self {
            CellValue::One(x) => CellValue::One(x.dup()),
            CellValue::Many(x) => CellValue::Many(x.dup()),
        }
    }

    fn same(&self, other: &Self) -> (b: bool) {
        match (self, other) {
            (CellValue::One(x), CellValue::One(y)) => x.same(y),
            (CellValue::Many(x), CellValue::Many(y)) => x.same(y),
            _ => false,
        }
    }
}

/// The stored state of a written cell. Absence is "not in the map".
#[derive(Clone, Debug, PartialEq, Eq)]
pub enum CellState {
    /// Written, blank.
    Empty,
    Value(CellValue),
}

/// The model of [`CellState`].
#[verifier::ext_equal]
pub enum CellStateModel {
    Empty,
    Value(CellValueModel),
}

impl DeepView for CellState {
    type V = CellStateModel;

    open spec fn deep_view(&self) -> CellStateModel {
        match self {
            CellState::Empty => CellStateModel::Empty,
            CellState::Value(x) => CellStateModel::Value(x.deep_view()),
        }
    }
}

impl View for CellState {
    type V = CellStateModel;

    open spec fn view(&self) -> CellStateModel {
        self.deep_view()
    }
}

impl Modeled for CellState {
    fn dup(&self) -> (r: Self) {
        match self {
            CellState::Empty => CellState::Empty,
            CellState::Value(x) => CellState::Value(x.dup()),
        }
    }

    fn same(&self, other: &Self) -> (b: bool) {
        match (self, other) {
            (CellState::Empty, CellState::Empty) => true,
            (CellState::Value(x), CellState::Value(y)) => x.same(y),
            _ => false,
        }
    }
}

/// The address of a cell.
#[derive(Clone, Debug, PartialEq, Eq, PartialOrd, Ord, Hash)]
pub struct CellAddr {
    pub column: ColumnId,
    pub path: RowPath,
}

/// The model of [`CellAddr`].
#[verifier::ext_equal]
pub struct CellAddrModel {
    pub column: Seq<char>,
    pub path: Seq<PathSegModel>,
}

impl DeepView for CellAddr {
    type V = CellAddrModel;

    open spec fn deep_view(&self) -> CellAddrModel {
        CellAddrModel {
            column: self.column.deep_view(),
            path: self.path.deep_view(),
        }
    }
}

impl View for CellAddr {
    type V = CellAddrModel;

    open spec fn view(&self) -> CellAddrModel {
        self.deep_view()
    }
}

impl Modeled for CellAddr {
    fn dup(&self) -> (r: Self) {
        CellAddr {
            column: self.column.dup(),
            path: self.path.dup(),
        }
    }

    fn same(&self, other: &Self) -> (b: bool) {
        self.column.same(&other.column)
            && self.path.same(&other.path)
    }
}

impl Key for CellAddr {
    open spec fn order(a: CellAddrModel, b: CellAddrModel) -> Order {
        ColumnId::order(a.column, b.column).or(RowPath::order(a.path, b.path))
    }

    proof fn order_equal(a: CellAddrModel, b: CellAddrModel) {
        ColumnId::order_equal(a.column, b.column);
        RowPath::order_equal(a.path, b.path);
    }

    proof fn order_flip(a: CellAddrModel, b: CellAddrModel) {
        ColumnId::order_flip(a.column, b.column);
        RowPath::order_flip(a.path, b.path);
    }

    proof fn order_transitive(a: CellAddrModel, b: CellAddrModel, c: CellAddrModel) {
        ColumnId::order_equal(a.column, b.column);
        ColumnId::order_equal(b.column, c.column);
        if ColumnId::order(a.column, b.column) == Order::Less && ColumnId::order(b.column, c.column) == Order::Less {
            ColumnId::order_transitive(a.column, b.column, c.column);
        }
        RowPath::order_equal(a.path, b.path);
        RowPath::order_equal(b.path, c.path);
        if RowPath::order(a.path, b.path) == Order::Less && RowPath::order(b.path, c.path) == Order::Less {
            RowPath::order_transitive(a.path, b.path, c.path);
        }
    }

    fn compare(&self, other: &Self) -> (o: Order) {
        match self.column.compare(&other.column) {
            Order::Equal => self.path.compare(&other.path),
            o => o,
        }
    }
}

/// The address of an item list: the `many` group and the row path of the
/// scope that encloses it.
#[derive(Clone, Debug, PartialEq, Eq, PartialOrd, Ord, Hash)]
pub struct ItemsAddr {
    pub group: GroupId,
    pub parent: RowPath,
}

/// The model of [`ItemsAddr`].
#[verifier::ext_equal]
pub struct ItemsAddrModel {
    pub group: Seq<char>,
    pub parent: Seq<PathSegModel>,
}

impl DeepView for ItemsAddr {
    type V = ItemsAddrModel;

    open spec fn deep_view(&self) -> ItemsAddrModel {
        ItemsAddrModel {
            group: self.group.deep_view(),
            parent: self.parent.deep_view(),
        }
    }
}

impl View for ItemsAddr {
    type V = ItemsAddrModel;

    open spec fn view(&self) -> ItemsAddrModel {
        self.deep_view()
    }
}

impl Modeled for ItemsAddr {
    fn dup(&self) -> (r: Self) {
        ItemsAddr {
            group: self.group.dup(),
            parent: self.parent.dup(),
        }
    }

    fn same(&self, other: &Self) -> (b: bool) {
        self.group.same(&other.group)
            && self.parent.same(&other.parent)
    }
}

impl Key for ItemsAddr {
    open spec fn order(a: ItemsAddrModel, b: ItemsAddrModel) -> Order {
        GroupId::order(a.group, b.group).or(RowPath::order(a.parent, b.parent))
    }

    proof fn order_equal(a: ItemsAddrModel, b: ItemsAddrModel) {
        GroupId::order_equal(a.group, b.group);
        RowPath::order_equal(a.parent, b.parent);
    }

    proof fn order_flip(a: ItemsAddrModel, b: ItemsAddrModel) {
        GroupId::order_flip(a.group, b.group);
        RowPath::order_flip(a.parent, b.parent);
    }

    proof fn order_transitive(a: ItemsAddrModel, b: ItemsAddrModel, c: ItemsAddrModel) {
        GroupId::order_equal(a.group, b.group);
        GroupId::order_equal(b.group, c.group);
        if GroupId::order(a.group, b.group) == Order::Less && GroupId::order(b.group, c.group) == Order::Less {
            GroupId::order_transitive(a.group, b.group, c.group);
        }
        RowPath::order_equal(a.parent, b.parent);
        RowPath::order_equal(b.parent, c.parent);
        if RowPath::order(a.parent, b.parent) == Order::Less && RowPath::order(b.parent, c.parent) == Order::Less {
            RowPath::order_transitive(a.parent, b.parent, c.parent);
        }
    }

    fn compare(&self, other: &Self) -> (o: Order) {
        match self.group.compare(&other.group) {
            Order::Equal => self.parent.compare(&other.parent),
            o => o,
        }
    }
}

/// The flat value store of one record.
#[derive(Clone, Debug, PartialEq, Eq)]
pub struct RecordValues {
    pub cells: OrderedMap<CellAddr, CellState>,
    /// Ordered item lists, one per instance of a `many` group.
    pub items: OrderedMap<ItemsAddr, Vec<ItemId>>,
}

/// The model of [`RecordValues`].
#[verifier::ext_equal]
pub struct RecordValuesModel {
    pub cells: Map<CellAddrModel, CellStateModel>,
    pub items: Map<ItemsAddrModel, Seq<Seq<char>>>,
}

impl DeepView for RecordValues {
    type V = RecordValuesModel;

    open spec fn deep_view(&self) -> RecordValuesModel {
        RecordValuesModel {
            cells: self.cells.deep_view(),
            items: self.items.deep_view(),
        }
    }
}

impl View for RecordValues {
    type V = RecordValuesModel;

    open spec fn view(&self) -> RecordValuesModel {
        self.deep_view()
    }
}

impl Modeled for RecordValues {
    fn dup(&self) -> (r: Self) {
        RecordValues {
            cells: self.cells.dup(),
            items: self.items.dup(),
        }
    }

    fn same(&self, other: &Self) -> (b: bool) {
        self.cells.same(&other.cells)
            && self.items.same(&other.items)
    }
}

/// The record without a cell or an item.
pub open spec fn no_values() -> RecordValuesModel {
    RecordValuesModel { cells: Map::empty(), items: Map::empty() }
}

impl RecordValues {
    pub fn new() -> (r: Self)
        ensures
            r@ == no_values(),
    {
        RecordValues { cells: OrderedMap::new(), items: OrderedMap::new() }
    }
}

impl Default for RecordValues {
    fn default() -> (r: Self)
        ensures
            r@ == no_values(),
    {
        RecordValues::new()
    }
}

/// A change to one cell or one item list.
#[derive(Clone, Debug, PartialEq, Eq)]
pub enum Op {
    Put { column: ColumnId, path: RowPath, state: CellState },
    Unset { column: ColumnId, path: RowPath },
    AddItem { group: GroupId, parent: RowPath, item: ItemId, at: usize },
    /// Takes an item away, with the cells and item lists below it.
    RemoveItem { group: GroupId, parent: RowPath, item: ItemId },
    Reorder { group: GroupId, parent: RowPath, order: Vec<ItemId> },
}

/// The model of [`Op`].
#[verifier::ext_equal]
pub enum OpModel {
    Put { column: Seq<char>, path: Seq<PathSegModel>, state: CellStateModel },
    Unset { column: Seq<char>, path: Seq<PathSegModel> },
    AddItem { group: Seq<char>, parent: Seq<PathSegModel>, item: Seq<char>, at: usize },
    RemoveItem { group: Seq<char>, parent: Seq<PathSegModel>, item: Seq<char> },
    Reorder { group: Seq<char>, parent: Seq<PathSegModel>, order: Seq<Seq<char>> },
}

impl DeepView for Op {
    type V = OpModel;

    open spec fn deep_view(&self) -> OpModel {
        match self {
            Op::Put { column, path, state } => OpModel::Put {
                column: column.deep_view(),
                path: path.deep_view(),
                state: state.deep_view(),
            },
            Op::Unset { column, path } => OpModel::Unset {
                column: column.deep_view(),
                path: path.deep_view(),
            },
            Op::AddItem { group, parent, item, at } => OpModel::AddItem {
                group: group.deep_view(),
                parent: parent.deep_view(),
                item: item.deep_view(),
                at: *at,
            },
            Op::RemoveItem { group, parent, item } => OpModel::RemoveItem {
                group: group.deep_view(),
                parent: parent.deep_view(),
                item: item.deep_view(),
            },
            Op::Reorder { group, parent, order } => OpModel::Reorder {
                group: group.deep_view(),
                parent: parent.deep_view(),
                order: order.deep_view(),
            },
        }
    }
}

impl View for Op {
    type V = OpModel;

    open spec fn view(&self) -> OpModel {
        self.deep_view()
    }
}

impl Modeled for Op {
    fn dup(&self) -> (r: Self) {
        match self {
            Op::Put { column, path, state } => Op::Put {
                column: column.dup(),
                path: path.dup(),
                state: state.dup(),
            },
            Op::Unset { column, path } => Op::Unset {
                column: column.dup(),
                path: path.dup(),
            },
            Op::AddItem { group, parent, item, at } => Op::AddItem {
                group: group.dup(),
                parent: parent.dup(),
                item: item.dup(),
                at: *at,
            },
            Op::RemoveItem { group, parent, item } => Op::RemoveItem {
                group: group.dup(),
                parent: parent.dup(),
                item: item.dup(),
            },
            Op::Reorder { group, parent, order } => Op::Reorder {
                group: group.dup(),
                parent: parent.dup(),
                order: order.dup(),
            },
        }
    }

    fn same(&self, other: &Self) -> (b: bool) {
        match (self, other) {
            (
                Op::Put { column, path, state },
                Op::Put { column: column2, path: path2, state: state2 },
            ) => {
                column.same(column2)
                    && path.same(path2)
                    && state.same(state2)
            },
            (
                Op::Unset { column, path },
                Op::Unset { column: column2, path: path2 },
            ) => {
                column.same(column2)
                    && path.same(path2)
            },
            (
                Op::AddItem { group, parent, item, at },
                Op::AddItem { group: group2, parent: parent2, item: item2, at: at2 },
            ) => {
                group.same(group2)
                    && parent.same(parent2)
                    && item.same(item2)
                    && *at == *at2
            },
            (
                Op::RemoveItem { group, parent, item },
                Op::RemoveItem { group: group2, parent: parent2, item: item2 },
            ) => {
                group.same(group2)
                    && parent.same(parent2)
                    && item.same(item2)
            },
            (
                Op::Reorder { group, parent, order },
                Op::Reorder { group: group2, parent: parent2, order: order2 },
            ) => {
                group.same(group2)
                    && parent.same(parent2)
                    && order.same(order2)
            },
            _ => false,
        }
    }
}

/// Why an operation does not apply.
#[derive(Clone, Debug, PartialEq, Eq)]
pub enum ApplyError {
    /// A blank `many` cell is empty, never a list without elements.
    EmptyList(CellAddr),
    /// The item is not in the list.
    UnknownItem(ItemsAddr, ItemId),
    /// The item is in the list already.
    DuplicateItem(ItemsAddr, ItemId),
    /// The position is past the end of the list.
    BadIndex(ItemsAddr, usize),
    /// The new order is not a rearrangement of the list.
    BadOrder(ItemsAddr),
}

/// The model of [`ApplyError`].
#[verifier::ext_equal]
pub enum ApplyErrorModel {
    EmptyList(CellAddrModel),
    UnknownItem(ItemsAddrModel, Seq<char>),
    DuplicateItem(ItemsAddrModel, Seq<char>),
    BadIndex(ItemsAddrModel, usize),
    BadOrder(ItemsAddrModel),
}

impl DeepView for ApplyError {
    type V = ApplyErrorModel;

    open spec fn deep_view(&self) -> ApplyErrorModel {
        match self {
            ApplyError::EmptyList(x) => ApplyErrorModel::EmptyList(x.deep_view()),
            ApplyError::UnknownItem(x0, x1) => ApplyErrorModel::UnknownItem(x0.deep_view(), x1.deep_view()),
            ApplyError::DuplicateItem(x0, x1) => ApplyErrorModel::DuplicateItem(x0.deep_view(), x1.deep_view()),
            ApplyError::BadIndex(x0, x1) => ApplyErrorModel::BadIndex(x0.deep_view(), *x1),
            ApplyError::BadOrder(x) => ApplyErrorModel::BadOrder(x.deep_view()),
        }
    }
}

impl View for ApplyError {
    type V = ApplyErrorModel;

    open spec fn view(&self) -> ApplyErrorModel {
        self.deep_view()
    }
}

impl Modeled for ApplyError {
    fn dup(&self) -> (r: Self) {
        match self {
            ApplyError::EmptyList(x) => ApplyError::EmptyList(x.dup()),
            ApplyError::UnknownItem(x0, x1) => ApplyError::UnknownItem(x0.dup(), x1.dup()),
            ApplyError::DuplicateItem(x0, x1) => ApplyError::DuplicateItem(x0.dup(), x1.dup()),
            ApplyError::BadIndex(x0, x1) => ApplyError::BadIndex(x0.dup(), *x1),
            ApplyError::BadOrder(x) => ApplyError::BadOrder(x.dup()),
        }
    }

    fn same(&self, other: &Self) -> (b: bool) {
        match (self, other) {
            (ApplyError::EmptyList(x), ApplyError::EmptyList(y)) => x.same(y),
            (ApplyError::UnknownItem(x0, x1), ApplyError::UnknownItem(y0, y1)) => x0.same(y0) && x1.same(y1),
            (ApplyError::DuplicateItem(x0, x1), ApplyError::DuplicateItem(y0, y1)) => x0.same(y0) && x1.same(y1),
            (ApplyError::BadIndex(x0, x1), ApplyError::BadIndex(y0, y1)) => x0.same(y0) && *x1 == *y1,
            (ApplyError::BadOrder(x), ApplyError::BadOrder(y)) => x.same(y),
            _ => false,
        }
    }
}

/// The item list at an address; an address without a list has no items.
pub open spec fn list_at(
    items: Map<ItemsAddrModel, Seq<Seq<char>>>,
    addr: ItemsAddrModel,
) -> Seq<Seq<char>> {
    if items.dom().contains(addr) {
        items[addr]
    } else {
        Seq::empty()
    }
}

/// The item lists with `list` at `addr`; a list without items is no
/// entry at all.
pub open spec fn with_list(
    items: Map<ItemsAddrModel, Seq<Seq<char>>>,
    addr: ItemsAddrModel,
    list: Seq<Seq<char>>,
) -> Map<ItemsAddrModel, Seq<Seq<char>>> {
    if list.len() == 0 {
        items.remove(addr)
    } else {
        items.insert(addr, list)
    }
}

/// A cell map without the cells at or below a row path.
pub open spec fn cells_outside<B>(
    cells: Map<CellAddrModel, B>,
    path: Seq<PathSegModel>,
) -> Map<CellAddrModel, B> {
    Map::new(
        |a: CellAddrModel| cells.dom().contains(a) && !path.is_prefix_of(a.path),
        |a: CellAddrModel| cells[a],
    )
}

/// The item lists that do not stand at or below a row path.
pub open spec fn lists_outside(
    items: Map<ItemsAddrModel, Seq<Seq<char>>>,
    path: Seq<PathSegModel>,
) -> Map<ItemsAddrModel, Seq<Seq<char>>> {
    Map::new(
        |a: ItemsAddrModel| items.dom().contains(a) && !path.is_prefix_of(a.parent),
        |a: ItemsAddrModel| items[a],
    )
}

/// The record after an operation, or why it does not apply.
pub open spec fn applied(v: RecordValuesModel, op: OpModel) -> Result<
    RecordValuesModel,
    ApplyErrorModel,
> {
    match op {
        OpModel::Put { column, path, state } => {
            let addr = CellAddrModel { column, path };
            if state matches CellStateModel::Value(CellValueModel::Many(list)) && list.len() == 0 {
                Err(ApplyErrorModel::EmptyList(addr))
            } else {
                Ok(RecordValuesModel { cells: v.cells.insert(addr, state), items: v.items })
            }
        },
        OpModel::Unset { column, path } => Ok(
            RecordValuesModel {
                cells: v.cells.remove(CellAddrModel { column, path }),
                items: v.items,
            },
        ),
        OpModel::AddItem { group, parent, item, at } => {
            let addr = ItemsAddrModel { group, parent };
            let list = list_at(v.items, addr);
            if list.contains(item) {
                Err(ApplyErrorModel::DuplicateItem(addr, item))
            } else if at > list.len() {
                Err(ApplyErrorModel::BadIndex(addr, at))
            } else {
                Ok(
                    RecordValuesModel {
                        cells: v.cells,
                        items: with_list(v.items, addr, list.insert(at as int, item)),
                    },
                )
            }
        },
        OpModel::RemoveItem { group, parent, item } => {
            let addr = ItemsAddrModel { group, parent };
            let list = list_at(v.items, addr);
            let below = parent.push(PathSegModel { group, item });
            if !list.contains(item) {
                Err(ApplyErrorModel::UnknownItem(addr, item))
            } else {
                Ok(
                    RecordValuesModel {
                        cells: cells_outside(v.cells, below),
                        items: with_list(
                            lists_outside(v.items, below),
                            addr,
                            list.remove(list.index_of_first(item)->0),
                        ),
                    },
                )
            }
        },
        OpModel::Reorder { group, parent, order } => {
            let addr = ItemsAddrModel { group, parent };
            if !rearranges(order, list_at(v.items, addr)) {
                Err(ApplyErrorModel::BadOrder(addr))
            } else {
                Ok(RecordValuesModel { cells: v.cells, items: with_list(v.items, addr, order) })
            }
        },
    }
}

/// Whether two lists hold the same items, each once.
pub open spec fn rearranges(order: Seq<Seq<char>>, list: Seq<Seq<char>>) -> bool {
    &&& order.no_duplicates()
    &&& order.len() == list.len()
    &&& forall|i: int| 0 <= i < list.len() ==> order.contains(#[trigger] list[i])
}

/// Takes out of a cell map what stands at or below a row path.
pub fn drop_cells_below<V: Modeled>(
    cells: &OrderedMap<CellAddr, V>,
    path: &RowPath,
) -> (r: OrderedMap<CellAddr, V>)
    ensures
        r@ == cells_outside(cells@, path@),
{
    let mut r: OrderedMap<CellAddr, V> = OrderedMap::new();
    let n = cells.len();
    let ghost keys = cells.keys();
    let mut i: usize = 0;
    while i < n
        invariant
            n == keys.len(),
            keys == cells.keys(),
            i <= n,
            forall|a: CellAddrModel| #[trigger]
                r@.dom().contains(a) <==> keys.take(i as int).contains(a)
                    && !path@.is_prefix_of(a.path),
            forall|a: CellAddrModel| #[trigger] r@.dom().contains(a) ==> r@[a] == cells@[a],
        decreases n - i,
    {
        let key = cells.key_at(i);
        let ghost before = r@;
        if !key.path.starts_with(path) {
            r.insert(key.dup(), cells.value_at(i).dup());
        }
        proof {
            take_next(keys, i as int);
        }
        i += 1;
    }
    proof {
        assert(keys.take(n as int) =~= keys);
        assert(collections::lists::<CellAddr>(keys, cells@.dom()));
    }
    assert(r@ =~= cells_outside(cells@, path@));
    r
}

/// What a longer prefix of a sequence holds.
pub proof fn take_next<A>(s: Seq<A>, i: int)
    requires
        0 <= i < s.len(),
    ensures
        forall|x: A| #[trigger] s.take(i + 1).contains(x) <==> s.take(i).contains(x) || x == s[i],
{
    assert forall|x: A| #[trigger] s.take(i + 1).contains(x) <==> s.take(i).contains(x) || x
        == s[i] by {
        if s.take(i + 1).contains(x) {
            let t = s.take(i + 1);
            let j = choose|j: int| 0 <= j < t.len() && t[j] == x;
            if j < i {
                assert(s.take(i)[j] == x);
            }
        }
        if s.take(i).contains(x) {
            let j = choose|j: int| 0 <= j < s.take(i).len() && s.take(i)[j] == x;
            assert(s.take(i + 1)[j] == x);
        }
        if x == s[i] {
            assert(s.take(i + 1)[i] == x);
        }
    }
}

fn drop_lists_below(
    items: &OrderedMap<ItemsAddr, Vec<ItemId>>,
    path: &RowPath,
) -> (r: OrderedMap<ItemsAddr, Vec<ItemId>>)
    ensures
        r@ == lists_outside(items@, path@),
{
    let mut r: OrderedMap<ItemsAddr, Vec<ItemId>> = OrderedMap::new();
    let n = items.len();
    let ghost keys = items.keys();
    let mut i: usize = 0;
    while i < n
        invariant
            n == keys.len(),
            keys == items.keys(),
            i <= n,
            forall|a: ItemsAddrModel| #[trigger]
                r@.dom().contains(a) <==> keys.take(i as int).contains(a)
                    && !path@.is_prefix_of(a.parent),
            forall|a: ItemsAddrModel| #[trigger] r@.dom().contains(a) ==> r@[a] == items@[a],
        decreases n - i,
    {
        let key = items.key_at(i);
        if !key.parent.starts_with(path) {
            r.insert(key.dup(), items.value_at(i).dup());
        }
        proof {
            take_next(keys, i as int);
        }
        i += 1;
    }
    proof {
        assert(keys.take(n as int) =~= keys);
        assert(collections::lists::<ItemsAddr>(keys, items@.dom()));
    }
    assert(r@ =~= lists_outside(items@, path@));
    r
}

/// The item list at an address, as a vector of its own.
fn list_of(items: &OrderedMap<ItemsAddr, Vec<ItemId>>, addr: &ItemsAddr) -> (r: Vec<ItemId>)
    ensures
        r.deep_view() == list_at(items@, addr@),
{
    match items.get(addr) {
        Some(list) => dup_vec(list),
        None => {
            let r: Vec<ItemId> = Vec::new();
            assert(r.deep_view() =~= list_at(items@, addr@));
            r
        },
    }
}

fn put_list(items: &mut OrderedMap<ItemsAddr, Vec<ItemId>>, addr: ItemsAddr, list: Vec<ItemId>)
    ensures
        final(items)@ == with_list(old(items)@, addr@, list.deep_view()),
{
    if list.len() == 0 {
        items.remove(&addr);
    } else {
        items.insert(addr, list);
    }
}

/// The first position of an item in a list.
fn item_position(list: &Vec<ItemId>, item: &ItemId) -> (r: Option<usize>)
    ensures
        match r {
            Some(p) => p < list@.len() && list.deep_view().contains(item@) && p
                == list.deep_view().index_of_first(item@)->0 && list.deep_view()[p as int] == item@
                && forall|j: int| 0 <= j < p ==> list.deep_view()[j] != item@,
            None => !list.deep_view().contains(item@),
        },
{
    let ghost s = list.deep_view();
    let mut i: usize = 0;
    while i < list.len()
        invariant
            i <= list@.len(),
            s == list.deep_view(),
            forall|j: int| 0 <= j < i ==> #[trigger] s[j] != item@,
        decreases list@.len() - i,
    {
        if list[i].same(item) {
            proof {
                assert(s[i as int] == item@);
                s.index_of_first_ensures(item@);
            }
            return Some(i);
        }
        i += 1;
    }
    None
}

/// Whether a new order holds exactly the items of a list, each once.
fn is_rearrangement(order: &Vec<ItemId>, list: &Vec<ItemId>) -> (r: bool)
    ensures
        r == rearranges(order.deep_view(), list.deep_view()),
{
    if order.len() != list.len() {
        return false;
    }
    let ghost o = order.deep_view();
    let ghost l = list.deep_view();
    let mut i: usize = 0;
    while i < order.len()
        invariant
            i <= order@.len() == list@.len(),
            o == order.deep_view(),
            l == list.deep_view(),
            forall|a: int, b: int| 0 <= a < b < i ==> o[a] != o[b],
            forall|j: int| 0 <= j < i ==> o.contains(#[trigger] l[j]),
        decreases order@.len() - i,
    {
        let mut j: usize = 0;
        while j < i
            invariant
                j <= i < order@.len(),
                o == order.deep_view(),
                forall|a: int| 0 <= a < j ==> o[a] != o[i as int],
            decreases i - j,
        {
            if order[j].same(&order[i]) {
                assert(o[j as int] == o[i as int]);
                return false;
            }
            assert(o[j as int] == order@[j as int].deep_view());
            j += 1;
        }
        if !contains_model(order, &list[i]) {
            assert(!o.contains(l[i as int]));
            return false;
        }
        i += 1;
    }
    true
}

/// Applies an operation to a record; one that does not apply changes
/// nothing.
pub fn apply(values: &mut RecordValues, op: &Op) -> (r: Result<(), ApplyError>)
    ensures
        match applied(old(values)@, op@) {
            Ok(after) => r is Ok && final(values)@ == after,
            Err(e) => r matches Err(x) && x@ == e && final(values)@ == old(values)@,
        },
{
    match op {
        Op::Put { column, path, state } => {
            let addr = CellAddr { column: column.dup(), path: path.dup() };
            if let CellState::Value(CellValue::Many(list)) = state {
                if list.len() == 0 {
                    return Err(ApplyError::EmptyList(addr));
                }
            }
            values.cells.insert(addr, state.dup());
            Ok(())
        },
        Op::Unset { column, path } => {
            let addr = CellAddr { column: column.dup(), path: path.dup() };
            values.cells.remove(&addr);
            Ok(())
        },
        Op::AddItem { group, parent, item, at } => {
            let addr = ItemsAddr { group: group.dup(), parent: parent.dup() };
            let mut list = list_of(&values.items, &addr);
            let ghost l = list.deep_view();
            if contains_model(&list, item) {
                return Err(ApplyError::DuplicateItem(addr, item.dup()));
            }
            if *at > list.len() {
                return Err(ApplyError::BadIndex(addr, *at));
            }
            list.insert(*at, item.dup());
            assert(list.deep_view() =~= l.insert(*at as int, item@));
            put_list(&mut values.items, addr, list);
            Ok(())
        },
        Op::RemoveItem { group, parent, item } => {
            let addr = ItemsAddr { group: group.dup(), parent: parent.dup() };
            let mut list = list_of(&values.items, &addr);
            let ghost l = list.deep_view();
            match item_position(&list, item) {
                None => Err(ApplyError::UnknownItem(addr, item.dup())),
                Some(p) => {
                    let below = parent.child(PathSeg { group: group.dup(), item: item.dup() });
                    list.remove(p);
                    assert(list.deep_view() =~= l.remove(p as int));
                    let mut items = drop_lists_below(&values.items, &below);
                    put_list(&mut items, addr, list);
                    values.cells = drop_cells_below(&values.cells, &below);
                    values.items = items;
                    Ok(())
                },
            }
        },
        Op::Reorder { group, parent, order } => {
            let addr = ItemsAddr { group: group.dup(), parent: parent.dup() };
            let list = list_of(&values.items, &addr);
            if !is_rearrangement(order, &list) {
                return Err(ApplyError::BadOrder(addr));
            }
            put_list(&mut values.items, addr, dup_vec(order));
            Ok(())
        },
    }
}

/// The record after a list of operations, or why one does not apply.
pub open spec fn replay(v: RecordValuesModel, ops: Seq<OpModel>) -> Result<
    RecordValuesModel,
    ApplyErrorModel,
>
    decreases ops.len(),
{
    if ops.len() == 0 {
        Ok(v)
    } else {
        match replay(v, ops.drop_last()) {
            Ok(w) => applied(w, ops.last()),
            Err(e) => Err(e),
        }
    }
}

/// Whether no stored item list is empty or holds an item twice.
pub open spec fn lists_are_tidy(items: Map<ItemsAddrModel, Seq<Seq<char>>>) -> bool {
    forall|a: ItemsAddrModel| #[trigger]
        items.dom().contains(a) ==> items[a].len() > 0 && items[a].no_duplicates()
}

/// Whether a state is a list without elements.
pub open spec fn is_empty_list(s: CellStateModel) -> bool {
    s matches CellStateModel::Value(CellValueModel::Many(list)) && list.len() == 0
}

/// Whether a record holds only what operations can build: no empty item
/// list, no item twice in a list, no list value without elements.
pub open spec fn is_tidy(v: RecordValuesModel) -> bool {
    &&& lists_are_tidy(v.items)
    &&& forall|a: CellAddrModel| #[trigger] v.cells.dom().contains(a) ==> !is_empty_list(v.cells[a])
}

/// What operations build stays tidy.
pub proof fn applied_stays_tidy(v: RecordValuesModel, op: OpModel)
    requires
        is_tidy(v),
        applied(v, op) is Ok,
    ensures
        is_tidy(applied(v, op)->Ok_0),
{
    let after = applied(v, op)->Ok_0;
    match op {
        OpModel::AddItem { group, parent, item, at } => {
            let addr = ItemsAddrModel { group, parent };
            let list = list_at(v.items, addr);
            let longer = list.insert(at as int, item);
            assert forall|i: int, j: int| 0 <= i < j < longer.len() implies longer[i]
                != longer[j] by {
                let x = if i < at {
                    i
                } else {
                    i - 1
                };
                let y = if j < at {
                    j
                } else {
                    j - 1
                };
                if i == at {
                    assert(longer[j] == list[y]);
                } else if j == at {
                    assert(longer[i] == list[x]);
                } else {
                    assert(longer[i] == list[x] && longer[j] == list[y]);
                }
            }
        },
        OpModel::RemoveItem { group, parent, item } => {
            let addr = ItemsAddrModel { group, parent };
            let list = list_at(v.items, addr);
            list.index_of_first_ensures(item);
            let p = list.index_of_first(item)->0;
            let shorter = list.remove(p);
            assert forall|i: int, j: int| 0 <= i < j < shorter.len() implies shorter[i]
                != shorter[j] by {
                let x = if i < p {
                    i
                } else {
                    i + 1
                };
                let y = if j < p {
                    j
                } else {
                    j + 1
                };
                assert(shorter[i] == list[x] && shorter[j] == list[y]);
            }
        },
        _ => {},
    }
}

/// Whether every item of `x`'s lists is in `y`'s list at the same place.
pub open spec fn lists_within(
    x: Map<ItemsAddrModel, Seq<Seq<char>>>,
    y: Map<ItemsAddrModel, Seq<Seq<char>>>,
) -> bool {
    forall|a: ItemsAddrModel, i: Seq<char>| #[trigger]
        list_at(x, a).contains(i) ==> list_at(y, a).contains(i)
}

/// Whether a row stands in or below an item that one record has and the
/// other lacks: taking the item away takes the row with it.
pub open spec fn is_taken(
    a: RecordValuesModel,
    b: RecordValuesModel,
    path: Seq<PathSegModel>,
) -> bool {
    exists|j: int|
        0 <= j < path.len() && {
            let addr = ItemsAddrModel {
                group: (#[trigger] path[j]).group,
                parent: path.take(j),
            };
            list_at(a.items, addr).contains(path[j].item) && !list_at(b.items, addr).contains(
                path[j].item,
            )
        }
}

/// Whether an operation has its reason in what `b` has otherwise than `a`,
/// and in what the record `v` that it meets lacks of `b`:
///
/// - a cell is written with `b`'s state, where `a` has another or a
///   removed item took it;
/// - a cell is cleared that `a` has and `b` lacks;
/// - an item is put at the end that `b` has, where `a` lacks it or a
///   removed item took it;
/// - an item is taken away that `a` has and `b` lacks;
/// - a list is put into `b`'s order where it stands in another.
#[verifier::opaque]
pub open spec fn is_warranted(
    a: RecordValuesModel,
    b: RecordValuesModel,
    v: RecordValuesModel,
    op: OpModel,
) -> bool {
    match op {
        OpModel::Put { column, path, state } => {
            let addr = CellAddrModel { column, path };
            &&& b.cells.dom().contains(addr)
            &&& b.cells[addr] == state
            &&& !(v.cells.dom().contains(addr) && v.cells[addr] == state)
            &&& !(a.cells.dom().contains(addr) && a.cells[addr] == state) || is_taken(a, b, path)
        },
        OpModel::Unset { column, path } => {
            let addr = CellAddrModel { column, path };
            &&& a.cells.dom().contains(addr)
            &&& !b.cells.dom().contains(addr)
            &&& v.cells.dom().contains(addr)
        },
        OpModel::AddItem { group, parent, item, at } => {
            let addr = ItemsAddrModel { group, parent };
            &&& list_at(b.items, addr).contains(item)
            &&& !list_at(v.items, addr).contains(item)
            &&& at == list_at(v.items, addr).len()
            &&& !list_at(a.items, addr).contains(item) || is_taken(a, b, parent)
        },
        OpModel::RemoveItem { group, parent, item } => {
            let addr = ItemsAddrModel { group, parent };
            &&& list_at(a.items, addr).contains(item)
            &&& !list_at(b.items, addr).contains(item)
            &&& list_at(v.items, addr).contains(item)
        },
        OpModel::Reorder { group, parent, order } => {
            let addr = ItemsAddrModel { group, parent };
            &&& order == list_at(b.items, addr)
            &&& list_at(v.items, addr) != order
        },
    }
}

/// Whether one of some operations, replayed from `a`, is warranted where
/// its turn comes.
#[verifier::opaque]
pub open spec fn turn_is_warranted(
    a: RecordValuesModel,
    b: RecordValuesModel,
    ops: Seq<OpModel>,
    i: int,
) -> bool {
    replay(a, ops.take(i)) matches Ok(v) && is_warranted(a, b, v, ops[i])
}

/// Whether every one of some operations, replayed from `a`, is warranted
/// where its turn comes.
pub open spec fn all_warranted(
    a: RecordValuesModel,
    b: RecordValuesModel,
    ops: Seq<OpModel>,
) -> bool {
    forall|i: int| 0 <= i < ops.len() ==> #[trigger] turn_is_warranted(a, b, ops, i)
}

/// Whether a record holds nothing but what one of two records has, and
/// lacks of what both have only what a removed item took.
spec fn is_between(a: RecordValuesModel, b: RecordValuesModel, v: RecordValuesModel) -> bool {
    &&& forall|x: CellAddrModel| #[trigger]
        v.cells.dom().contains(x) ==> (a.cells.dom().contains(x) && v.cells[x] == a.cells[x]) || (
        b.cells.dom().contains(x) && v.cells[x] == b.cells[x])
    &&& forall|x: CellAddrModel| #[trigger]
        a.cells.dom().contains(x) && b.cells.dom().contains(x) && !v.cells.dom().contains(x)
            ==> is_taken(a, b, x.path)
    &&& forall|x: ItemsAddrModel, i: Seq<char>|
        list_at(a.items, x).contains(i) && list_at(b.items, x).contains(i) && !(
        #[trigger] list_at(v.items, x).contains(i)) ==> is_taken(a, b, x.parent)
}

proof fn below_is_taken(
    a: RecordValuesModel,
    b: RecordValuesModel,
    group: Seq<char>,
    parent: Seq<PathSegModel>,
    item: Seq<char>,
    path: Seq<PathSegModel>,
)
    requires
        list_at(a.items, ItemsAddrModel { group, parent }).contains(item),
        !list_at(b.items, ItemsAddrModel { group, parent }).contains(item),
        parent.push(PathSegModel { group, item }).is_prefix_of(path),
    ensures
        is_taken(a, b, path),
{
    let below = parent.push(PathSegModel { group, item });
    let j = parent.len() as int;
    assert(below[j] == path[j]);
    assert(path.take(j) =~= parent) by {
        assert forall|k: int| 0 <= k < j implies path[k] == parent[k] by {
            assert(below[k] == path[k]);
        }
    }
}

proof fn removal_stays_between(
    a: RecordValuesModel,
    b: RecordValuesModel,
    v: RecordValuesModel,
    group: Seq<char>,
    parent: Seq<PathSegModel>,
    item: Seq<char>,
)
    requires
        is_between(a, b, v),
        is_warranted(a, b, v, OpModel::RemoveItem { group, parent, item }),
    ensures
        is_between(a, b, applied(v, OpModel::RemoveItem { group, parent, item })->Ok_0),
{
    reveal(is_warranted);
    let addr = ItemsAddrModel { group, parent };
    let list = list_at(v.items, addr);
    let below = parent.push(PathSegModel { group, item });
    let w = applied(v, OpModel::RemoveItem { group, parent, item })->Ok_0;
    list.index_of_first_ensures(item);
    let p = list.index_of_first(item)->0;
    let shorter = list.remove(p);
    assert forall|x: CellAddrModel| #[trigger]
        a.cells.dom().contains(x) && b.cells.dom().contains(x) && !w.cells.dom().contains(
            x,
        ) implies is_taken(a, b, x.path) by {
        if v.cells.dom().contains(x) {
            below_is_taken(a, b, group, parent, item, x.path);
        }
    }
    assert forall|x: ItemsAddrModel, i: Seq<char>|
        list_at(a.items, x).contains(i) && list_at(b.items, x).contains(i) && !(
        #[trigger] list_at(w.items, x).contains(i)) implies is_taken(a, b, x.parent) by {
        if list_at(v.items, x).contains(i) {
            if x == addr {
                assert(list_at(w.items, addr) =~= shorter);
                assert(i != item);
                let j = list.index_of(i);
                let k = if j < p {
                    j
                } else {
                    j - 1
                };
                assert(j != p);
                assert(shorter[k] == i);
            } else {
                below_is_taken(a, b, group, parent, item, x.parent);
            }
        }
    }
}

proof fn step_stays_between(
    a: RecordValuesModel,
    b: RecordValuesModel,
    v: RecordValuesModel,
    op: OpModel,
)
    requires
        is_between(a, b, v),
        is_warranted(a, b, v, op),
        applied(v, op) is Ok,
    ensures
        is_between(a, b, applied(v, op)->Ok_0),
{
    reveal(is_warranted);
    let w = applied(v, op)->Ok_0;
    match op {
        OpModel::RemoveItem { group, parent, item } => {
            removal_stays_between(a, b, v, group, parent, item);
        },
        OpModel::AddItem { group, parent, item, at } => {
            let addr = ItemsAddrModel { group, parent };
            let had = list_at(v.items, addr);
            let has = had.insert(at as int, item);
            assert forall|x: ItemsAddrModel, i: Seq<char>|
                list_at(a.items, x).contains(i) && list_at(b.items, x).contains(i) && !(
                #[trigger] list_at(w.items, x).contains(i)) implies is_taken(a, b, x.parent) by {
                if x == addr {
                    assert(has =~= had.push(item));
                    assert(has.len() > 0);
                    assert(list_at(w.items, addr) == has);
                    if had.contains(i) {
                        let j = had.index_of(i);
                        assert(has[j] == i);
                    }
                } else {
                    assert(list_at(w.items, x) == list_at(v.items, x));
                }
            }
        },
        OpModel::Reorder { group, parent, order } => {
            let addr = ItemsAddrModel { group, parent };
            assert forall|x: ItemsAddrModel, i: Seq<char>|
                list_at(a.items, x).contains(i) && list_at(b.items, x).contains(i) && !(
                #[trigger] list_at(w.items, x).contains(i)) implies is_taken(a, b, x.parent) by {
                if x == addr {
                    assert(order.contains(i));
                    assert(order.len() > 0);
                    assert(list_at(w.items, addr) == order);
                } else {
                    assert(list_at(w.items, x) == list_at(v.items, x));
                }
            }
        },
        OpModel::Put { column, path, state } => {},
        OpModel::Unset { column, path } => {},
    }
}

proof fn step_is_warranted(
    a: RecordValuesModel,
    b: RecordValuesModel,
    before: Seq<OpModel>,
    op: OpModel,
)
    requires
        all_warranted(a, b, before),
        replay(a, before) is Ok,
        is_warranted(a, b, replay(a, before)->Ok_0, op),
    ensures
        all_warranted(a, b, before.push(op)),
        replay(a, before.push(op)) == applied(replay(a, before)->Ok_0, op),
{
    let ops = before.push(op);
    assert(ops.drop_last() =~= before);
    assert forall|i: int| 0 <= i < ops.len() implies #[trigger] turn_is_warranted(a, b, ops, i) by {
        reveal(turn_is_warranted);
        if i < before.len() {
            assert(turn_is_warranted(a, b, before, i));
            assert(ops.take(i) =~= before.take(i));
            assert(ops[i] == before[i]);
        } else {
            assert(ops.take(i) =~= before);
        }
    }
}

/// A record on its way from one state to another, and the operations that
/// took it there.
struct Walk {
    at: RecordValues,
    ops: Vec<Op>,
}

impl Walk {
    /// Whether the operations so far lead from `a` to where the record
    /// stands, each with its reason in `b`.
    spec fn leads(self, a: RecordValuesModel, b: RecordValuesModel) -> bool {
        &&& replay(a, self.ops.deep_view()) == Ok::<RecordValuesModel, ApplyErrorModel>(self.at@)
        &&& all_warranted(a, b, self.ops.deep_view())
        &&& is_between(a, b, self.at@)
    }

    /// Takes one operation, if it applies.
    fn step(&mut self, op: Op, a: &RecordValues, b: &RecordValues)
        requires
            old(self).leads(a@, b@),
            applied(old(self).at@, op@) is Ok ==> is_warranted(a@, b@, old(self).at@, op@),
        ensures
            final(self).leads(a@, b@),
            match applied(old(self).at@, op@) {
                Ok(after) => final(self).at@ == after,
                Err(_) => final(self).at@ == old(self).at@ && final(self).ops@ == old(self).ops@,
            },
    {
        let ghost before = self.ops.deep_view();
        let ghost at = self.at@;
        let ghost m = op@;
        match apply(&mut self.at, &op) {
            Ok(_) => {
                self.ops.push(op);
                proof {
                    assert(self.ops.deep_view() =~= before.push(m));
                    step_stays_between(a@, b@, at, m);
                    step_is_warranted(a@, b@, before, m);
                }
            },
            Err(_) => {},
        }
    }
}

/// Whether the items of a list's front that `keep` lacks are gone.
spec fn gone(
    items: Map<ItemsAddrModel, Seq<Seq<char>>>,
    addr: ItemsAddrModel,
    front: Seq<Seq<char>>,
    keep: Seq<Seq<char>>,
) -> bool {
    forall|i: Seq<char>|
        front.contains(i) && !keep.contains(i) ==> !(#[trigger] list_at(items, addr).contains(i))
}

/// Taking an item away adds no item to any list.
proof fn removal_shrinks(v: RecordValuesModel, op: OpModel)
    requires
        op is RemoveItem,
        applied(v, op) is Ok,
        lists_are_tidy(v.items),
    ensures
        lists_within(applied(v, op)->Ok_0.items, v.items),
        lists_are_tidy(applied(v, op)->Ok_0.items),
        !list_at(
            applied(v, op)->Ok_0.items,
            ItemsAddrModel { group: op->RemoveItem_group, parent: op->RemoveItem_parent },
        ).contains(op->RemoveItem_item),
{
    if let OpModel::RemoveItem { group, parent, item } = op {
        let addr = ItemsAddrModel { group, parent };
        let list = list_at(v.items, addr);
        let below = parent.push(PathSegModel { group, item });
        list.index_of_first_ensures(item);
        let p = list.index_of_first(item)->0;
        let shorter = list.remove(p);
        let after = applied(v, op)->Ok_0.items;
        assert(list_at(after, addr) =~= shorter);
        assert forall|i: int, j: int| 0 <= i < j < shorter.len() implies shorter[i]
            != shorter[j] by {
            let x = if i < p {
                i
            } else {
                i + 1
            };
            let y = if j < p {
                j
            } else {
                j + 1
            };
            assert(shorter[i] == list[x] && shorter[j] == list[y]);
        }
        assert forall|a: ItemsAddrModel, i: Seq<char>| #[trigger]
            list_at(after, a).contains(i) implies list_at(v.items, a).contains(i) by {
            if a == addr {
                let j = choose|j: int| 0 <= j < shorter.len() && shorter[j] == i;
                let x = if j < p {
                    j
                } else {
                    j + 1
                };
                assert(list[x] == i);
            }
        }
        if shorter.contains(item) {
            let j = choose|j: int| 0 <= j < shorter.len() && shorter[j] == item;
            let x = if j < p {
                j
            } else {
                j + 1
            };
            assert(list[x] == item);
            assert(x != p);
        }
    }
}

/// Takes away the items of one list that `keep` lacks.
fn remove_items(
    w: &mut Walk,
    addr: &ItemsAddr,
    list: &Vec<ItemId>,
    keep: &Vec<ItemId>,
    a: &RecordValues,
    b: &RecordValues,
)
    requires
        old(w).leads(a@, b@),
        list.deep_view() == list_at(a@.items, addr@),
        keep.deep_view() == list_at(b@.items, addr@),
        lists_are_tidy(old(w).at@.items),
    ensures
        final(w).leads(a@, b@),
        lists_are_tidy(final(w).at@.items),
        lists_within(final(w).at@.items, old(w).at@.items),
        gone(final(w).at@.items, addr@, list.deep_view(), keep.deep_view()),
        (forall|i: Seq<char>| list.deep_view().contains(i) ==> keep.deep_view().contains(i))
            ==> *final(w) == *old(w),
{
    let ghost l = list.deep_view();
    let ghost k = keep.deep_view();
    let ghost start_items = w.at@.items;
    let mut i: usize = 0;
    assert(l.take(0) =~= Seq::<Seq<char>>::empty());
    while i < list.len()
        invariant
            i <= list@.len(),
            l == list.deep_view(),
            k == keep.deep_view(),
            start_items == old(w).at@.items,
            l == list_at(a@.items, addr@),
            k == list_at(b@.items, addr@),
            w.leads(a@, b@),
            lists_are_tidy(w.at@.items),
            lists_within(w.at@.items, start_items),
            gone(w.at@.items, addr@, l.take(i as int), k),
            (forall|i: Seq<char>| l.contains(i) ==> k.contains(i)) ==> *w == *old(w),
        decreases list@.len() - i,
    {
        let item = &list[i];
        let ghost before = w.at@;
        proof {
            take_next(l, i as int);
            assert(l[i as int] == item@);
        }
        if !contains_model(keep, item) {
            assert(l.contains(item@));
            let op = Op::RemoveItem {
                group: addr.group.dup(),
                parent: addr.parent.dup(),
                item: item.dup(),
            };
            let ghost m = op@;
            proof {
                reveal(is_warranted);
            }
            w.step(op, a, b);
            proof {
                if applied(before, m) is Ok {
                    removal_shrinks(before, m);
                }
            }
        }
        i += 1;
    }
    assert(l.take(l.len() as int) =~= l);
}

/// Takes away every item that the other record lacks.
fn remove_gone(w: &mut Walk, a: &RecordValues, b: &RecordValues)
    requires
        lists_are_tidy(a@.items),
        old(w).at@ == a@,
        old(w).leads(a@, b@),
    ensures
        final(w).leads(a@, b@),
        lists_are_tidy(final(w).at@.items),
        lists_within(final(w).at@.items, b@.items),
        a@.items == b@.items ==> *final(w) == *old(w),
{
    let n = a.items.len();
    let ghost keys = a.items.keys();
    let mut i: usize = 0;
    while i < n
        invariant
            i <= n == keys.len(),
            keys == a.items.keys(),
            collections::lists::<ItemsAddr>(keys, a@.items.dom()),
            w.leads(a@, b@),
            lists_are_tidy(w.at@.items),
            lists_within(w.at@.items, a@.items),
            forall|j: int|
                0 <= j < i ==> gone(
                    w.at@.items,
                    #[trigger] keys[j],
                    a@.items[keys[j]],
                    list_at(b@.items, keys[j]),
                ),
            a@.items == b@.items ==> *w == *old(w),
        decreases n - i,
    {
        let addr = a.items.key_at(i);
        let list = a.items.value_at(i);
        let keep = list_of(&b.items, addr);
        let ghost before = w.at@.items;
        remove_items(w, addr, list, &keep, a, b);
        proof {
            assert forall|j: int| 0 <= j < i + 1 implies gone(
                w.at@.items,
                #[trigger] keys[j],
                a@.items[keys[j]],
                list_at(b@.items, keys[j]),
            ) by {
                if j < i {
                    assert(gone(
                        before,
                        keys[j],
                        a@.items[keys[j]],
                        list_at(b@.items, keys[j]),
                    ));
                }
            }
        }
        i += 1;
    }
    proof {
        assert forall|x: ItemsAddrModel, it: Seq<char>| #[trigger]
            list_at(w.at@.items, x).contains(it) implies list_at(b@.items, x).contains(it) by {
            assert(list_at(a@.items, x).contains(it));
            assert(a@.items.dom().contains(x));
            assert(keys.contains(x));
            let j = choose|j: int| 0 <= j < keys.len() && keys[j] == x;
            assert(gone(w.at@.items, keys[j], a@.items[keys[j]], list_at(b@.items, keys[j])));
        }
    }
}

/// Lists with the same items, each once, are rearrangements.
proof fn same_items_rearrange(x: Seq<Seq<char>>, y: Seq<Seq<char>>)
    requires
        x.no_duplicates(),
        y.no_duplicates(),
        forall|i: Seq<char>| #[trigger] x.contains(i) <==> y.contains(i),
    ensures
        rearranges(x, y),
{
    x.unique_seq_to_set();
    y.unique_seq_to_set();
    assert(x.to_set() =~= y.to_set());
    assert forall|i: int| 0 <= i < y.len() implies x.contains(#[trigger] y[i]) by {
        assert(y.contains(y[i]));
    }
}

/// Adds to one list the items that it lacks, then puts it in order.
fn fill_list(
    w: &mut Walk,
    addr: &ItemsAddr,
    list: &Vec<ItemId>,
    a: &RecordValues,
    b: &RecordValues,
)
    requires
        old(w).leads(a@, b@),
        list.deep_view() == list_at(b@.items, addr@),
        lists_are_tidy(old(w).at@.items),
        list@.len() > 0,
        list.deep_view().no_duplicates(),
        forall|i: Seq<char>| #[trigger]
            list_at(old(w).at@.items, addr@).contains(i) ==> list.deep_view().contains(i),
    ensures
        final(w).leads(a@, b@),
        final(w).at@.items == old(w).at@.items.insert(addr@, list.deep_view()),
        final(w).at@.cells == old(w).at@.cells,
        list_at(old(w).at@.items, addr@) == list.deep_view() ==> *final(w) == *old(w),
{
    let ghost l = list.deep_view();
    let ghost here = addr@;
    let ghost first = w.at@;
    let mut i: usize = 0;
    assert(l.take(0) =~= Seq::<Seq<char>>::empty());
    while i < list.len()
        invariant
            i <= list@.len(),
            l == list.deep_view(),
            l.no_duplicates(),
            here == addr@,
            l == list_at(b@.items, here),
            first == old(w).at@,
            w.leads(a@, b@),
            lists_are_tidy(w.at@.items),
            w.at@.cells == first.cells,
            w.at@.items.remove(here) == first.items.remove(here),
            forall|x: Seq<char>| #[trigger] list_at(w.at@.items, here).contains(x) ==> l.contains(x),
            forall|x: Seq<char>| #[trigger]
                l.take(i as int).contains(x) ==> list_at(w.at@.items, here).contains(x),
            list_at(first.items, here) == l ==> *w == *old(w),
        decreases list@.len() - i,
    {
        let item = &list[i];
        let ghost before = w.at@;
        proof {
            take_next(l, i as int);
            assert(l[i as int] == item@);
            assert(l.contains(item@));
        }
        let current = list_of(&w.at.items, addr);
        if !contains_model(&current, item) {
            let op = Op::AddItem {
                group: addr.group.dup(),
                parent: addr.parent.dup(),
                item: item.dup(),
                at: current.len(),
            };
            let ghost m = op@;
            proof {
                reveal(is_warranted);
            }
            w.step(op, a, b);
            proof {
                let had = list_at(before.items, here);
                let has = had.insert(had.len() as int, item@);
                assert(w.at@.items == before.items.insert(here, has));
                assert(w.at@.items.remove(here) =~= before.items.remove(here));
                assert(has =~= had.push(item@));
                assert forall|x: Seq<char>| #[trigger] has.contains(x) <==> had.contains(x) || x
                    == item@ by {
                    if had.contains(x) {
                        let j = choose|j: int| 0 <= j < had.len() && had[j] == x;
                        assert(has[j] == x);
                    }
                    assert(has[had.len() as int] == item@);
                }
                assert forall|p: int, q: int| 0 <= p < q < has.len() implies has[p]
                    != has[q] by {
                    assert(had.contains(had[p]));
                }
            }
        }
        i += 1;
    }
    let current = list_of(&w.at.items, addr);
    proof {
        assert(l.take(l.len() as int) =~= l);
        let now = list_at(w.at@.items, here);
        assert(l.contains(l[0]));
        assert(now.contains(l[0]));
        assert(w.at@.items.dom().contains(here));
        same_items_rearrange(l, now);
    }
    let ghost before = w.at@;
    if !same_vec(&current, list) {
        proof {
            reveal(is_warranted);
        }
        w.step(
            Op::Reorder {
                group: addr.group.dup(),
                parent: addr.parent.dup(),
                order: dup_vec(list),
            },
            a,
            b,
        );
    }
    proof {
        assert(w.at@.items[here] == l);
        let after = first.items.insert(here, l);
        assert forall|x: ItemsAddrModel| #[trigger]
            w.at@.items.dom().contains(x) <==> after.dom().contains(x) by {
            if x != here {
                assert(before.items.remove(here).dom().contains(x) <==> first.items.remove(here).dom().contains(x));
            }
        }
        assert forall|x: ItemsAddrModel| #[trigger] after.dom().contains(x) implies w.at@.items[x]
            == after[x] by {
            if x != here {
                assert(before.items.remove(here)[x] == first.items.remove(here)[x]);
            }
        }
        assert(w.at@.items =~= after);
    }
}

/// Brings every item list to what the other record holds.
fn fill_lists(w: &mut Walk, a: &RecordValues, b: &RecordValues)
    requires
        old(w).leads(a@, b@),
        lists_are_tidy(old(w).at@.items),
        lists_are_tidy(b@.items),
        lists_within(old(w).at@.items, b@.items),
    ensures
        final(w).leads(a@, b@),
        final(w).at@.items == b@.items,
        final(w).at@.cells == old(w).at@.cells,
        old(w).at@.items == b@.items ==> *final(w) == *old(w),
{
    let n = b.items.len();
    let ghost keys = b.items.keys();
    let mut i: usize = 0;
    while i < n
        invariant
            i <= n == keys.len(),
            keys == b.items.keys(),
            collections::lists::<ItemsAddr>(keys, b@.items.dom()),
            lists_are_tidy(b@.items),
            w.leads(a@, b@),
            lists_are_tidy(w.at@.items),
            lists_within(w.at@.items, b@.items),
            w.at@.cells == old(w).at@.cells,
            forall|j: int|
                0 <= j < i ==> w.at@.items.dom().contains(#[trigger] keys[j])
                    && w.at@.items[keys[j]] == b@.items[keys[j]],
            old(w).at@.items == b@.items ==> *w == *old(w),
        decreases n - i,
    {
        let ghost before = w.at@.items;
        let addr = b.items.key_at(i);
        fill_list(w, addr, b.items.value_at(i), a, b);
        proof {
            assert forall|x: ItemsAddrModel, it: Seq<char>| #[trigger]
                list_at(w.at@.items, x).contains(it) implies list_at(b@.items, x).contains(it) by {
                if x != addr@ {
                    assert(list_at(before, x).contains(it));
                }
            }
        }
        i += 1;
    }
    proof {
        assert forall|x: ItemsAddrModel| #[trigger]
            w.at@.items.dom().contains(x) <==> b@.items.dom().contains(x) by {
            if b@.items.dom().contains(x) {
                assert(keys.contains(x));
            }
            if w.at@.items.dom().contains(x) && !b@.items.dom().contains(x) {
                let it = w.at@.items[x][0];
                assert(list_at(w.at@.items, x).contains(it));
                assert(list_at(b@.items, x).contains(it));
            }
        }
        assert forall|x: ItemsAddrModel| #[trigger] b@.items.dom().contains(x) implies w.at@.items[x]
            == b@.items[x] by {
            assert(keys.contains(x));
            let j = choose|j: int| 0 <= j < keys.len() && keys[j] == x;
            assert(w.at@.items[keys[j]] == b@.items[keys[j]]);
        }
        assert(w.at@.items =~= b@.items);
    }
}

/// Clears the cells that the other record lacks.
fn clear_cells(w: &mut Walk, a: &RecordValues, b: &RecordValues)
    requires
        old(w).leads(a@, b@),
    ensures
        final(w).leads(a@, b@),
        final(w).at@.items == old(w).at@.items,
        forall|x: CellAddrModel| #[trigger]
            final(w).at@.cells.dom().contains(x) ==> b@.cells.dom().contains(x),
        forall|x: CellAddrModel| #[trigger]
            old(w).at@.cells.dom().contains(x) && b@.cells.dom().contains(x) ==> final(w).at@.cells.dom().contains(x) && final(w).at@.cells[x] == old(w).at@.cells[x],
        old(w).at@.cells == b@.cells ==> *final(w) == *old(w),
{
    let cells = w.at.cells.dup();
    let n = cells.len();
    let ghost keys = cells.keys();
    let mut i: usize = 0;
    assert(keys.take(0) =~= Seq::<CellAddrModel>::empty());
    while i < n
        invariant
            i <= n == keys.len(),
            keys == cells.keys(),
            cells@ == old(w).at@.cells,
            collections::lists::<CellAddr>(keys, cells@.dom()),
            w.leads(a@, b@),
            w.at@.items == old(w).at@.items,
            forall|x: CellAddrModel| #[trigger]
                w.at@.cells.dom().contains(x) <==> cells@.dom().contains(x) && (b@.cells.dom().contains(
                    x,
                ) || !keys.take(i as int).contains(x)),
            forall|x: CellAddrModel| #[trigger]
                w.at@.cells.dom().contains(x) ==> w.at@.cells[x] == cells@[x],
            old(w).at@.cells == b@.cells ==> *w == *old(w),
        decreases n - i,
    {
        let addr = cells.key_at(i);
        proof {
            take_next(keys, i as int);
        }
        if !b.cells.contains_key(addr) {
            proof {
                reveal(is_warranted);
                collections::in_order_is_distinct::<CellAddr>(keys);
                assert(!keys.take(i as int).contains(addr@)) by {
                    if keys.take(i as int).contains(addr@) {
                        let j = keys.take(i as int).index_of(addr@);
                        assert(keys[j] == keys[i as int]);
                    }
                }
                assert(keys.contains(keys[i as int]));
                assert(w.at@.cells.dom().contains(addr@));
            }
            w.step(Op::Unset { column: addr.column.dup(), path: addr.path.dup() }, a, b);
        }
        i += 1;
    }
    assert(keys.take(n as int) =~= keys);
    proof {
        assert forall|x: CellAddrModel|
            old(w).at@.cells.dom().contains(x) && b@.cells.dom().contains(
                x,
            ) implies w.at@.cells.dom().contains(x) && w.at@.cells[x] == old(w).at@.cells[x] by {
            assert(cells@.dom().contains(x));
            assert(w.at@.cells.dom().contains(x));
        }
    }
}

/// Writes the cells that the other record holds otherwise.
fn write_cells(w: &mut Walk, a: &RecordValues, b: &RecordValues)
    requires
        old(w).leads(a@, b@),
        is_tidy(b@),
        forall|x: CellAddrModel| #[trigger]
            old(w).at@.cells.dom().contains(x) ==> b@.cells.dom().contains(x),
    ensures
        final(w).leads(a@, b@),
        final(w).at@.items == old(w).at@.items,
        final(w).at@.cells == b@.cells,
        old(w).at@.cells == b@.cells ==> *final(w) == *old(w),
{
    let n = b.cells.len();
    let ghost keys = b.cells.keys();
    let mut i: usize = 0;
    while i < n
        invariant
            i <= n == keys.len(),
            keys == b.cells.keys(),
            is_tidy(b@),
            collections::lists::<CellAddr>(keys, b@.cells.dom()),
            w.leads(a@, b@),
            w.at@.items == old(w).at@.items,
            forall|x: CellAddrModel| #[trigger]
                w.at@.cells.dom().contains(x) ==> b@.cells.dom().contains(x),
            forall|j: int|
                0 <= j < i ==> w.at@.cells.dom().contains(#[trigger] keys[j])
                    && w.at@.cells[keys[j]] == b@.cells[keys[j]],
            old(w).at@.cells == b@.cells ==> *w == *old(w),
        decreases n - i,
    {
        let addr = b.cells.key_at(i);
        let state = b.cells.value_at(i);
        let same = match w.at.cells.get(addr) {
            Some(s) => s.same(state),
            None => false,
        };
        if !same {
            proof {
                reveal(is_warranted);
            }
            w.step(
                Op::Put { column: addr.column.dup(), path: addr.path.dup(), state: state.dup() },
                a,
                b,
            );
        }
        i += 1;
    }
    proof {
        assert forall|x: CellAddrModel| #[trigger] b@.cells.dom().contains(x) implies w.at@.cells.dom().contains(
            x,
        ) && w.at@.cells[x] == b@.cells[x] by {
            assert(keys.contains(x));
            let j = choose|j: int| 0 <= j < keys.len() && keys[j] == x;
            assert(w.at@.cells[keys[j]] == b@.cells[keys[j]]);
        }
        assert(w.at@.cells =~= b@.cells);
    }
}

/// The operations that turn one record into another: items taken away,
/// items added and put in order, cells cleared, cells written. Each is
/// there for a difference between the two; equal records need none.
pub fn diff(a: &RecordValues, b: &RecordValues) -> (ops: Vec<Op>)
    requires
        is_tidy(a@),
        is_tidy(b@),
    ensures
        replay(a@, ops.deep_view()) == Ok::<RecordValuesModel, ApplyErrorModel>(b@),
        all_warranted(a@, b@, ops.deep_view()),
        a@ == b@ ==> ops@.len() == 0,
{
    let mut w = Walk { at: a.dup(), ops: Vec::new() };
    assert(w.ops.deep_view() =~= Seq::<OpModel>::empty());
    assert(w.leads(a@, b@));
    remove_gone(&mut w, a, b);
    fill_lists(&mut w, a, b);
    clear_cells(&mut w, a, b);
    write_cells(&mut w, a, b);
    w.ops
}

} // verus!
