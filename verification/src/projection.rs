//! Records viewed through a schema that they were not written under.
//!
//! A per-column function over stable column ids: cells are agnostic of
//! revisions, only their reading is not. Casts are applied and every loss
//! is reported.

use vstd::prelude::*;
use crate::canonical;
use crate::cast;
use crate::collections;
use crate::conformance;
use crate::decimal;
use crate::order;
use crate::schema;
use crate::text;
use crate::time;
use crate::value;
use crate::canonical::{push_int, same_text};
use crate::cast::{
    Cast, CastClass, CastError, CastErrorModel, NomenclatureTable, column_cast, find_row,
    nomenclature_rows, row_has_option,
};
use crate::collections::OrderedMap;
use crate::conformance::{
    ColumnInfo, ColumnInfoModel, GroupInfoModel, SchemaIndex, SchemaIndexModel, has_repeats,
    path_is_in_scope,
};
use crate::decimal::{Decimal, DecimalModel};
use crate::ids::{ColumnId, ItemId};
use crate::order::{Key, Modeled, Order, same_vec};
use crate::schema::{
    Arity, Cardinality, NomenclatureRef, OptionRow, OptionRowModel, ScalarType, ScalarTypeModel,
    Schema, SchemaModel, Unit, conversion,
};
use crate::text::{parse_integer, text_of};
use crate::time::{Date, Instant};
use crate::value::{
    CellAddr, CellAddrModel, CellState, CellStateModel, CellValue, CellValueModel, ItemsAddr,
    ItemsAddrModel, RecordValues, RecordValuesModel, Scalar, ScalarModel,
};

verus! {

/// What became of a column.
#[derive(Clone, Copy, Debug, PartialEq, Eq, Structural)]
pub enum ColumnStatus {
    /// Same type, same arity, same scope: copied.
    Identity,
    /// A cast ran.
    Cast,
    /// Only the reader has the column: every record reads absent.
    AddedAbsent,
    /// The column moved into or out of a `many` group; its cells are not
    /// projected.
    ScopeMoved,
    /// No cast exists between the types.
    Forbidden,
}

impl DeepView for ColumnStatus {
    type V = ColumnStatus;

    open spec fn deep_view(&self) -> ColumnStatus {
        *self
    }
}

impl View for ColumnStatus {
    type V = ColumnStatus;

    open spec fn view(&self) -> ColumnStatus {
        *self
    }
}

impl Modeled for ColumnStatus {
    fn dup(&self) -> (r: Self) {
        *self
    }

    fn same(&self, other: &Self) -> (b: bool) {
        *self == *other
    }
}

/// What became of a column's cells.
#[derive(Clone, Copy, Debug, PartialEq, Eq, Structural)]
pub struct ColumnReport {
    pub status: ColumnStatus,
    pub cells_projected: u64,
    /// Cells that did lose information, not those that could have.
    pub cells_lossy: u64,
    /// Cells that a checked cast rejected: left out and counted.
    pub cells_failed: u64,
}

impl DeepView for ColumnReport {
    type V = ColumnReport;

    open spec fn deep_view(&self) -> ColumnReport {
        *self
    }
}

impl View for ColumnReport {
    type V = ColumnReport;

    open spec fn view(&self) -> ColumnReport {
        *self
    }
}

impl Modeled for ColumnReport {
    fn dup(&self) -> (r: Self) {
        *self
    }

    fn same(&self, other: &Self) -> (b: bool) {
        *self == *other
    }
}

/// What became of a record's columns and lists.
#[derive(Clone, Debug, PartialEq, Eq)]
pub struct ProjectionReport {
    pub columns: OrderedMap<ColumnId, ColumnReport>,
    /// Columns that only the writer has: ignored here, kept in storage.
    pub ignored_writer_columns: Vec<ColumnId>,
    /// Item lists whose group the reader does not have, or elsewhere.
    pub dropped_item_lists: u64,
}

/// The model of [`ProjectionReport`].
#[verifier::ext_equal]
pub struct ProjectionReportModel {
    pub columns: Map<Seq<char>, ColumnReport>,
    pub ignored_writer_columns: Seq<Seq<char>>,
    pub dropped_item_lists: u64,
}

impl DeepView for ProjectionReport {
    type V = ProjectionReportModel;

    open spec fn deep_view(&self) -> ProjectionReportModel {
        ProjectionReportModel {
            columns: self.columns.deep_view(),
            ignored_writer_columns: self.ignored_writer_columns.deep_view(),
            dropped_item_lists: self.dropped_item_lists,
        }
    }
}

impl View for ProjectionReport {
    type V = ProjectionReportModel;

    open spec fn view(&self) -> ProjectionReportModel {
        self.deep_view()
    }
}

impl Modeled for ProjectionReport {
    fn dup(&self) -> (r: Self) {
        ProjectionReport {
            columns: self.columns.dup(),
            ignored_writer_columns: self.ignored_writer_columns.dup(),
            dropped_item_lists: self.dropped_item_lists,
        }
    }

    fn same(&self, other: &Self) -> (b: bool) {
        self.columns.same(&other.columns)
            && self.ignored_writer_columns.same(&other.ignored_writer_columns)
            && self.dropped_item_lists == other.dropped_item_lists
    }
}

/// Projected values, with the report that keeps losses loud.
#[derive(Clone, Debug, PartialEq, Eq)]
pub struct Projection {
    pub values: RecordValues,
    pub report: ProjectionReport,
}

/// The model of [`Projection`].
#[verifier::ext_equal]
pub struct ProjectionModel {
    pub values: RecordValuesModel,
    pub report: ProjectionReportModel,
}

impl DeepView for Projection {
    type V = ProjectionModel;

    open spec fn deep_view(&self) -> ProjectionModel {
        ProjectionModel {
            values: self.values.deep_view(),
            report: self.report.deep_view(),
        }
    }
}

impl View for Projection {
    type V = ProjectionModel;

    open spec fn view(&self) -> ProjectionModel {
        self.deep_view()
    }
}

impl Modeled for Projection {
    fn dup(&self) -> (r: Self) {
        Projection {
            values: self.values.dup(),
            report: self.report.dup(),
        }
    }

    fn same(&self, other: &Self) -> (b: bool) {
        self.values.same(&other.values)
            && self.report.same(&other.report)
    }
}

impl Default for ProjectionReport {
    fn default() -> (r: Self)
        ensures
            r@ == (ProjectionReportModel {
                columns: Map::empty(),
                ignored_writer_columns: Seq::empty(),
                dropped_item_lists: 0,
            }),
    {
        let r = ProjectionReport {
            columns: OrderedMap::new(),
            ignored_writer_columns: Vec::new(),
            dropped_item_lists: 0,
        };
        assert(r@.ignored_writer_columns =~= Seq::<Seq<char>>::empty());
        r
    }
}

/// The lossy cells of some columns.
pub open spec fn lossy_sum(keys: Seq<Seq<char>>, columns: Map<Seq<char>, ColumnReport>) -> nat
    decreases keys.len(),
{
    if keys.len() == 0 {
        0
    } else {
        lossy_sum(keys.drop_last(), columns) + columns[keys.last()].cells_lossy as nat
    }
}

/// The failed cells of some columns.
pub open spec fn failed_sum(keys: Seq<Seq<char>>, columns: Map<Seq<char>, ColumnReport>) -> nat
    decreases keys.len(),
{
    if keys.len() == 0 {
        0
    } else {
        failed_sum(keys.drop_last(), columns) + columns[keys.last()].cells_failed as nat
    }
}

impl ProjectionReportModel {
    pub open spec fn total_lossy(self) -> nat {
        lossy_sum(collections::key_order::<ColumnId>(self.columns.dom()), self.columns)
    }

    pub open spec fn total_failed(self) -> nat {
        failed_sum(collections::key_order::<ColumnId>(self.columns.dom()), self.columns)
    }

    /// Whether nothing was lost, rejected, dropped or left unread.
    pub open spec fn is_clean(self) -> bool {
        &&& self.total_lossy() == 0
        &&& self.total_failed() == 0
        &&& self.dropped_item_lists == 0
        &&& forall|c: Seq<char>| #[trigger]
            self.columns.dom().contains(c) ==> self.columns[c].status != ColumnStatus::ScopeMoved
                && self.columns[c].status != ColumnStatus::Forbidden
    }
}

proof fn sums_grow(keys: Seq<Seq<char>>, columns: Map<Seq<char>, ColumnReport>, i: int)
    requires
        0 <= i <= keys.len(),
    ensures
        lossy_sum(keys.take(i), columns) <= lossy_sum(keys, columns),
        failed_sum(keys.take(i), columns) <= failed_sum(keys, columns),
    decreases keys.len(),
{
    if i < keys.len() {
        sums_grow(keys.drop_last(), columns, i);
        assert(keys.drop_last().take(i) =~= keys.take(i));
    } else {
        assert(keys.take(i) =~= keys);
    }
}

impl ProjectionReport {
    /// All lossy cells.
    pub fn total_lossy(&self) -> (r: u64)
        requires
            self@.total_lossy() <= u64::MAX,
        ensures
            r == self@.total_lossy(),
    {
        let n = self.columns.len();
        let ghost keys = self.columns.keys();
        let mut sum: u64 = 0;
        let mut i: usize = 0;
        assert(keys.take(0) =~= Seq::<Seq<char>>::empty());
        while i < n
            invariant
                i <= n == keys.len(),
                keys == self.columns.keys(),
                lossy_sum(keys, self@.columns) <= u64::MAX,
                sum == lossy_sum(keys.take(i as int), self@.columns),
            decreases n - i,
        {
            proof {
                assert(keys.take(i + 1).drop_last() =~= keys.take(i as int));
                sums_grow(keys, self@.columns, i + 1);
            }
            sum += self.columns.value_at(i).cells_lossy;
            i += 1;
        }
        assert(keys.take(n as int) =~= keys);
        sum
    }

    /// All failed cells.
    pub fn total_failed(&self) -> (r: u64)
        requires
            self@.total_failed() <= u64::MAX,
        ensures
            r == self@.total_failed(),
    {
        let n = self.columns.len();
        let ghost keys = self.columns.keys();
        let mut sum: u64 = 0;
        let mut i: usize = 0;
        assert(keys.take(0) =~= Seq::<Seq<char>>::empty());
        while i < n
            invariant
                i <= n == keys.len(),
                keys == self.columns.keys(),
                failed_sum(keys, self@.columns) <= u64::MAX,
                sum == failed_sum(keys.take(i as int), self@.columns),
            decreases n - i,
        {
            proof {
                assert(keys.take(i + 1).drop_last() =~= keys.take(i as int));
                sums_grow(keys, self@.columns, i + 1);
            }
            sum += self.columns.value_at(i).cells_failed;
            i += 1;
        }
        assert(keys.take(n as int) =~= keys);
        sum
    }

    /// Whether nothing was lost, rejected, dropped or left unread.
    pub fn is_clean(&self) -> (r: bool)
        requires
            self@.total_lossy() <= u64::MAX,
            self@.total_failed() <= u64::MAX,
        ensures
            r == self@.is_clean(),
    {
        if self.total_lossy() != 0 || self.total_failed() != 0 || self.dropped_item_lists != 0 {
            return false;
        }
        let n = self.columns.len();
        let ghost keys = self.columns.keys();
        let mut i: usize = 0;
        while i < n
            invariant
                i <= n == keys.len(),
                keys == self.columns.keys(),
                collections::lists::<ColumnId>(keys, self@.columns.dom()),
                forall|j: int|
                    0 <= j < i ==> self@.columns[#[trigger] keys[j]].status
                        != ColumnStatus::ScopeMoved && self@.columns[keys[j]].status
                        != ColumnStatus::Forbidden,
            decreases n - i,
        {
            let c = self.columns.value_at(i);
            if c.status == ColumnStatus::ScopeMoved || c.status == ColumnStatus::Forbidden {
                assert(keys.contains(keys[i as int]));
                assert(self@.columns.dom().contains(keys[i as int]));
                return false;
            }
            i += 1;
        }
        proof {
            assert forall|c: Seq<char>| #[trigger]
                self@.columns.dom().contains(c) implies self@.columns[c].status
                != ColumnStatus::ScopeMoved && self@.columns[c].status
                != ColumnStatus::Forbidden by {
                assert(keys.contains(c));
            }
        }
        true
    }
}

/// The canonical text of a scalar, as a cast to text gives it.
pub open spec fn scalar_text(s: ScalarModel) -> Seq<char> {
    match s {
        ScalarModel::Text(t) => t,
        ScalarModel::Boolean(b) => if b {
            "true"@
        } else {
            "false"@
        },
        ScalarModel::Integer(i) => canonical::int_text(i as int),
        ScalarModel::Decimal(d) => decimal::rendered(d),
        ScalarModel::Date(d) => d.text(),
        ScalarModel::Datetime(t) => time::timestamp_text(t),
        ScalarModel::Enum(id) => id,
        ScalarModel::Attachment(_) => Seq::empty(),
        ScalarModel::Geometry(_) => Seq::empty(),
    }
}

fn render_text(scalar: &Scalar) -> (r: String)
    ensures
        r@ == scalar_text(scalar@),
{
    match scalar {
        Scalar::Text(t) => t.clone(),
        Scalar::Boolean(b) => if *b {
            "true".to_owned()
        } else {
            "false".to_owned()
        },
        Scalar::Integer(i) => {
            let mut out: Vec<char> = Vec::new();
            push_int(&mut out, *i);
            let r = text_of(&out);
            assert(r@ =~= canonical::int_text(*i as int));
            r
        },
        Scalar::Decimal(d) => d.to_string(),
        Scalar::Date(d) => d.to_string(),
        Scalar::Datetime(t) => t.to_string(),
        Scalar::Enum(id) => id.to_string(),
        Scalar::Attachment(_) | Scalar::Geometry(_) => {
            let out: Vec<char> = Vec::new();
            let r = text_of(&out);
            assert(r@ =~= Seq::<char>::empty());
            r
        },
    }
}

/// A number in another unit: unchanged where a unit is added, removed or
/// kept; converted exactly or not at all within a dimension.
pub open spec fn converted(
    value: DecimalModel,
    from: Option<Unit>,
    to: Option<Unit>,
) -> Option<DecimalModel> {
    match (from, to) {
        (Some(a), Some(b)) => if a == b {
            Some(value)
        } else {
            match schema::unit_ratio(a, b) {
                Some((num, den)) => decimal::mul_div(value, num as nat, den as nat),
                None => None,
            }
        },
        _ => Some(value),
    }
}

/// Taking a unit away keeps the number and loses its meaning.
pub open spec fn unit_is_dropped(from: Option<Unit>, to: Option<Unit>) -> bool {
    from is Some && to is None
}

fn convert_number(value: Decimal, from: Option<Unit>, to: Option<Unit>) -> (r: Option<Decimal>)
    ensures
        match r {
            Some(d) => converted(value@, from, to) == Some(d@),
            None => converted(value@, from, to) is None,
        },
{
    match (from, to) {
        (Some(a), Some(b)) => {
            if a == b {
                Some(value)
            } else {
                match conversion(a, b) {
                    Some((num, den)) => value.mul_div_exact(num, den),
                    None => None,
                }
            }
        },
        _ => Some(value),
    }
}

fn unit_dropped(from: Option<Unit>, to: Option<Unit>) -> (r: bool)
    ensures
        r == unit_is_dropped(from, to),
{
    from.is_some() && to.is_none()
}

/// A decimal as a number scalar, where it is one: a decimal always, an
/// integer only where it is whole and fits.
pub open spec fn as_number(d: Option<DecimalModel>, integer: bool, lossy: bool) -> Option<
    (ScalarModel, bool),
> {
    match d {
        None => None,
        Some(x) => if !integer {
            Some((ScalarModel::Decimal(x), lossy))
        } else if x.scale == 0 && i64::MIN <= x.mantissa <= i64::MAX {
            Some((ScalarModel::Integer(x.mantissa as i64), lossy))
        } else {
            None
        },
    }
}

/// What a number scalar is worth.
pub open spec fn number_value(s: ScalarModel) -> Option<DecimalModel> {
    match s {
        ScalarModel::Integer(i) => Some(DecimalModel { mantissa: i as int, scale: 0 }),
        ScalarModel::Decimal(d) => Some(d),
        _ => None,
    }
}

/// A number through a cast between number types.
pub open spec fn number_projection(
    s: ScalarModel,
    integer_from: bool,
    from: Option<Unit>,
    integer_to: bool,
    to: Option<Unit>,
) -> Option<(ScalarModel, bool)> {
    if (s is Integer && integer_from) || (s is Decimal && !integer_from) {
        as_number(
            converted(number_value(s)->0, from, to),
            integer_to,
            unit_is_dropped(from, to),
        )
    } else {
        None
    }
}

fn project_number(
    s: &Scalar,
    integer_from: bool,
    from: Option<Unit>,
    integer_to: bool,
    to: Option<Unit>,
) -> (r: Option<(Scalar, bool)>)
    ensures
        outcome_model(r) == number_projection(s@, integer_from, from, integer_to, to),
{
    let value = match s {
        Scalar::Integer(i) if integer_from => Decimal::from_i64(*i),
        Scalar::Decimal(d) if !integer_from => *d,
        _ => {
            return None;
        },
    };
    let d = match convert_number(value, from, to) {
        Some(d) => d,
        None => {
            return None;
        },
    };
    if !integer_to {
        return Some((Scalar::Decimal(d), unit_dropped(from, to)));
    }
    match d.to_i64() {
        Some(i) => Some((Scalar::Integer(i), unit_dropped(from, to))),
        None => None,
    }
}

pub open spec fn outcome_model(r: Option<(Scalar, bool)>) -> Option<(ScalarModel, bool)> {
    match r {
        Some((s, l)) => Some((s@, l)),
        None => None,
    }
}

/// The first row with a label.
pub open spec fn row_labelled(rows: Seq<OptionRowModel>, label: Seq<char>) -> Option<
    OptionRowModel,
>
    decreases rows.len(),
{
    if rows.len() == 0 {
        None
    } else if rows[0].label == label {
        Some(rows[0])
    } else {
        row_labelled(rows.drop_first(), label)
    }
}

fn find_label<'a>(rows: &'a Vec<OptionRow>, label: &str) -> (r: Option<&'a OptionRow>)
    ensures
        match r {
            Some(row) => row_labelled(rows.deep_view(), label@) == Some(row@),
            None => row_labelled(rows.deep_view(), label@) is None,
        },
{
    let ghost s = rows.deep_view();
    let mut i: usize = 0;
    assert(s.skip(0) =~= s);
    while i < rows.len()
        invariant
            i <= rows@.len(),
            s == rows.deep_view(),
            row_labelled(s, label@) == row_labelled(s.skip(i as int), label@),
        decreases rows@.len() - i,
    {
        let row = &rows[i];
        proof {
            assert(s.skip(i as int)[0] == row@);
            assert(s.skip(i as int).drop_first() =~= s.skip(i + 1));
        }
        if same_text(row.label.as_str(), label) {
            return Some(row);
        }
        i += 1;
    }
    None
}

/// A text read as another type.
pub open spec fn text_projection(
    t: Seq<char>,
    to: ScalarTypeModel,
    noms: Map<(Seq<char>, u32), Seq<OptionRowModel>>,
) -> Result<Option<ScalarModel>, CastErrorModel> {
    match to {
        ScalarTypeModel::Integer(_) => Ok(
            match text::integer_of(t) {
                Some(i) => Some(ScalarModel::Integer(i as i64)),
                None => None,
            },
        ),
        ScalarTypeModel::Decimal(_) => Ok(
            match decimal::parsed(t) {
                Ok(d) => Some(ScalarModel::Decimal(d)),
                Err(_) => None,
            },
        ),
        ScalarTypeModel::Date => Ok(
            match time::parsed_date(t) {
                Ok(d) => Some(ScalarModel::Date(d)),
                Err(_) => None,
            },
        ),
        ScalarTypeModel::Datetime => Ok(
            match time::instant_of(t) {
                Some(i) => Some(ScalarModel::Datetime(i)),
                None => None,
            },
        ),
        ScalarTypeModel::Boolean => Ok(
            if t == "true"@ {
                Some(ScalarModel::Boolean(true))
            } else if t == "false"@ {
                Some(ScalarModel::Boolean(false))
            } else {
                None
            },
        ),
        ScalarTypeModel::Enum(r) => match cast::rows_of(r, noms) {
            Ok(rows) => Ok(
                match row_labelled(rows, t) {
                    Some(row) => Some(ScalarModel::Enum(row.id)),
                    None => None,
                },
            ),
            Err(e) => Err(e),
        },
        _ => Ok(None),
    }
}

pub open spec fn option_scalar(r: Option<Scalar>) -> Option<ScalarModel> {
    match r {
        Some(s) => Some(s@),
        None => None,
    }
}

fn project_text(t: &String, to: &ScalarType, nomenclatures: &NomenclatureTable) -> (r: Result<
    Option<Scalar>,
    CastError,
>)
    ensures
        match r {
            Ok(x) => text_projection(t@, to@, nomenclatures@) == Ok::<
                Option<ScalarModel>,
                CastErrorModel,
            >(option_scalar(x)),
            Err(e) => text_projection(t@, to@, nomenclatures@) == Err::<
                Option<ScalarModel>,
                CastErrorModel,
            >(e@),
        },
{
    match to {
        ScalarType::Integer(_) => Ok(
            match parse_integer(t.as_str()) {
                Some(i) => Some(Scalar::Integer(i)),
                None => None,
            },
        ),
        ScalarType::Decimal(_) => Ok(
            match Decimal::parse(t.as_str()) {
                Ok(d) => Some(Scalar::Decimal(d)),
                Err(_) => None,
            },
        ),
        ScalarType::Date => Ok(
            match Date::parse(t.as_str()) {
                Ok(d) => Some(Scalar::Date(d)),
                Err(_) => None,
            },
        ),
        ScalarType::Datetime => Ok(
            match Instant::parse(t.as_str()) {
                Ok(i) => Some(Scalar::Datetime(i)),
                Err(_) => None,
            },
        ),
        ScalarType::Boolean => Ok(
            if same_text(t.as_str(), "true") {
                Some(Scalar::Boolean(true))
            } else if same_text(t.as_str(), "false") {
                Some(Scalar::Boolean(false))
            } else {
                None
            },
        ),
        ScalarType::Enum(nref) => match nomenclature_rows(nref, nomenclatures) {
            Ok(rows) => Ok(
                match find_label(rows, t.as_str()) {
                    Some(row) => Some(Scalar::Enum(row.id.dup())),
                    None => None,
                },
            ),
            Err(e) => Err(e),
        },
        _ => Ok(None),
    }
}

/// One scalar through one cast, and whether it lost information. Nothing
/// where a checked cast rejects the value.
pub open spec fn scalar_projection(
    s: ScalarModel,
    from: ScalarTypeModel,
    to: ScalarTypeModel,
    noms: Map<(Seq<char>, u32), Seq<OptionRowModel>>,
) -> Result<Option<(ScalarModel, bool)>, CastErrorModel> {
    if from == to {
        Ok(Some((s, false)))
    } else {
        match (from, to) {
            (ScalarTypeModel::Enum(w), ScalarTypeModel::Enum(r)) => match s {
                ScalarModel::Enum(id) => match cast::rows_of(r, noms) {
                    Ok(rows) => Ok(
                        if cast::has_option(rows, id) {
                            Some((s, w is Published && r is Inline))
                        } else {
                            None
                        },
                    ),
                    Err(e) => Err(e),
                },
                _ => Ok(None),
            },
            (ScalarTypeModel::Integer(a), ScalarTypeModel::Integer(b)) => Ok(
                number_projection(s, true, a, true, b),
            ),
            (ScalarTypeModel::Integer(a), ScalarTypeModel::Decimal(b)) => Ok(
                number_projection(s, true, a, false, b),
            ),
            (ScalarTypeModel::Decimal(a), ScalarTypeModel::Decimal(b)) => Ok(
                number_projection(s, false, a, false, b),
            ),
            (ScalarTypeModel::Decimal(a), ScalarTypeModel::Integer(b)) => Ok(
                number_projection(s, false, a, true, b),
            ),
            (ScalarTypeModel::Date, ScalarTypeModel::Datetime) => Ok(
                match s {
                    ScalarModel::Date(d) => Some(
                        (ScalarModel::Datetime(time::instant_of(time::midnight(d))->0), false),
                    ),
                    _ => None,
                },
            ),
            (ScalarTypeModel::Datetime, ScalarTypeModel::Date) => Ok(
                match s {
                    ScalarModel::Datetime(t) => {
                        let d = time::utc_day(time::timestamp_text(t))->0;
                        Some((ScalarModel::Date(d), time::instant_of(time::midnight(d))->0 != t))
                    },
                    _ => None,
                },
            ),
            (ScalarTypeModel::Enum(w), ScalarTypeModel::Text) => match s {
                ScalarModel::Enum(id) => match cast::rows_of(w, noms) {
                    Ok(rows) => Ok(
                        match cast::row_of(rows, id) {
                            Some(row) => Some((ScalarModel::Text(row.label), false)),
                            None => None,
                        },
                    ),
                    Err(e) => Err(e),
                },
                _ => Ok(None),
            },
            (ScalarTypeModel::Attachment(_), ScalarTypeModel::Attachment(c)) => Ok(
                match s {
                    ScalarModel::Attachment(a) => if c.accepts(a.content_type) && c.admits_size(
                        a.byte_size,
                    ) {
                        Some((s, false))
                    } else {
                        None
                    },
                    _ => None,
                },
            ),
            (_, ScalarTypeModel::Text) => Ok(Some((ScalarModel::Text(scalar_text(s)), false))),
            (ScalarTypeModel::Text, _) => match s {
                ScalarModel::Text(t) => match text_projection(t, to, noms) {
                    Ok(Some(x)) => Ok(Some((x, false))),
                    Ok(None) => Ok(None),
                    Err(e) => Err(e),
                },
                _ => Ok(None),
            },
            _ => Ok(None),
        }
    }
}

/// The models of a cast's outcome.
pub open spec fn cast_outcome(r: Result<Option<(Scalar, bool)>, CastError>) -> Result<
    Option<(ScalarModel, bool)>,
    CastErrorModel,
> {
    match r {
        Ok(x) => Ok(outcome_model(x)),
        Err(e) => Err(e@),
    }
}

/// One scalar through one cast.
pub fn project_scalar(
    scalar: &Scalar,
    from: &ScalarType,
    to: &ScalarType,
    nomenclatures: &NomenclatureTable,
) -> (r: Result<Option<(Scalar, bool)>, CastError>)
    ensures
        cast_outcome(r) == scalar_projection(scalar@, from@, to@, nomenclatures@),
{
    if from.same(to) {
        return Ok(Some((scalar.dup(), false)));
    }
    match (from, to) {
        (ScalarType::Enum(w), ScalarType::Enum(r)) => {
            let id = match scalar {
                Scalar::Enum(id) => id,
                _ => {
                    return Ok(None);
                },
            };
            match nomenclature_rows(r, nomenclatures) {
                Ok(rows) => {
                    if row_has_option(rows, id) {
                        let detached = match (w, r) {
                            (NomenclatureRef::Published { .. }, NomenclatureRef::Inline(_)) => true,
                            _ => false,
                        };
                        Ok(Some((scalar.dup(), detached)))
                    } else {
                        Ok(None)
                    }
                },
                Err(e) => Err(e),
            }
        },
        (ScalarType::Integer(a), ScalarType::Integer(b)) => Ok(
            project_number(scalar, true, *a, true, *b),
        ),
        (ScalarType::Integer(a), ScalarType::Decimal(b)) => Ok(
            project_number(scalar, true, *a, false, *b),
        ),
        (ScalarType::Decimal(a), ScalarType::Decimal(b)) => Ok(
            project_number(scalar, false, *a, false, *b),
        ),
        (ScalarType::Decimal(a), ScalarType::Integer(b)) => Ok(
            project_number(scalar, false, *a, true, *b),
        ),
        (ScalarType::Date, ScalarType::Datetime) => match scalar {
            Scalar::Date(d) => Ok(Some((Scalar::Datetime(d.at_midnight_utc()), false))),
            _ => Ok(None),
        },
        (ScalarType::Datetime, ScalarType::Date) => match scalar {
            Scalar::Datetime(t) => {
                let day = t.utc_date();
                let lossless = day.at_midnight_utc().same(t);
                Ok(Some((Scalar::Date(day), !lossless)))
            },
            _ => Ok(None),
        },
        (ScalarType::Enum(w), ScalarType::Text) => {
            let id = match scalar {
                Scalar::Enum(id) => id,
                _ => {
                    return Ok(None);
                },
            };
            match nomenclature_rows(w, nomenclatures) {
                Ok(rows) => match find_row(rows, id) {
                    Some(row) => Ok(Some((Scalar::Text(row.label.clone()), false))),
                    None => Ok(None),
                },
                Err(e) => Err(e),
            }
        },
        (ScalarType::Attachment(_), ScalarType::Attachment(c)) => match scalar {
            Scalar::Attachment(a) => {
                if c.accepts(a.content_type.as_str()) && c.admits_size(a.byte_size) {
                    Ok(Some((scalar.dup(), false)))
                } else {
                    Ok(None)
                }
            },
            _ => Ok(None),
        },
        (_, ScalarType::Text) => Ok(Some((Scalar::Text(render_text(scalar)), false))),
        (ScalarType::Text, _) => match scalar {
            Scalar::Text(t) => match project_text(t, to, nomenclatures) {
                Ok(Some(x)) => Ok(Some((x, false))),
                Ok(None) => Ok(None),
                Err(e) => Err(e),
            },
            _ => Ok(None),
        },
        _ => Ok(None),
    }
}

/// The scalars that a reader of one arity sees of a value, and whether
/// some are cut off.
pub open spec fn seen_scalars(v: CellValueModel, arity: Arity) -> (Seq<ScalarModel>, bool) {
    match (v, arity) {
        (CellValueModel::One(s), _) => (seq![s], false),
        (CellValueModel::Many(list), Arity::Many) => (list, false),
        (CellValueModel::Many(list), Arity::One) => if list.len() > 1 {
            (list.take(1), true)
        } else {
            (list, false)
        },
    }
}

/// Scalars through one cast. One that is rejected rejects them all.
pub open spec fn scalars_projection(
    scalars: Seq<ScalarModel>,
    from: ScalarTypeModel,
    to: ScalarTypeModel,
    noms: Map<(Seq<char>, u32), Seq<OptionRowModel>>,
) -> Result<Option<(Seq<ScalarModel>, bool)>, CastErrorModel>
    decreases scalars.len(),
{
    if scalars.len() == 0 {
        Ok(Some((Seq::empty(), false)))
    } else {
        match scalars_projection(scalars.drop_last(), from, to, noms) {
            Ok(Some((done, lossy))) => match scalar_projection(scalars.last(), from, to, noms) {
                Ok(Some((s, l))) => Ok(Some((done.push(s), lossy || l))),
                Ok(None) => Ok(None),
                Err(e) => Err(e),
            },
            x => x,
        }
    }
}

/// The state that projected scalars make.
pub open spec fn state_of_scalars(scalars: Seq<ScalarModel>, arity: Arity) -> CellStateModel {
    match arity {
        Arity::Many => CellStateModel::Value(CellValueModel::Many(scalars)),
        Arity::One => if scalars.len() == 0 {
            CellStateModel::Empty
        } else {
            CellStateModel::Value(CellValueModel::One(scalars[0]))
        },
    }
}

/// A cell's state under another column, and whether it lost information.
/// Nothing where a checked cast rejects it, or where it makes one element
/// of two.
pub open spec fn state_projection(
    state: CellStateModel,
    writer: ColumnInfoModel,
    reader: ColumnInfoModel,
    noms: Map<(Seq<char>, u32), Seq<OptionRowModel>>,
) -> Result<Option<(CellStateModel, bool)>, CastErrorModel> {
    match state {
        CellStateModel::Empty => Ok(Some((CellStateModel::Empty, false))),
        CellStateModel::Value(v) => {
            let (scalars, cut) = seen_scalars(v, reader.arity);
            match scalars_projection(scalars, writer.ty, reader.ty, noms) {
                Ok(Some((done, lossy))) => Ok(
                    if reader.arity == Arity::Many && conformance::repeats_element(done) {
                        None
                    } else {
                        Some((state_of_scalars(done, reader.arity), cut || lossy))
                    },
                ),
                Ok(None) => Ok(None),
                Err(e) => Err(e),
            }
        },
    }
}

proof fn scalars_stop(
    scalars: Seq<ScalarModel>,
    from: ScalarTypeModel,
    to: ScalarTypeModel,
    noms: Map<(Seq<char>, u32), Seq<OptionRowModel>>,
    n: int,
)
    requires
        0 <= n <= scalars.len(),
        scalars_projection(scalars.take(n), from, to, noms) is Err || scalars_projection(
            scalars.take(n),
            from,
            to,
            noms,
        )->Ok_0 is None,
    ensures
        scalars_projection(scalars, from, to, noms) == scalars_projection(
            scalars.take(n),
            from,
            to,
            noms,
        ),
    decreases scalars.len() - n,
{
    if n == scalars.len() {
        assert(scalars.take(n) =~= scalars);
    } else {
        assert(scalars.take(n + 1).drop_last() =~= scalars.take(n));
        scalars_stop(scalars, from, to, noms, n + 1);
    }
}

pub open spec fn scalars_outcome(r: Result<Option<(Vec<Scalar>, bool)>, CastError>) -> Result<
    Option<(Seq<ScalarModel>, bool)>,
    CastErrorModel,
> {
    match r {
        Ok(Some((v, l))) => Ok(Some((v.deep_view(), l))),
        Ok(None) => Ok(None),
        Err(e) => Err(e@),
    }
}

/// The first `n` scalars through one cast.
fn project_scalars(
    scalars: &Vec<Scalar>,
    n: usize,
    from: &ScalarType,
    to: &ScalarType,
    nomenclatures: &NomenclatureTable,
) -> (r: Result<Option<(Vec<Scalar>, bool)>, CastError>)
    requires
        n <= scalars@.len(),
    ensures
        scalars_outcome(r) == scalars_projection(
            scalars.deep_view().take(n as int),
            from@,
            to@,
            nomenclatures@,
        ),
{
    let ghost m = scalars.deep_view().take(n as int);
    let mut done: Vec<Scalar> = Vec::new();
    let mut lossy = false;
    let mut i: usize = 0;
    assert(m.take(0) =~= Seq::<ScalarModel>::empty());
    assert(done.deep_view() =~= Seq::<ScalarModel>::empty());
    while i < n
        invariant
            i <= n <= scalars@.len(),
            m == scalars.deep_view().take(n as int),
            scalars_projection(m.take(i as int), from@, to@, nomenclatures@) == Ok::<
                Option<(Seq<ScalarModel>, bool)>,
                CastErrorModel,
            >(Some((done.deep_view(), lossy))),
        decreases n - i,
    {
        proof {
            assert(m.take(i + 1).drop_last() =~= m.take(i as int));
            assert(m.take(i + 1).last() == scalars@[i as int].deep_view());
        }
        let ghost had = done.deep_view();
        match project_scalar(&scalars[i], from, to, nomenclatures) {
            Ok(Some((s, l))) => {
                let ghost x = s@;
                done.push(s);
                lossy = lossy || l;
                assert(done.deep_view() =~= had.push(x));
            },
            Ok(None) => {
                proof {
                    scalars_stop(m, from@, to@, nomenclatures@, i + 1);
                }
                return Ok(None);
            },
            Err(e) => {
                proof {
                    scalars_stop(m, from@, to@, nomenclatures@, i + 1);
                }
                return Err(e);
            },
        }
        i += 1;
    }
    assert(m.take(m.len() as int) =~= m);
    Ok(Some((done, lossy)))
}

pub open spec fn state_outcome(r: Result<Option<(CellState, bool)>, CastError>) -> Result<
    Option<(CellStateModel, bool)>,
    CastErrorModel,
> {
    match r {
        Ok(Some((s, l))) => Ok(Some((s@, l))),
        Ok(None) => Ok(None),
        Err(e) => Err(e@),
    }
}

/// A cell's state under another column.
pub fn project_state(
    state: &CellState,
    writer: &ColumnInfo,
    reader: &ColumnInfo,
    nomenclatures: &NomenclatureTable,
) -> (r: Result<Option<(CellState, bool)>, CastError>)
    ensures
        state_outcome(r) == state_projection(state@, writer@, reader@, nomenclatures@),
{
    let value = match state {
        CellState::Empty => {
            return Ok(Some((CellState::Empty, false)));
        },
        CellState::Value(v) => v,
    };
    let mut cut = false;
    let projected = match value {
        CellValue::One(s) => {
            let mut one: Vec<Scalar> = Vec::new();
            one.push(s.dup());
            assert(one.deep_view().take(1) =~= seq![s@]);
            project_scalars(&one, 1, &writer.ty, &reader.ty, nomenclatures)
        },
        CellValue::Many(list) => {
            let mut n = list.len();
            if reader.arity == Arity::One && n > 1 {
                n = 1;
                cut = true;
            }
            assert(seen_scalars(value@, reader@.arity).0 =~= list.deep_view().take(n as int));
            project_scalars(list, n, &writer.ty, &reader.ty, nomenclatures)
        },
    };
    assert(seen_scalars(value@, reader@.arity).1 == cut);
    match projected {
        Err(e) => Err(e),
        Ok(None) => Ok(None),
        Ok(Some((mut done, lossy))) => {
            let ghost all = done.deep_view();
            if reader.arity == Arity::Many && has_repeats(&done) {
                return Ok(None);
            }
            let state = match reader.arity {
                Arity::Many => CellState::Value(CellValue::Many(done)),
                Arity::One => {
                    if done.len() == 0 {
                        CellState::Empty
                    } else {
                        assert(all[0] == done@[0].deep_view());
                        CellState::Value(CellValue::One(done.remove(0)))
                    }
                },
            };
            Ok(Some((state, cut || lossy)))
        },
    }
}

/// The counts of a column's cells and the cells themselves.
#[verifier::ext_equal]
pub struct ColumnCells {
    pub cells: Map<CellAddrModel, CellStateModel>,
    pub projected: nat,
    pub lossy: nat,
    pub failed: nat,
}

/// A column's cells among some addresses, put beside `cells`.
pub open spec fn cells_projection(
    cells: Map<CellAddrModel, CellStateModel>,
    keys: Seq<CellAddrModel>,
    values: Map<CellAddrModel, CellStateModel>,
    column: Seq<char>,
    writer: ColumnInfoModel,
    reader: ColumnInfoModel,
    noms: Map<(Seq<char>, u32), Seq<OptionRowModel>>,
) -> Result<ColumnCells, CastErrorModel>
    decreases keys.len(),
{
    if keys.len() == 0 {
        Ok(ColumnCells { cells, projected: 0, lossy: 0, failed: 0 })
    } else {
        match cells_projection(cells, keys.drop_last(), values, column, writer, reader, noms) {
            Err(e) => Err(e),
            Ok(c) => {
                let addr = keys.last();
                if addr.column != column {
                    Ok(c)
                } else {
                    match state_projection(values[addr], writer, reader, noms) {
                        Err(e) => Err(e),
                        Ok(None) => Ok(ColumnCells { failed: c.failed + 1, ..c }),
                        Ok(Some((state, l))) => Ok(
                            ColumnCells {
                                cells: c.cells.insert(addr, state),
                                projected: c.projected + 1,
                                lossy: c.lossy + if l {
                                    1nat
                                } else {
                                    0nat
                                },
                                failed: c.failed,
                            },
                        ),
                    }
                }
            },
        }
    }
}

/// A report without cells.
pub open spec fn no_cells(status: ColumnStatus) -> ColumnReport {
    ColumnReport { status, cells_projected: 0, cells_lossy: 0, cells_failed: 0 }
}

/// The status of a column whose cast exists or not.
pub open spec fn cast_status(c: Cast) -> ColumnStatus {
    if !c.possible {
        ColumnStatus::Forbidden
    } else if c.spec_class() == CastClass::Identity {
        ColumnStatus::Identity
    } else {
        ColumnStatus::Cast
    }
}

/// One column of the reader: what is projected of it beside `cells`, and
/// its report.
pub open spec fn column_projection(
    cells: Map<CellAddrModel, CellStateModel>,
    values: Map<CellAddrModel, CellStateModel>,
    column: Seq<char>,
    writer: Map<Seq<char>, ColumnInfoModel>,
    reader: ColumnInfoModel,
    noms: Map<(Seq<char>, u32), Seq<OptionRowModel>>,
) -> Result<(Map<CellAddrModel, CellStateModel>, ColumnReport), CastErrorModel> {
    if !writer.dom().contains(column) {
        Ok((cells, no_cells(ColumnStatus::AddedAbsent)))
    } else if writer[column].scope != reader.scope {
        Ok((cells, no_cells(ColumnStatus::ScopeMoved)))
    } else {
        let w = writer[column];
        match cast::column_cast_of((w.ty, w.arity), (reader.ty, reader.arity), noms) {
            Err(e) => Err(e),
            Ok(cast) => if !cast.possible {
                Ok((cells, no_cells(ColumnStatus::Forbidden)))
            } else {
                match cells_projection(
                    cells,
                    collections::key_order::<CellAddr>(values.dom()),
                    values,
                    column,
                    w,
                    reader,
                    noms,
                ) {
                    Err(e) => Err(e),
                    Ok(c) => Ok(
                        (
                            c.cells,
                            ColumnReport {
                                status: cast_status(cast),
                                cells_projected: c.projected as u64,
                                cells_lossy: c.lossy as u64,
                                cells_failed: c.failed as u64,
                            },
                        ),
                    ),
                }
            },
        }
    }
}

/// The reader's columns, in order: the projected cells and the reports.
pub open spec fn columns_projection(
    keys: Seq<Seq<char>>,
    values: Map<CellAddrModel, CellStateModel>,
    writer: Map<Seq<char>, ColumnInfoModel>,
    reader: Map<Seq<char>, ColumnInfoModel>,
    noms: Map<(Seq<char>, u32), Seq<OptionRowModel>>,
) -> Result<
    (Map<CellAddrModel, CellStateModel>, Map<Seq<char>, ColumnReport>),
    CastErrorModel,
>
    decreases keys.len(),
{
    if keys.len() == 0 {
        Ok((Map::empty(), Map::empty()))
    } else {
        match columns_projection(keys.drop_last(), values, writer, reader, noms) {
            Err(e) => Err(e),
            Ok((cells, reports)) => {
                let column = keys.last();
                match column_projection(cells, values, column, writer, reader[column], noms) {
                    Err(e) => Err(e),
                    Ok((after, report)) => Ok((after, reports.insert(column, report))),
                }
            },
        }
    }
}

/// The columns among some that the reader does not have.
pub open spec fn ignored_columns(
    keys: Seq<Seq<char>>,
    reader: Map<Seq<char>, ColumnInfoModel>,
) -> Seq<Seq<char>>
    decreases keys.len(),
{
    if keys.len() == 0 {
        Seq::empty()
    } else {
        let rest = ignored_columns(keys.drop_last(), reader);
        if reader.dom().contains(keys.last()) {
            rest
        } else {
            rest.push(keys.last())
        }
    }
}

/// Whether an item list stands where the reader has its group.
pub open spec fn list_is_kept(
    addr: ItemsAddrModel,
    groups: Map<Seq<char>, GroupInfoModel>,
) -> bool {
    groups.dom().contains(addr.group) && groups[addr.group].cardinality == Cardinality::Many
        && conformance::path_groups(addr.parent) == groups[addr.group].parent_scope
}

/// The item lists among some addresses that are kept, and how many are
/// not.
pub open spec fn lists_projection(
    keys: Seq<ItemsAddrModel>,
    items: Map<ItemsAddrModel, Seq<Seq<char>>>,
    groups: Map<Seq<char>, GroupInfoModel>,
) -> (Map<ItemsAddrModel, Seq<Seq<char>>>, nat)
    decreases keys.len(),
{
    if keys.len() == 0 {
        (Map::empty(), 0)
    } else {
        let (kept, dropped) = lists_projection(keys.drop_last(), items, groups);
        if list_is_kept(keys.last(), groups) {
            (kept.insert(keys.last(), items[keys.last()]), dropped)
        } else {
            (kept, dropped + 1)
        }
    }
}

/// A record written under one schema, as another reads it.
pub open spec fn projection(
    v: RecordValuesModel,
    writer: SchemaModel,
    reader: SchemaModel,
    noms: Map<(Seq<char>, u32), Seq<OptionRowModel>>,
) -> Result<ProjectionModel, CastErrorModel> {
    let w = conformance::schema_index(writer);
    let r = conformance::schema_index(reader);
    match columns_projection(
        collections::key_order::<ColumnId>(r.columns.dom()),
        v.cells,
        w.columns,
        r.columns,
        noms,
    ) {
        Err(e) => Err(e),
        Ok((cells, columns)) => {
            let (items, dropped) = lists_projection(
                collections::key_order::<ItemsAddr>(v.items.dom()),
                v.items,
                r.groups,
            );
            Ok(
                ProjectionModel {
                    values: RecordValuesModel { cells, items },
                    report: ProjectionReportModel {
                        columns,
                        ignored_writer_columns: ignored_columns(
                            collections::key_order::<ColumnId>(w.columns.dom()),
                            r.columns,
                        ),
                        dropped_item_lists: dropped as u64,
                    },
                },
            )
        },
    }
}

proof fn cells_stop(
    cells: Map<CellAddrModel, CellStateModel>,
    keys: Seq<CellAddrModel>,
    values: Map<CellAddrModel, CellStateModel>,
    column: Seq<char>,
    writer: ColumnInfoModel,
    reader: ColumnInfoModel,
    noms: Map<(Seq<char>, u32), Seq<OptionRowModel>>,
    n: int,
)
    requires
        0 <= n <= keys.len(),
        cells_projection(cells, keys.take(n), values, column, writer, reader, noms) is Err,
    ensures
        cells_projection(cells, keys, values, column, writer, reader, noms) == cells_projection(
            cells,
            keys.take(n),
            values,
            column,
            writer,
            reader,
            noms,
        ),
    decreases keys.len() - n,
{
    if n == keys.len() {
        assert(keys.take(n) =~= keys);
    } else {
        assert(keys.take(n + 1).drop_last() =~= keys.take(n));
        cells_stop(cells, keys, values, column, writer, reader, noms, n + 1);
    }
}

/// Projects a column's cells and counts them.
fn project_cells(
    values: &OrderedMap<CellAddr, CellState>,
    column: &ColumnId,
    writer: &ColumnInfo,
    reader: &ColumnInfo,
    nomenclatures: &NomenclatureTable,
    status: ColumnStatus,
    out: &mut OrderedMap<CellAddr, CellState>,
) -> (r: Result<ColumnReport, CastError>)
    ensures
        match cells_projection(
            old(out)@,
            values.keys(),
            values@,
            column@,
            writer@,
            reader@,
            nomenclatures@,
        ) {
            Ok(c) => r matches Ok(x) && final(out)@ == c.cells && x == (ColumnReport {
                status,
                cells_projected: c.projected as u64,
                cells_lossy: c.lossy as u64,
                cells_failed: c.failed as u64,
            }),
            Err(e) => r matches Err(x) && x@ == e,
        },
{
    let n = values.len();
    let ghost keys = values.keys();
    let ghost start = out@;
    let mut report = ColumnReport { status, cells_projected: 0, cells_lossy: 0, cells_failed: 0 };
    let mut i: usize = 0;
    assert(keys.take(0) =~= Seq::<CellAddrModel>::empty());
    while i < n
        invariant
            i <= n == keys.len(),
            keys == values.keys(),
            start == old(out)@,
            cells_projection(
                start,
                keys.take(i as int),
                values@,
                column@,
                writer@,
                reader@,
                nomenclatures@,
            ) == Ok::<ColumnCells, CastErrorModel>(
                ColumnCells {
                    cells: out@,
                    projected: report.cells_projected as nat,
                    lossy: report.cells_lossy as nat,
                    failed: report.cells_failed as nat,
                },
            ),
            report.status == status,
            report.cells_lossy <= report.cells_projected,
            report.cells_projected + report.cells_failed <= i,
        decreases n - i,
    {
        let addr = values.key_at(i);
        proof {
            assert(keys.take(i + 1).drop_last() =~= keys.take(i as int));
            assert(keys.take(i + 1).last() == addr@);
        }
        if addr.column.same(column) {
            match project_state(values.value_at(i), writer, reader, nomenclatures) {
                Ok(Some((state, lossy))) => {
                    report.cells_projected += 1;
                    if lossy {
                        report.cells_lossy += 1;
                    }
                    out.insert(addr.dup(), state);
                },
                Ok(None) => {
                    report.cells_failed += 1;
                },
                Err(e) => {
                    proof {
                        cells_stop(
                            start,
                            keys,
                            values@,
                            column@,
                            writer@,
                            reader@,
                            nomenclatures@,
                            i + 1,
                        );
                    }
                    return Err(e);
                },
            }
        }
        i += 1;
    }
    assert(keys.take(n as int) =~= keys);
    Ok(report)
}

/// Projects one column of the reader.
fn project_column(
    values: &OrderedMap<CellAddr, CellState>,
    column: &ColumnId,
    writer: &OrderedMap<ColumnId, ColumnInfo>,
    reader: &ColumnInfo,
    nomenclatures: &NomenclatureTable,
    out: &mut OrderedMap<CellAddr, CellState>,
) -> (r: Result<ColumnReport, CastError>)
    ensures
        match column_projection(
            old(out)@,
            values@,
            column@,
            writer@,
            reader@,
            nomenclatures@,
        ) {
            Ok((cells, report)) => r == Ok::<ColumnReport, CastError>(report) && final(out)@
                == cells,
            Err(e) => r matches Err(x) && x@ == e,
        },
{
    let none = ColumnReport {
        status: ColumnStatus::AddedAbsent,
        cells_projected: 0,
        cells_lossy: 0,
        cells_failed: 0,
    };
    let winfo = match writer.get(column) {
        Some(w) => w,
        None => {
            return Ok(none);
        },
    };
    if !same_vec(&winfo.scope, &reader.scope) {
        return Ok(ColumnReport { status: ColumnStatus::ScopeMoved, ..none });
    }
    let cast = match column_cast(
        (&winfo.ty, winfo.arity),
        (&reader.ty, reader.arity),
        nomenclatures,
    ) {
        Ok(c) => c,
        Err(e) => {
            return Err(e);
        },
    };
    if !cast.possible {
        return Ok(ColumnReport { status: ColumnStatus::Forbidden, ..none });
    }
    let status = if cast.class() == CastClass::Identity {
        ColumnStatus::Identity
    } else {
        ColumnStatus::Cast
    };
    project_cells(values, column, winfo, reader, nomenclatures, status, out)
}

proof fn columns_stop(
    keys: Seq<Seq<char>>,
    values: Map<CellAddrModel, CellStateModel>,
    writer: Map<Seq<char>, ColumnInfoModel>,
    reader: Map<Seq<char>, ColumnInfoModel>,
    noms: Map<(Seq<char>, u32), Seq<OptionRowModel>>,
    n: int,
)
    requires
        0 <= n <= keys.len(),
        columns_projection(keys.take(n), values, writer, reader, noms) is Err,
    ensures
        columns_projection(keys, values, writer, reader, noms) == columns_projection(
            keys.take(n),
            values,
            writer,
            reader,
            noms,
        ),
    decreases keys.len() - n,
{
    if n == keys.len() {
        assert(keys.take(n) =~= keys);
    } else {
        assert(keys.take(n + 1).drop_last() =~= keys.take(n));
        columns_stop(keys, values, writer, reader, noms, n + 1);
    }
}

/// Projects the reader's columns.
fn project_columns(
    values: &RecordValues,
    writer: &SchemaIndex,
    reader: &SchemaIndex,
    nomenclatures: &NomenclatureTable,
) -> (r: Result<
    (OrderedMap<CellAddr, CellState>, OrderedMap<ColumnId, ColumnReport>),
    CastError,
>)
    ensures
        match columns_projection(
            collections::key_order::<ColumnId>(reader@.columns.dom()),
            values@.cells,
            writer@.columns,
            reader@.columns,
            nomenclatures@,
        ) {
            Ok((cells, reports)) => r matches Ok(x) && x.0@ == cells && x.1@ == reports,
            Err(e) => r matches Err(x) && x@ == e,
        },
{
    let n = reader.columns.len();
    let ghost keys = reader.columns.keys();
    let mut cells: OrderedMap<CellAddr, CellState> = OrderedMap::new();
    let mut reports: OrderedMap<ColumnId, ColumnReport> = OrderedMap::new();
    let mut i: usize = 0;
    assert(keys.take(0) =~= Seq::<Seq<char>>::empty());
    while i < n
        invariant
            i <= n == keys.len(),
            keys == reader.columns.keys(),
            columns_projection(
                keys.take(i as int),
                values@.cells,
                writer@.columns,
                reader@.columns,
                nomenclatures@,
            ) == Ok::<
                (Map<CellAddrModel, CellStateModel>, Map<Seq<char>, ColumnReport>),
                CastErrorModel,
            >((cells@, reports@)),
        decreases n - i,
    {
        let column = reader.columns.key_at(i);
        proof {
            assert(keys.take(i + 1).drop_last() =~= keys.take(i as int));
            assert(keys.take(i + 1).last() == column@);
        }
        match project_column(
            &values.cells,
            column,
            &writer.columns,
            reader.columns.value_at(i),
            nomenclatures,
            &mut cells,
        ) {
            Ok(report) => {
                reports.insert(column.dup(), report);
            },
            Err(e) => {
                proof {
                    columns_stop(
                        keys,
                        values@.cells,
                        writer@.columns,
                        reader@.columns,
                        nomenclatures@,
                        i + 1,
                    );
                }
                return Err(e);
            },
        }
        i += 1;
    }
    assert(keys.take(n as int) =~= keys);
    Ok((cells, reports))
}

fn find_ignored(writer: &SchemaIndex, reader: &SchemaIndex) -> (r: Vec<ColumnId>)
    ensures
        r.deep_view() == ignored_columns(
            collections::key_order::<ColumnId>(writer@.columns.dom()),
            reader@.columns,
        ),
{
    let n = writer.columns.len();
    let ghost keys = writer.columns.keys();
    let mut r: Vec<ColumnId> = Vec::new();
    let mut i: usize = 0;
    assert(keys.take(0) =~= Seq::<Seq<char>>::empty());
    assert(r.deep_view() =~= Seq::<Seq<char>>::empty());
    while i < n
        invariant
            i <= n == keys.len(),
            keys == writer.columns.keys(),
            r.deep_view() == ignored_columns(keys.take(i as int), reader@.columns),
        decreases n - i,
    {
        let column = writer.columns.key_at(i);
        let ghost had = r.deep_view();
        proof {
            assert(keys.take(i + 1).drop_last() =~= keys.take(i as int));
            assert(keys.take(i + 1).last() == column@);
        }
        if !reader.columns.contains_key(column) {
            r.push(column.dup());
            assert(r.deep_view() =~= had.push(column@));
        }
        i += 1;
    }
    assert(keys.take(n as int) =~= keys);
    r
}

fn project_lists(
    items: &OrderedMap<ItemsAddr, Vec<ItemId>>,
    reader: &SchemaIndex,
) -> (r: (OrderedMap<ItemsAddr, Vec<ItemId>>, u64))
    ensures
        r.0@ == lists_projection(items.keys(), items@, reader@.groups).0,
        r.1 == lists_projection(items.keys(), items@, reader@.groups).1,
{
    let n = items.len();
    let ghost keys = items.keys();
    let mut kept: OrderedMap<ItemsAddr, Vec<ItemId>> = OrderedMap::new();
    let mut dropped: u64 = 0;
    let mut i: usize = 0;
    assert(keys.take(0) =~= Seq::<ItemsAddrModel>::empty());
    while i < n
        invariant
            i <= n == keys.len(),
            keys == items.keys(),
            kept@ == lists_projection(keys.take(i as int), items@, reader@.groups).0,
            dropped == lists_projection(keys.take(i as int), items@, reader@.groups).1,
            dropped <= i,
        decreases n - i,
    {
        let addr = items.key_at(i);
        proof {
            assert(keys.take(i + 1).drop_last() =~= keys.take(i as int));
            assert(keys.take(i + 1).last() == addr@);
        }
        let keep = match reader.groups.get(&addr.group) {
            Some(g) => g.cardinality == Cardinality::Many && path_is_in_scope(
                &addr.parent,
                &g.parent_scope,
            ),
            None => false,
        };
        if keep {
            kept.insert(addr.dup(), items.value_at(i).dup());
        } else {
            dropped += 1;
        }
        i += 1;
    }
    assert(keys.take(n as int) =~= keys);
    (kept, dropped)
}

/// Projects a record, written under `writer`, into the reader's view. An
/// option's label is read through the writer's nomenclature: that is what
/// the stored id means.
pub fn project(
    values: &RecordValues,
    writer: &Schema,
    reader: &Schema,
    nomenclatures: &NomenclatureTable,
) -> (r: Result<Projection, CastError>)
    ensures
        order::result_model(r) == projection(values@, writer@, reader@, nomenclatures@),
{
    let windex = SchemaIndex::build(writer);
    let rindex = SchemaIndex::build(reader);
    let (cells, columns) = match project_columns(values, &windex, &rindex, nomenclatures) {
        Ok(x) => x,
        Err(e) => {
            return Err(e);
        },
    };
    let (items, dropped_item_lists) = project_lists(&values.items, &rindex);
    let ignored_writer_columns = find_ignored(&windex, &rindex);
    Ok(
        Projection {
            values: RecordValues { cells, items },
            report: ProjectionReport { columns, ignored_writer_columns, dropped_item_lists },
        },
    )
}

/// A scalar that fits its column and comes through a possible cast fits
/// the column that it was cast to.
pub proof fn projected_scalar_conforms(
    s: ScalarModel,
    from: ScalarTypeModel,
    to: ScalarTypeModel,
    column: Seq<char>,
    noms: Map<(Seq<char>, u32), Seq<OptionRowModel>>,
)
    requires
        conformance::scalar_errors(s, from, column, noms).len() == 0,
        cast::cast_between(from, to, noms) matches Ok(c) && c.possible,
        scalar_projection(s, from, to, noms) matches Ok(Some(_)),
    ensures
        conformance::scalar_errors((scalar_projection(s, from, to, noms)->Ok_0->0).0, to, column, noms).len()
            == 0,
{
    if let ScalarTypeModel::Enum(r) = to {
        if let (ScalarTypeModel::Text, ScalarModel::Text(t)) = (from, s) {
            if let Ok(rows) = cast::rows_of(r, noms) {
                labelled_is_option(rows, t);
            }
        }
    }
}

proof fn labelled_is_option(rows: Seq<OptionRowModel>, label: Seq<char>)
    ensures
        row_labelled(rows, label) matches Some(row) ==> cast::has_option(rows, row.id),
    decreases rows.len(),
{
    if rows.len() > 0 {
        labelled_is_option(rows.drop_first(), label);
        if rows[0].label != label {
            if let Some(row) = row_labelled(rows, label) {
                let i = choose|i: int|
                    0 <= i < rows.drop_first().len() && (#[trigger] rows.drop_first()[i]).id
                        == row.id;
                assert(rows[i + 1].id == row.id);
            }
        }
    }
}

/// A cast that the table calls total comes through for every scalar that
/// fits its column, and for every file that its column's constraints
/// admit; one that the table calls free loses nothing.
pub proof fn total_casts_come_through(
    s: ScalarModel,
    from: ScalarTypeModel,
    to: ScalarTypeModel,
    column: Seq<char>,
    noms: Map<(Seq<char>, u32), Seq<OptionRowModel>>,
)
    requires
        conformance::scalar_errors(s, from, column, noms).len() == 0,
        cast::cast_between(from, to, noms) matches Ok(c) && c.possible && !c.checked,
        from matches ScalarTypeModel::Attachment(c) ==> c.accepts(s->Attachment_0.content_type)
            && c.admits_size(s->Attachment_0.byte_size),
    ensures
        scalar_projection(s, from, to, noms) matches Ok(Some(_)),
        !(cast::cast_between(from, to, noms)->Ok_0.lossy) ==> !(scalar_projection(
            s,
            from,
            to,
            noms,
        )->Ok_0->0).1,
{
    match (from, to) {
        (ScalarTypeModel::Enum(w), ScalarTypeModel::Enum(r)) => {
            if from != to {
                let a = cast::rows_of(w, noms)->Ok_0;
                let b = cast::rows_of(r, noms)->Ok_0;
                let id = s->Enum_0;
                let i = choose|i: int| 0 <= i < a.len() && (#[trigger] a[i]).id == id;
                assert(cast::has_option(b, a[i].id));
            }
        },
        (ScalarTypeModel::Enum(w), ScalarTypeModel::Text) => {
            cast::row_of_has_option(cast::rows_of(w, noms)->Ok_0, s->Enum_0);
        },
        (ScalarTypeModel::Attachment(a), ScalarTypeModel::Attachment(b)) => {
            if a.equivalent(b) {
                schema::equivalent_covers(a, b);
            }
            let file = s->Attachment_0;
            schema::covered_files_are_admitted(b, a, file.content_type, file.byte_size);
        },
        _ => {},
    }
}

proof fn projected_scalars_conform(
    s: Seq<ScalarModel>,
    from: ScalarTypeModel,
    to: ScalarTypeModel,
    column: Seq<char>,
    noms: Map<(Seq<char>, u32), Seq<OptionRowModel>>,
)
    requires
        forall|i: int|
            0 <= i < s.len() ==> conformance::scalar_errors(#[trigger] s[i], from, column, noms).len() == 0,
        cast::cast_between(from, to, noms) matches Ok(c) && c.possible,
    ensures
        scalars_projection(s, from, to, noms) matches Ok(Some((done, _))) ==> done.len() == s.len()
            && forall|i: int|
            0 <= i < done.len() ==> conformance::scalar_errors(#[trigger] done[i], to, column, noms).len() == 0,
    decreases s.len(),
{
    if s.len() > 0 {
        let rest = s.drop_last();
        assert forall|i: int| 0 <= i < rest.len() implies conformance::scalar_errors(
            #[trigger] rest[i],
            from,
            column,
            noms,
        ).len() == 0 by {
            assert(rest[i] == s[i]);
        }
        projected_scalars_conform(rest, from, to, column, noms);
        assert(s.last() == s[s.len() - 1]);
        if scalar_projection(s.last(), from, to, noms) matches Ok(Some(_)) {
            projected_scalar_conforms(s.last(), from, to, column, noms);
        }
    }
}

/// A cell that fits its column and is projected by a possible cast fits
/// the reader's column.
pub proof fn projected_state_conforms(
    state: CellStateModel,
    writer: ColumnInfoModel,
    reader: ColumnInfoModel,
    column: Seq<char>,
    noms: Map<(Seq<char>, u32), Seq<OptionRowModel>>,
)
    requires
        conformance::state_errors(state, writer, column, noms).len() == 0,
        cast::cast_between(writer.ty, reader.ty, noms) matches Ok(c) && c.possible,
    ensures
        state_projection(state, writer, reader, noms) matches Ok(Some((p, _))) ==> conformance::state_errors(
            p,
            reader,
            column,
            noms,
        ).len() == 0,
{
    if let CellStateModel::Value(v) = state {
        let (scalars, cut) = seen_scalars(v, reader.arity);
        match v {
            CellValueModel::One(s) => {
                assert(scalars[0] == s);
            },
            CellValueModel::Many(list) => {
                conformance::list_conforms_where_each_does(list, writer.ty, column, noms);
            },
        }
        projected_scalars_conform(scalars, writer.ty, reader.ty, column, noms);
        if let Ok(Some((done, _))) = scalars_projection(scalars, writer.ty, reader.ty, noms) {
            conformance::list_conforms_where_each_does(done, reader.ty, column, noms);
        }
    }
}

/// A cast other than from text to options gives a scalar the identity
/// that it had, or none.
proof fn casts_keep_identity(
    s: ScalarModel,
    from: ScalarTypeModel,
    to: ScalarTypeModel,
    noms: Map<(Seq<char>, u32), Seq<OptionRowModel>>,
)
    requires
        !(from is Text && to is Enum),
    ensures
        scalar_projection(s, from, to, noms) matches Ok(Some((x, _))) ==> x.element_id() is None
            || x.element_id() == s.element_id(),
{
}

/// A cast other than from text to options gives no two elements of a list
/// one identity.
pub proof fn casts_repeat_nothing(
    s: Seq<ScalarModel>,
    from: ScalarTypeModel,
    to: ScalarTypeModel,
    noms: Map<(Seq<char>, u32), Seq<OptionRowModel>>,
)
    requires
        !(from is Text && to is Enum),
        !conformance::repeats_element(s),
    ensures
        scalars_projection(s, from, to, noms) matches Ok(Some((done, _))) ==> !conformance::repeats_element(
            done,
        ),
{
    if let Ok(Some((done, _))) = scalars_projection(s, from, to, noms) {
        projected_one_by_one(s, from, to, noms);
        if conformance::repeats_element(done) {
            let j = choose|j: int| 0 <= j < done.len() && #[trigger] conformance::is_repeated(done, j);
            let id = done[j].element_id()->0;
            let i = choose|i: int|
                0 <= i < done.take(j).len() && (#[trigger] done.take(j)[i]).element_id() == Some(
                    id,
                );
            assert(done.take(j)[i] == done[i]);
            casts_keep_identity(s[i], from, to, noms);
            casts_keep_identity(s[j], from, to, noms);
            assert(comes_to(s[i], done[i], from, to, noms));
            assert(comes_to(s[j], done[j], from, to, noms));
            assert(s.take(j)[i] == s[i]);
            assert(conformance::is_repeated(s, j));
        }
    }
}

spec fn comes_to(
    s: ScalarModel,
    x: ScalarModel,
    from: ScalarTypeModel,
    to: ScalarTypeModel,
    noms: Map<(Seq<char>, u32), Seq<OptionRowModel>>,
) -> bool {
    scalar_projection(s, from, to, noms) matches Ok(Some((y, _))) && y == x
}

proof fn projected_one_by_one(
    s: Seq<ScalarModel>,
    from: ScalarTypeModel,
    to: ScalarTypeModel,
    noms: Map<(Seq<char>, u32), Seq<OptionRowModel>>,
)
    ensures
        scalars_projection(s, from, to, noms) matches Ok(Some((done, _))) ==> done.len() == s.len()
            && forall|i: int|
            0 <= i < done.len() ==> #[trigger] comes_to(s[i], done[i], from, to, noms),
    decreases s.len(),
{
    if s.len() > 0 {
        let rest = s.drop_last();
        projected_one_by_one(rest, from, to, noms);
        if let Ok(Some((done, _))) = scalars_projection(s, from, to, noms) {
            let before = (scalars_projection(rest, from, to, noms)->Ok_0->0).0;
            assert(done.drop_last() =~= before);
            assert forall|i: int| 0 <= i < done.len() implies #[trigger] comes_to(
                s[i],
                done[i],
                from,
                to,
                noms,
            ) by {
                if i < rest.len() {
                    assert(rest[i] == s[i]);
                    assert(before[i] == done[i]);
                    assert(comes_to(rest[i], before[i], from, to, noms));
                } else {
                    assert(s[i] == s.last());
                }
            }
        }
    }
}

proof fn own_type_keeps_scalars(
    s: Seq<ScalarModel>,
    ty: ScalarTypeModel,
    noms: Map<(Seq<char>, u32), Seq<OptionRowModel>>,
)
    ensures
        scalars_projection(s, ty, ty, noms) == Ok::<
            Option<(Seq<ScalarModel>, bool)>,
            CastErrorModel,
        >(Some((s, false))),
    decreases s.len(),
{
    if s.len() > 0 {
        own_type_keeps_scalars(s.drop_last(), ty, noms);
        assert(s.drop_last().push(s.last()) =~= s);
    } else {
        assert(s =~= Seq::<ScalarModel>::empty());
    }
}

/// A cell that fits its column reads as itself under that column.
pub proof fn own_column_changes_nothing(
    state: CellStateModel,
    info: ColumnInfoModel,
    column: Seq<char>,
    noms: Map<(Seq<char>, u32), Seq<OptionRowModel>>,
)
    requires
        conformance::state_errors(state, info, column, noms).len() == 0,
    ensures
        state_projection(state, info, info, noms) == Ok::<
            Option<(CellStateModel, bool)>,
            CastErrorModel,
        >(Some((state, false))),
{
    if let CellStateModel::Value(v) = state {
        let (scalars, cut) = seen_scalars(v, info.arity);
        own_type_keeps_scalars(scalars, info.ty, noms);
        if let CellValueModel::Many(list) = v {
            conformance::list_conforms_where_each_does(list, info.ty, column, noms);
        }
    }
}

/// The cells of some columns.
pub open spec fn cells_of_columns(
    values: Map<CellAddrModel, CellStateModel>,
    columns: Seq<Seq<char>>,
) -> Map<CellAddrModel, CellStateModel> {
    Map::new(
        |a: CellAddrModel| values.dom().contains(a) && columns.contains(a.column),
        |a: CellAddrModel| values[a],
    )
}

proof fn own_cells(
    cells: Map<CellAddrModel, CellStateModel>,
    keys: Seq<CellAddrModel>,
    values: Map<CellAddrModel, CellStateModel>,
    column: Seq<char>,
    info: ColumnInfoModel,
    noms: Map<(Seq<char>, u32), Seq<OptionRowModel>>,
)
    requires
        forall|i: int|
            0 <= i < keys.len() && (#[trigger] keys[i]).column == column ==> conformance::state_errors(
                values[keys[i]],
                info,
                column,
                noms,
            ).len() == 0,
    ensures
        cells_projection(cells, keys, values, column, info, info, noms) matches Ok(c) && {
            &&& c.lossy == 0
            &&& c.failed == 0
            &&& forall|a: CellAddrModel| #[trigger]
                c.cells.dom().contains(a) <==> cells.dom().contains(a) || (keys.contains(a)
                    && a.column == column)
            &&& forall|a: CellAddrModel|
                keys.contains(a) && a.column == column ==> #[trigger] c.cells[a] == values[a]
            &&& forall|a: CellAddrModel|
                !(keys.contains(a) && a.column == column) ==> #[trigger] c.cells[a] == cells[a]
        },
    decreases keys.len(),
{
    if keys.len() > 0 {
        let rest = keys.drop_last();
        assert forall|i: int| 0 <= i < rest.len() && (#[trigger] rest[i]).column
            == column implies conformance::state_errors(values[rest[i]], info, column, noms).len() == 0 by {
            assert(rest[i] == keys[i]);
        }
        own_cells(cells, rest, values, column, info, noms);
        value::take_next(keys, keys.len() - 1);
        assert(keys.take(keys.len() - 1) =~= rest);
        assert(keys.take(keys.len() as int) =~= keys);
        let addr = keys.last();
        assert(addr == keys[keys.len() - 1]);
        if addr.column == column {
            own_column_changes_nothing(values[addr], info, column, noms);
        }
    }
}

proof fn own_columns(
    keys: Seq<Seq<char>>,
    v: RecordValuesModel,
    columns: Map<Seq<char>, ColumnInfoModel>,
    noms: Map<(Seq<char>, u32), Seq<OptionRowModel>>,
    addrs: Seq<CellAddrModel>,
)
    requires
        addrs == collections::key_order::<CellAddr>(v.cells.dom()),
        collections::lists::<CellAddr>(addrs, v.cells.dom()),
        keys.no_duplicates(),
        forall|i: int| 0 <= i < keys.len() ==> columns.dom().contains(#[trigger] keys[i]),
        forall|a: CellAddrModel| #[trigger]
            v.cells.dom().contains(a) && columns.dom().contains(a.column) ==> conformance::state_errors(
                v.cells[a],
                columns[a.column],
                a.column,
                noms,
            ).len() == 0,
    ensures
        columns_projection(keys, v.cells, columns, columns, noms) matches Ok((cells, reports)) && {
            &&& cells == cells_of_columns(v.cells, keys)
            &&& forall|c: Seq<char>| #[trigger] reports.dom().contains(c) <==> keys.contains(c)
            &&& forall|c: Seq<char>| #[trigger]
                reports.dom().contains(c) ==> reports[c].status == ColumnStatus::Identity
                    && reports[c].cells_lossy == 0 && reports[c].cells_failed == 0
        },
    decreases keys.len(),
{
    if keys.len() == 0 {
        assert(cells_of_columns(v.cells, keys) =~= Map::<CellAddrModel, CellStateModel>::empty());
    } else {
        let rest = keys.drop_last();
        assert forall|i: int| 0 <= i < rest.len() implies columns.dom().contains(
            #[trigger] rest[i],
        ) by {
            assert(rest[i] == keys[i]);
        }
        own_columns(rest, v, columns, noms, addrs);
        let (before, reports) = columns_projection(rest, v.cells, columns, columns, noms)->Ok_0;
        let column = keys.last();
        assert(column == keys[keys.len() - 1]);
        let info = columns[column];
        assert forall|i: int| 0 <= i < addrs.len() && (#[trigger] addrs[i]).column
            == column implies conformance::state_errors(v.cells[addrs[i]], info, column, noms).len() == 0 by {
            assert(addrs.contains(addrs[i]));
            assert(v.cells.dom().contains(addrs[i]));
        }
        own_cells(before, addrs, v.cells, column, info, noms);
        let c = cells_projection(before, addrs, v.cells, column, info, info, noms)->Ok_0;
        value::take_next(keys, keys.len() - 1);
        assert(keys.take(keys.len() - 1) =~= rest);
        assert(keys.take(keys.len() as int) =~= keys);
        assert forall|a: CellAddrModel| #[trigger]
            c.cells.dom().contains(a) <==> cells_of_columns(v.cells, keys).dom().contains(a) by {
            assert(addrs.contains(a) <==> v.cells.dom().contains(a));
        }
        assert forall|a: CellAddrModel| #[trigger]
            cells_of_columns(v.cells, keys).dom().contains(a) implies c.cells[a]
            == v.cells[a] by {
            assert(addrs.contains(a) <==> v.cells.dom().contains(a));
        }
        assert(c.cells =~= cells_of_columns(v.cells, keys));
        assert(cast::cast_between(info.ty, info.ty, noms) == Ok::<Cast, CastErrorModel>(cast::identity())) by {
            if let ScalarTypeModel::Attachment(x) = info.ty {
                assert(x.equivalent(x)) by {
                    assert forall|i: int| 0 <= i < x.accept.len() implies x.names(
                        #[trigger] x.accept[i],
                    ) by {
                        assert(schema::lower(x.accept[i]) == schema::lower(x.accept[i]));
                    }
                }
            }
        }
    }
}

proof fn own_lists(
    keys: Seq<ItemsAddrModel>,
    items: Map<ItemsAddrModel, Seq<Seq<char>>>,
    groups: Map<Seq<char>, GroupInfoModel>,
)
    requires
        forall|i: int| 0 <= i < keys.len() ==> list_is_kept(#[trigger] keys[i], groups),
    ensures
        lists_projection(keys, items, groups).1 == 0,
        forall|a: ItemsAddrModel| #[trigger]
            lists_projection(keys, items, groups).0.dom().contains(a) <==> keys.contains(a),
        forall|a: ItemsAddrModel|
            keys.contains(a) ==> #[trigger] lists_projection(keys, items, groups).0[a] == items[a],
    decreases keys.len(),
{
    if keys.len() > 0 {
        let rest = keys.drop_last();
        assert forall|i: int| 0 <= i < rest.len() implies list_is_kept(
            #[trigger] rest[i],
            groups,
        ) by {
            assert(rest[i] == keys[i]);
        }
        own_lists(rest, items, groups);
        value::take_next(keys, keys.len() - 1);
        assert(keys.take(keys.len() - 1) =~= rest);
        assert(keys.take(keys.len() as int) =~= keys);
        assert(keys.last() == keys[keys.len() - 1]);
    }
}

/// Whether every cell and item list of a record fits a schema's index.
pub open spec fn fits(
    v: RecordValuesModel,
    index: SchemaIndexModel,
    noms: Map<(Seq<char>, u32), Seq<OptionRowModel>>,
) -> bool {
    &&& forall|a: CellAddrModel| #[trigger]
        v.cells.dom().contains(a) ==> index.columns.dom().contains(a.column) && conformance::state_errors(
            v.cells[a],
            index.columns[a.column],
            a.column,
            noms,
        ).len() == 0
    &&& forall|a: ItemsAddrModel| #[trigger]
        v.items.dom().contains(a) ==> list_is_kept(a, index.groups)
}

/// Reading a record that fits a schema through that schema changes
/// nothing, and the report is clean.
pub proof fn own_schema_changes_nothing(
    v: RecordValuesModel,
    schema: SchemaModel,
    noms: Map<(Seq<char>, u32), Seq<OptionRowModel>>,
)
    requires
        fits(v, conformance::schema_index(schema), noms),
        collections::is_listed::<CellAddr>(v.cells.dom()),
        collections::is_listed::<ItemsAddr>(v.items.dom()),
        collections::is_listed::<ColumnId>(conformance::schema_index(schema).columns.dom()),
    ensures
        projection(v, schema, schema, noms) matches Ok(p) && p.values == v && p.report.is_clean(),
{
    let index = conformance::schema_index(schema);
    let cells = collections::key_order::<CellAddr>(v.cells.dom());
    let groups = collections::key_order::<ItemsAddr>(v.items.dom());
    let columns = collections::key_order::<ColumnId>(index.columns.dom());
    assert forall|i: int, j: int| 0 <= i < j < columns.len() implies columns[i]
        != columns[j] by {
        assert(ColumnId::order(columns[i], columns[j]) == Order::Less);
        ColumnId::order_equal(columns[i], columns[j]);
    }
    assert forall|i: int| 0 <= i < columns.len() implies index.columns.dom().contains(
        #[trigger] columns[i],
    ) by {
        assert(columns.contains(columns[i]));
    }
    own_columns(columns, v, index.columns, noms, cells);
    let (done, reports) = columns_projection(
        columns,
        v.cells,
        index.columns,
        index.columns,
        noms,
    )->Ok_0;
    assert forall|a: CellAddrModel| #[trigger]
        v.cells.dom().contains(a) implies columns.contains(a.column) by {
        assert(index.columns.dom().contains(a.column));
    }
    assert(done =~= v.cells);
    assert forall|i: int| 0 <= i < groups.len() implies list_is_kept(
        #[trigger] groups[i],
        index.groups,
    ) by {
        assert(groups.contains(groups[i]));
        assert(v.items.dom().contains(groups[i]));
    }
    own_lists(groups, v.items, index.groups);
    let (kept, dropped) = lists_projection(groups, v.items, index.groups);
    assert forall|a: ItemsAddrModel| #[trigger]
        kept.dom().contains(a) <==> v.items.dom().contains(a) by {
        assert(groups.contains(a) <==> v.items.dom().contains(a));
    }
    assert(kept =~= v.items);
    assert(reports.dom() =~= index.columns.dom());
    clean_sums(columns, reports);
}

proof fn clean_sums(keys: Seq<Seq<char>>, reports: Map<Seq<char>, ColumnReport>)
    requires
        forall|i: int|
            0 <= i < keys.len() ==> reports[#[trigger] keys[i]].cells_lossy == 0
                && reports[keys[i]].cells_failed == 0,
    ensures
        lossy_sum(keys, reports) == 0,
        failed_sum(keys, reports) == 0,
    decreases keys.len(),
{
    if keys.len() > 0 {
        let rest = keys.drop_last();
        assert forall|i: int| 0 <= i < rest.len() implies reports[#[trigger] rest[i]].cells_lossy
            == 0 && reports[rest[i]].cells_failed == 0 by {
            assert(rest[i] == keys[i]);
        }
        clean_sums(rest, reports);
        assert(keys.last() == keys[keys.len() - 1]);
    }
}

/// How many of some cells stand in a column.
pub open spec fn column_count(keys: Seq<CellAddrModel>, column: Seq<char>) -> nat
    decreases keys.len(),
{
    if keys.len() == 0 {
        0
    } else {
        column_count(keys.drop_last(), column) + if keys.last().column == column {
            1nat
        } else {
            0nat
        }
    }
}

/// How many of some cells stand in some columns.
pub open spec fn columns_count(keys: Seq<CellAddrModel>, columns: Seq<Seq<char>>) -> nat
    decreases columns.len(),
{
    if columns.len() == 0 {
        0
    } else {
        columns_count(keys, columns.drop_last()) + column_count(keys, columns.last())
    }
}

proof fn one_cell_counts_once(keys: Seq<CellAddrModel>, columns: Seq<Seq<char>>)
    requires
        keys.len() > 0,
        columns.no_duplicates(),
    ensures
        columns_count(keys, columns) == columns_count(keys.drop_last(), columns) + if columns.contains(
            keys.last().column,
        ) {
            1nat
        } else {
            0nat
        },
    decreases columns.len(),
{
    if columns.len() > 0 {
        let rest = columns.drop_last();
        one_cell_counts_once(keys, rest);
        let c = keys.last().column;
        if rest.contains(c) {
            let i = rest.index_of(c);
            assert(columns[i] == c);
            assert(columns[columns.len() - 1] == columns.last());
        } else if columns.contains(c) {
            let i = columns.index_of(c);
            if i < rest.len() {
                assert(rest[i] == c);
            }
        }
        if columns.last() == c {
            assert(columns[columns.len() - 1] == c);
        }
    }
}

proof fn counts_sum_up(keys: Seq<CellAddrModel>, columns: Seq<Seq<char>>)
    requires
        columns.no_duplicates(),
    ensures
        columns_count(keys, columns) <= keys.len(),
    decreases keys.len(),
{
    if keys.len() > 0 {
        counts_sum_up(keys.drop_last(), columns);
        one_cell_counts_once(keys, columns);
    } else {
        assert(keys =~= Seq::<CellAddrModel>::empty());
        no_cells_no_count(columns);
    }
}

proof fn no_cells_no_count(columns: Seq<Seq<char>>)
    ensures
        columns_count(Seq::empty(), columns) == 0,
    decreases columns.len(),
{
    if columns.len() > 0 {
        no_cells_no_count(columns.drop_last());
    }
}

proof fn column_count_is_small(keys: Seq<CellAddrModel>, column: Seq<char>)
    ensures
        column_count(keys, column) <= keys.len(),
    decreases keys.len(),
{
    if keys.len() > 0 {
        column_count_is_small(keys.drop_last(), column);
    }
}

proof fn cells_are_counted(
    cells: Map<CellAddrModel, CellStateModel>,
    keys: Seq<CellAddrModel>,
    values: Map<CellAddrModel, CellStateModel>,
    column: Seq<char>,
    writer: ColumnInfoModel,
    reader: ColumnInfoModel,
    noms: Map<(Seq<char>, u32), Seq<OptionRowModel>>,
)
    ensures
        cells_projection(cells, keys, values, column, writer, reader, noms) matches Ok(c)
            ==> c.failed + c.projected == column_count(keys, column) && c.lossy <= c.projected,
    decreases keys.len(),
{
    if keys.len() > 0 {
        cells_are_counted(cells, keys.drop_last(), values, column, writer, reader, noms);
    }
}

proof fn columns_are_counted(
    keys: Seq<Seq<char>>,
    values: Map<CellAddrModel, CellStateModel>,
    writer: Map<Seq<char>, ColumnInfoModel>,
    reader: Map<Seq<char>, ColumnInfoModel>,
    noms: Map<(Seq<char>, u32), Seq<OptionRowModel>>,
)
    requires
        collections::key_order::<CellAddr>(values.dom()).len() <= u64::MAX,
    ensures
        columns_projection(keys, values, writer, reader, noms) matches Ok(p) ==> forall|c: Seq<char>|
         #[trigger]
            p.1.dom().contains(c) ==> p.1[c].cells_failed + p.1[c].cells_projected <= column_count(
                collections::key_order::<CellAddr>(values.dom()),
                c,
            ) && p.1[c].cells_lossy <= p.1[c].cells_projected,
    decreases keys.len(),
{
    if keys.len() > 0 {
        columns_are_counted(keys.drop_last(), values, writer, reader, noms);
        let column = keys.last();
        let list = collections::key_order::<CellAddr>(values.dom());
        column_count_is_small(list, column);
        if let Ok((cells, reports)) = columns_projection(
            keys.drop_last(),
            values,
            writer,
            reader,
            noms,
        ) {
            cells_are_counted(cells, list, values, column, writer[column], reader[column], noms);
        }
    }
}

proof fn sums_are_counted(
    keys: Seq<Seq<char>>,
    columns: Map<Seq<char>, ColumnReport>,
    list: Seq<CellAddrModel>,
)
    requires
        forall|i: int|
            0 <= i < keys.len() ==> columns[#[trigger] keys[i]].cells_failed
                + columns[keys[i]].cells_projected <= column_count(list, keys[i])
                && columns[keys[i]].cells_lossy <= columns[keys[i]].cells_projected,
    ensures
        failed_sum(keys, columns) + lossy_sum(keys, columns) <= columns_count(list, keys),
    decreases keys.len(),
{
    if keys.len() > 0 {
        let rest = keys.drop_last();
        assert forall|i: int| 0 <= i < rest.len() implies columns[#[trigger] rest[i]].cells_failed
            + columns[rest[i]].cells_projected <= column_count(list, rest[i])
            && columns[rest[i]].cells_lossy <= columns[rest[i]].cells_projected by {
            assert(rest[i] == keys[i]);
        }
        sums_are_counted(rest, columns, list);
        assert(keys[keys.len() - 1] == keys.last());
    }
}

/// A projection loses or rejects no more cells than there are.
pub proof fn counts_are_bounded(
    v: RecordValuesModel,
    writer: SchemaModel,
    reader: SchemaModel,
    noms: Map<(Seq<char>, u32), Seq<OptionRowModel>>,
)
    requires
        collections::key_order::<CellAddr>(v.cells.dom()).len() <= u64::MAX,
    ensures
        projection(v, writer, reader, noms) matches Ok(p) ==> collections::is_listed::<ColumnId>(
            p.report.columns.dom(),
        ) ==> p.report.total_failed() + p.report.total_lossy() <= collections::key_order::<CellAddr>(
            v.cells.dom(),
        ).len(),
{
    let r = conformance::schema_index(reader).columns;
    let w = conformance::schema_index(writer).columns;
    let list = collections::key_order::<CellAddr>(v.cells.dom());
    columns_are_counted(collections::key_order::<ColumnId>(r.dom()), v.cells, w, r, noms);
    if let Ok(p) = projection(v, writer, reader, noms) {
        let columns = p.report.columns;
        if collections::is_listed::<ColumnId>(columns.dom()) {
            let keys = collections::key_order::<ColumnId>(columns.dom());
            collections::in_order_is_distinct::<ColumnId>(keys);
            assert forall|i: int| 0 <= i < keys.len() implies columns[#[trigger] keys[i]].cells_failed
                + columns[keys[i]].cells_projected <= column_count(list, keys[i])
                && columns[keys[i]].cells_lossy <= columns[keys[i]].cells_projected by {
                assert(keys.contains(keys[i]));
                assert(columns.dom().contains(keys[i]));
            }
            sums_are_counted(keys, columns, list);
            counts_sum_up(list, keys);
        }
    }
}

/// No column fails more cells than all together.
pub proof fn each_is_below_the_sum(keys: Seq<Seq<char>>, columns: Map<Seq<char>, ColumnReport>)
    ensures
        forall|c: Seq<char>| #[trigger]
            keys.contains(c) ==> columns[c].cells_failed <= failed_sum(keys, columns),
    decreases keys.len(),
{
    if keys.len() > 0 {
        let rest = keys.drop_last();
        each_is_below_the_sum(rest, columns);
        assert forall|c: Seq<char>| #[trigger] keys.contains(c) implies columns[c].cells_failed
            <= failed_sum(keys, columns) by {
            let i = keys.index_of(c);
            if i < rest.len() {
                assert(rest[i] == c);
                assert(rest.contains(c));
            }
        }
    }
}

} // verus!
