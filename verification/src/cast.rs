//! The cast table between types, and its dual, the type join.
//!
//! Casts that lose nothing and never fail define the order "widens to";
//! the join of two types is an upper bound in it.

use vstd::prelude::*;
use crate::collections;
use crate::order;
use crate::schema;
use crate::collections::OrderedMap;
use crate::ids::{NomenclatureId, OptionId};
use crate::order::{Key, Modeled, Order};
use crate::schema::{
    Arity, AttachmentConstraints, AttachmentConstraintsModel, NomenclatureRef,
    NomenclatureRefModel, OptionRow, OptionRowModel, ScalarType, ScalarTypeModel, Unit,
};

verus! {

/// Published nomenclature rows, by identity and version.
#[derive(Debug, PartialEq, Eq)]
pub struct NomenclatureTable {
    rows: OrderedMap<(NomenclatureId, u32), Vec<OptionRow>>,
}

impl DeepView for NomenclatureTable {
    type V = Map<(Seq<char>, u32), Seq<OptionRowModel>>;

    closed spec fn deep_view(&self) -> Map<(Seq<char>, u32), Seq<OptionRowModel>> {
        self.rows@
    }
}

impl View for NomenclatureTable {
    type V = Map<(Seq<char>, u32), Seq<OptionRowModel>>;

    open spec fn view(&self) -> Map<(Seq<char>, u32), Seq<OptionRowModel>> {
        self.deep_view()
    }
}

impl Clone for NomenclatureTable {
    fn clone(&self) -> (r: Self)
        ensures
            r@ == self@,
    {
        NomenclatureTable { rows: self.rows.dup() }
    }
}

impl Default for NomenclatureTable {
    fn default() -> (r: Self)
        ensures
            r@ == Map::<(Seq<char>, u32), Seq<OptionRowModel>>::empty(),
    {
        NomenclatureTable::new()
    }
}

impl NomenclatureTable {
    pub fn new() -> (r: Self)
        ensures
            r@ == Map::<(Seq<char>, u32), Seq<OptionRowModel>>::empty(),
    {
        NomenclatureTable { rows: OrderedMap::new() }
    }

    pub fn insert(&mut self, id: NomenclatureId, version: u32, rows: Vec<OptionRow>)
        ensures
            final(self)@ == old(self)@.insert((id@, version), rows.deep_view()),
    {
        self.rows.insert((id, version), rows);
    }

    pub fn get(&self, id: &NomenclatureId, version: u32) -> (r: Option<&Vec<OptionRow>>)
        ensures
            match r {
                Some(rows) => self@.dom().contains((id@, version)) && rows.deep_view()
                    == self@[(id@, version)],
                None => !self@.dom().contains((id@, version)),
            },
    {
        let key = (id.dup(), version);
        self.rows.get(&key)
    }

    pub fn is_empty(&self) -> (r: bool)
        ensures
            r == (self@ == Map::<(Seq<char>, u32), Seq<OptionRowModel>>::empty()),
    {
        self.rows.is_empty()
    }

    /// The versions held of one nomenclature, in order.
    pub fn versions(&self, id: &NomenclatureId) -> (r: Vec<u32>)
        ensures
            collections::in_order::<u32>(r@),
            forall|v: u32| #[trigger] r@.contains(v) <==> self@.dom().contains((id@, v)),
    {
        let n = self.rows.len();
        let ghost keys = self.rows.keys();
        let mut r: Vec<u32> = Vec::new();
        let mut i: usize = 0;
        while i < n
            invariant
                n == keys.len(),
                keys == self.rows.keys(),
                collections::in_order::<(NomenclatureId, u32)>(keys),
                i <= n,
                collections::in_order::<u32>(r@),
                forall|j: int|
                    0 <= j < r@.len() ==> exists|k: int|
                        0 <= k < i && #[trigger] keys[k] == (id@, #[trigger] r@[j]),
                forall|k: int|
                    0 <= k < i && (#[trigger] keys[k]).0 == id@ ==> r@.contains(keys[k].1),
            decreases n - i,
        {
            let key = self.rows.key_at(i);
            let ghost before = r@;
            if key.0.same(id) {
                let v = key.1;
                proof {
                    assert forall|j: int| 0 <= j < before.len() implies u32::order(
                        #[trigger] before[j],
                        v,
                    ) == Order::Less by {
                        let k = choose|k: int| 0 <= k < i && #[trigger] keys[k] == (id@, before[j]);
                        assert(<(NomenclatureId, u32) as Key>::order(keys[k], keys[i as int])
                            == Order::Less);
                        NomenclatureId::order_equal(id@, id@);
                    }
                }
                r.push(v);
                proof {
                    assert forall|j: int| 0 <= j < r@.len() implies exists|k: int|
                        0 <= k < i + 1 && #[trigger] keys[k] == (id@, #[trigger] r@[j]) by {
                        if j < before.len() {
                            let k = choose|k: int|
                                0 <= k < i && #[trigger] keys[k] == (id@, before[j]);
                            assert(keys[k] == (id@, r@[j]));
                        } else {
                            assert(keys[i as int] == (id@, r@[j]));
                        }
                    }
                    assert forall|k: int|
                        0 <= k < i + 1 && (#[trigger] keys[k]).0 == id@ implies r@.contains(
                        keys[k].1,
                    ) by {
                        if k < i {
                            assert(before.contains(keys[k].1));
                            let j = before.index_of(keys[k].1);
                            assert(r@[j] == keys[k].1);
                        } else {
                            assert(r@[before.len() as int] == keys[k].1);
                        }
                    }
                }
            }
            i += 1;
        }
        proof {
            assert forall|v: u32| #[trigger] r@.contains(v) <==> self@.dom().contains(
                (id@, v),
            ) by {
                if r@.contains(v) {
                    let j = r@.index_of(v);
                    let k = choose|k: int| 0 <= k < n && #[trigger] keys[k] == (id@, r@[j]);
                    assert(keys.contains((id@, v)));
                }
                if self@.dom().contains((id@, v)) {
                    assert(keys.contains((id@, v)));
                    let k = keys.index_of((id@, v));
                    assert(keys[k].0 == id@);
                }
            }
        }
        r
    }
}

/// How one type reaches another. The properties are orthogonal: a
/// composition can be lossy and checked at once.
#[derive(Clone, Copy, Debug, PartialEq, Eq, Structural)]
pub struct Cast {
    /// False: no cast exists.
    pub possible: bool,
    /// Total, but loses information.
    pub lossy: bool,
    /// May fail, depending on the value.
    pub checked: bool,
    /// Goes through an enum's labels, read through a revision.
    pub needs_lens: bool,
    /// Nothing changes.
    pub identity: bool,
}

impl DeepView for Cast {
    type V = Cast;

    open spec fn deep_view(&self) -> Cast {
        *self
    }
}

impl View for Cast {
    type V = Cast;

    open spec fn view(&self) -> Cast {
        *self
    }
}

impl Modeled for Cast {
    fn dup(&self) -> (r: Self) {
        *self
    }

    fn same(&self, other: &Self) -> (b: bool) {
        *self == *other
    }
}

/// The most severe property of a cast.
#[derive(Clone, Copy, Debug, PartialEq, Eq, Structural)]
pub enum CastClass {
    Identity,
    Widening,
    Lossy,
    Checked,
    Forbidden,
}

impl DeepView for CastClass {
    type V = CastClass;

    open spec fn deep_view(&self) -> CastClass {
        *self
    }
}

impl View for CastClass {
    type V = CastClass;

    open spec fn view(&self) -> CastClass {
        *self
    }
}

impl Modeled for CastClass {
    fn dup(&self) -> (r: Self) {
        *self
    }

    fn same(&self, other: &Self) -> (b: bool) {
        *self == *other
    }
}

pub open spec fn identity() -> Cast {
    Cast { possible: true, lossy: false, checked: false, needs_lens: false, identity: true }
}

pub open spec fn widening() -> Cast {
    Cast { identity: false, ..identity() }
}

pub open spec fn lossy() -> Cast {
    Cast { lossy: true, ..widening() }
}

pub open spec fn checked() -> Cast {
    Cast { checked: true, ..widening() }
}

pub open spec fn forbidden() -> Cast {
    Cast { possible: false, ..widening() }
}

impl Cast {
    pub open spec fn spec_and(self, other: Cast) -> Cast {
        Cast {
            possible: self.possible && other.possible,
            lossy: self.lossy || other.lossy,
            checked: self.checked || other.checked,
            needs_lens: self.needs_lens || other.needs_lens,
            identity: self.identity && other.identity,
        }
    }

    pub open spec fn spec_with_lens(self) -> Cast {
        Cast { needs_lens: true, ..self }
    }

    pub open spec fn widens(self) -> bool {
        self.possible && !self.lossy && !self.checked
    }

    pub open spec fn spec_class(self) -> CastClass {
        if !self.possible {
            CastClass::Forbidden
        } else if self.checked {
            CastClass::Checked
        } else if self.lossy {
            CastClass::Lossy
        } else if self.identity {
            CastClass::Identity
        } else {
            CastClass::Widening
        }
    }

    pub fn new(possible: bool, lossy: bool, checked: bool, identity: bool) -> (r: Cast)
        ensures
            r == (Cast { possible, lossy, checked, needs_lens: false, identity }),
    {
        Cast { possible, lossy, checked, needs_lens: false, identity }
    }

    /// The same cast, going through labels.
    pub fn with_lens(self) -> (r: Cast)
        ensures
            r == self.spec_with_lens(),
    {
        Cast {
            possible: self.possible,
            lossy: self.lossy,
            checked: self.checked,
            needs_lens: true,
            identity: self.identity,
        }
    }

    /// One cast after another.
    pub fn and(self, other: Cast) -> (r: Cast)
        ensures
            r == self.spec_and(other),
    {
        Cast {
            possible: self.possible && other.possible,
            lossy: self.lossy || other.lossy,
            checked: self.checked || other.checked,
            needs_lens: self.needs_lens || other.needs_lens,
            identity: self.identity && other.identity,
        }
    }

    /// Loses nothing and never fails.
    pub fn is_widening(&self) -> (r: bool)
        ensures
            r == self.widens(),
    {
        self.possible && !self.lossy && !self.checked
    }

    pub fn class(&self) -> (r: CastClass)
        ensures
            r == self.spec_class(),
    {
        if !self.possible {
            CastClass::Forbidden
        } else if self.checked {
            CastClass::Checked
        } else if self.lossy {
            CastClass::Lossy
        } else if self.identity {
            CastClass::Identity
        } else {
            CastClass::Widening
        }
    }
}

/// The order in which casts are composed does not matter.
pub proof fn composition_commutes(a: Cast, b: Cast)
    ensures
        a.spec_and(b) == b.spec_and(a),
        a.spec_and(identity()) == a,
        a.widens() && b.widens() ==> a.spec_and(b).widens(),
{
}

/// Why a cast could not be determined.
#[derive(Clone, Debug, PartialEq, Eq)]
pub enum CastError {
    UnknownNomenclature(NomenclatureId, u32),
}

/// The model of [`CastError`].
#[verifier::ext_equal]
pub enum CastErrorModel {
    UnknownNomenclature(Seq<char>, u32),
}

impl DeepView for CastError {
    type V = CastErrorModel;

    open spec fn deep_view(&self) -> CastErrorModel {
        match self {
            CastError::UnknownNomenclature(x0, x1) => CastErrorModel::UnknownNomenclature(x0.deep_view(), *x1),
        }
    }
}

impl View for CastError {
    type V = CastErrorModel;

    open spec fn view(&self) -> CastErrorModel {
        self.deep_view()
    }
}

impl Modeled for CastError {
    fn dup(&self) -> (r: Self) {
        match self {
            CastError::UnknownNomenclature(x0, x1) => CastError::UnknownNomenclature(x0.dup(), *x1),
        }
    }

    fn same(&self, other: &Self) -> (b: bool) {
        match (self, other) {
            (CastError::UnknownNomenclature(x0, x1), CastError::UnknownNomenclature(y0, y1)) => x0.same(y0) && *x1 == *y1,
        }
    }
}

/// The rows that an enum's nomenclature stands for.
pub open spec fn rows_of(
    nref: NomenclatureRefModel,
    noms: Map<(Seq<char>, u32), Seq<OptionRowModel>>,
) -> Result<Seq<OptionRowModel>, CastErrorModel> {
    match nref {
        NomenclatureRefModel::Inline(rows) => Ok(rows),
        NomenclatureRefModel::Published { id, version } => if noms.dom().contains((id, version)) {
            Ok(noms[(id, version)])
        } else {
            Err(CastErrorModel::UnknownNomenclature(id, version))
        },
    }
}

/// The rows that an enum's nomenclature stands for: inline rows directly,
/// published ones through the table.
pub fn nomenclature_rows<'a>(
    nref: &'a NomenclatureRef,
    nomenclatures: &'a NomenclatureTable,
) -> (r: Result<&'a Vec<OptionRow>, CastError>)
    ensures
        match r {
            Ok(rows) => rows_of(nref@, nomenclatures@) == Ok::<_, CastErrorModel>(
                rows.deep_view(),
            ),
            Err(e) => rows_of(nref@, nomenclatures@) == Err::<Seq<OptionRowModel>, _>(e@),
        },
{
    match nref {
        NomenclatureRef::Inline(rows) => Ok(rows),
        NomenclatureRef::Published { id, version } => match nomenclatures.get(id, *version) {
            Some(rows) => Ok(rows),
            None => Err(CastError::UnknownNomenclature(id.dup(), *version)),
        },
    }
}

/// Whether an option is one of the rows.
pub open spec fn has_option(rows: Seq<OptionRowModel>, id: Seq<char>) -> bool {
    exists|i: int| 0 <= i < rows.len() && (#[trigger] rows[i]).id == id
}

/// Every option of `a` is one of `b`.
pub open spec fn options_within(a: Seq<OptionRowModel>, b: Seq<OptionRowModel>) -> bool {
    forall|i: int| 0 <= i < a.len() ==> has_option(b, (#[trigger] a[i]).id)
}

/// Whether an option is one of the rows.
pub fn row_has_option(rows: &Vec<OptionRow>, id: &OptionId) -> (r: bool)
    ensures
        r == has_option(rows.deep_view(), id@),
{
    let mut i: usize = 0;
    while i < rows.len()
        invariant
            i <= rows@.len(),
            forall|j: int| 0 <= j < i ==> (#[trigger] rows.deep_view()[j]).id != id@,
        decreases rows@.len() - i,
    {
        assert(rows.deep_view()[i as int] == rows@[i as int].deep_view());
        if rows[i].id.same(id) {
            return true;
        }
        i += 1;
    }
    false
}

fn rows_within(a: &Vec<OptionRow>, b: &Vec<OptionRow>) -> (r: bool)
    ensures
        r == options_within(a.deep_view(), b.deep_view()),
{
    let mut i: usize = 0;
    while i < a.len()
        invariant
            i <= a@.len(),
            forall|j: int|
                0 <= j < i ==> has_option(b.deep_view(), (#[trigger] a.deep_view()[j]).id),
        decreases a@.len() - i,
    {
        assert(a.deep_view()[i as int] == a@[i as int].deep_view());
        if !row_has_option(b, &a[i].id) {
            return false;
        }
        i += 1;
    }
    true
}

/// Every scalar with one canonical text widens to text.
pub open spec fn has_text(ty: ScalarTypeModel) -> bool {
    !(ty is Attachment) && !(ty is Geometry)
}

fn widens_to_text(ty: &ScalarType) -> (r: bool)
    ensures
        r == has_text(ty@),
{
    match ty {
        ScalarType::Attachment(_) | ScalarType::Geometry => false,
        _ => true,
    }
}

/// One type: the same, or attachments under one constraint.
pub open spec fn one_type(a: ScalarTypeModel, b: ScalarTypeModel) -> bool {
    match (a, b) {
        (ScalarTypeModel::Attachment(x), ScalarTypeModel::Attachment(y)) => x.equivalent(y),
        _ => a == b,
    }
}

/// Whether the two are one type.
pub fn is_one_type(a: &ScalarType, b: &ScalarType) -> (r: bool)
    ensures
        r == one_type(a@, b@),
{
    match (a, b) {
        (ScalarType::Attachment(x), ScalarType::Attachment(y)) => x.equivalent(y),
        _ => a.same(b),
    }
}

/// A unit may be added for free; taking one away loses meaning; within a
/// dimension the value decides; across dimensions there is no way.
pub open spec fn unit_cast(from: Option<Unit>, to: Option<Unit>) -> Cast {
    match (from, to) {
        (None, None) => identity(),
        (None, Some(_)) => widening(),
        (Some(_), None) => lossy(),
        (Some(a), Some(b)) => if a == b {
            identity()
        } else if a.spec_dimension() == b.spec_dimension() {
            checked()
        } else {
            forbidden()
        },
    }
}

fn cast_units(from: Option<Unit>, to: Option<Unit>) -> (r: Cast)
    ensures
        r == unit_cast(from, to),
{
    match (from, to) {
        (None, None) => Cast::new(true, false, false, true),
        (None, Some(_)) => Cast::new(true, false, false, false),
        (Some(_), None) => Cast::new(true, true, false, false),
        (Some(a), Some(b)) => if a == b {
            Cast::new(true, false, false, true)
        } else if a.dimension() == b.dimension() {
            Cast::new(true, false, true, false)
        } else {
            Cast::new(false, false, false, false)
        },
    }
}

/// A target that has every option takes them for free, otherwise the
/// value decides; leaving a published nomenclature for inline rows loses
/// the reference.
pub open spec fn enum_cast(
    from: NomenclatureRefModel,
    to: NomenclatureRefModel,
    noms: Map<(Seq<char>, u32), Seq<OptionRowModel>>,
) -> Result<Cast, CastErrorModel> {
    match (rows_of(from, noms), rows_of(to, noms)) {
        (Err(e), _) => Err(e),
        (_, Err(e)) => Err(e),
        (Ok(a), Ok(b)) => {
            let base = if options_within(a, b) {
                widening()
            } else {
                checked()
            };
            Ok(Cast { lossy: from is Published && to is Inline, ..base })
        },
    }
}

fn cast_enums(
    from: &NomenclatureRef,
    to: &NomenclatureRef,
    nomenclatures: &NomenclatureTable,
) -> (r: Result<Cast, CastError>)
    ensures
        order::result_model(r) == enum_cast(from@, to@, nomenclatures@),
{
    let a = match nomenclature_rows(from, nomenclatures) {
        Ok(rows) => rows,
        Err(e) => {
            return Err(e);
        },
    };
    let b = match nomenclature_rows(to, nomenclatures) {
        Ok(rows) => rows,
        Err(e) => {
            return Err(e);
        },
    };
    let loses = match (from, to) {
        (NomenclatureRef::Published { .. }, NomenclatureRef::Inline(_)) => true,
        _ => false,
    };
    Ok(Cast::new(true, loses, !rows_within(a, b), false))
}

/// The cast between two scalar types.
pub open spec fn cast_between(
    from: ScalarTypeModel,
    to: ScalarTypeModel,
    noms: Map<(Seq<char>, u32), Seq<OptionRowModel>>,
) -> Result<Cast, CastErrorModel> {
    if one_type(from, to) {
        Ok(identity())
    } else {
        match (from, to) {
            (ScalarTypeModel::Enum(a), ScalarTypeModel::Enum(b)) => enum_cast(a, b, noms),
            (ScalarTypeModel::Integer(a), ScalarTypeModel::Integer(b)) => Ok(unit_cast(a, b)),
            (ScalarTypeModel::Decimal(a), ScalarTypeModel::Decimal(b)) => Ok(unit_cast(a, b)),
            (ScalarTypeModel::Integer(a), ScalarTypeModel::Decimal(b)) => Ok(
                widening().spec_and(unit_cast(a, b)),
            ),
            (ScalarTypeModel::Decimal(a), ScalarTypeModel::Integer(b)) => Ok(
                checked().spec_and(unit_cast(a, b)),
            ),
            (ScalarTypeModel::Date, ScalarTypeModel::Datetime) => Ok(widening()),
            (ScalarTypeModel::Datetime, ScalarTypeModel::Date) => Ok(lossy()),
            (ScalarTypeModel::Attachment(a), ScalarTypeModel::Attachment(b)) => Ok(
                if b.covers(a) {
                    widening()
                } else {
                    checked()
                },
            ),
            (ScalarTypeModel::Enum(_), ScalarTypeModel::Text) => Ok(widening().spec_with_lens()),
            (a, ScalarTypeModel::Text) => Ok(
                if has_text(a) {
                    widening()
                } else {
                    forbidden()
                },
            ),
            (ScalarTypeModel::Text, ScalarTypeModel::Enum(_)) => Ok(checked().spec_with_lens()),
            (ScalarTypeModel::Text, b) => Ok(
                if has_text(b) {
                    checked()
                } else {
                    forbidden()
                },
            ),
            _ => Ok(forbidden()),
        }
    }
}

/// The cast table between two scalar types.
pub fn scalar_cast(
    from: &ScalarType,
    to: &ScalarType,
    nomenclatures: &NomenclatureTable,
) -> (r: Result<Cast, CastError>)
    ensures
        order::result_model(r) == cast_between(from@, to@, nomenclatures@),
{
    if is_one_type(from, to) {
        return Ok(Cast::new(true, false, false, true));
    }
    let widening = Cast::new(true, false, false, false);
    let checked = Cast::new(true, false, true, false);
    let forbidden = Cast::new(false, false, false, false);
    match (from, to) {
        (ScalarType::Enum(a), ScalarType::Enum(b)) => cast_enums(a, b, nomenclatures),
        (ScalarType::Integer(a), ScalarType::Integer(b)) => Ok(cast_units(*a, *b)),
        (ScalarType::Decimal(a), ScalarType::Decimal(b)) => Ok(cast_units(*a, *b)),
        (ScalarType::Integer(a), ScalarType::Decimal(b)) => Ok(widening.and(cast_units(*a, *b))),
        // Exact or nothing: no silent truncation.
        (ScalarType::Decimal(a), ScalarType::Integer(b)) => Ok(checked.and(cast_units(*a, *b))),
        // The embedding at midnight UTC.
        (ScalarType::Date, ScalarType::Datetime) => Ok(widening),
        (ScalarType::Datetime, ScalarType::Date) => Ok(Cast::new(true, true, false, false)),
        (ScalarType::Attachment(a), ScalarType::Attachment(b)) => Ok(
            if b.covers(a) {
                widening
            } else {
                checked
            },
        ),
        (ScalarType::Enum(_), ScalarType::Text) => Ok(widening.with_lens()),
        (a, ScalarType::Text) => Ok(
            if widens_to_text(a) {
                widening
            } else {
                forbidden
            },
        ),
        (ScalarType::Text, ScalarType::Enum(_)) => Ok(checked.with_lens()),
        (ScalarType::Text, b) => Ok(
            if widens_to_text(b) {
                checked
            } else {
                forbidden
            },
        ),
        _ => Ok(forbidden),
    }
}

pub open spec fn arity_cast_of(from: Arity, to: Arity) -> Cast {
    match (from, to) {
        (Arity::One, Arity::One) => identity(),
        (Arity::Many, Arity::Many) => identity(),
        (Arity::One, Arity::Many) => widening(),
        (Arity::Many, Arity::One) => lossy(),
    }
}

/// One wraps into many; many truncates to one.
pub fn arity_cast(from: Arity, to: Arity) -> (r: Cast)
    ensures
        r == arity_cast_of(from, to),
{
    match (from, to) {
        (Arity::One, Arity::One) | (Arity::Many, Arity::Many) => Cast::new(
            true,
            false,
            false,
            true,
        ),
        (Arity::One, Arity::Many) => Cast::new(true, false, false, false),
        (Arity::Many, Arity::One) => Cast::new(true, true, false, false),
    }
}

/// The cast between two columns: that of their types, then that of their
/// arities.
pub open spec fn column_cast_of(
    from: (ScalarTypeModel, Arity),
    to: (ScalarTypeModel, Arity),
    noms: Map<(Seq<char>, u32), Seq<OptionRowModel>>,
) -> Result<Cast, CastErrorModel> {
    match cast_between(from.0, to.0, noms) {
        Ok(c) => Ok(c.spec_and(arity_cast_of(from.1, to.1))),
        Err(e) => Err(e),
    }
}

/// How one column reaches another.
pub fn column_cast(
    from: (&ScalarType, Arity),
    to: (&ScalarType, Arity),
    nomenclatures: &NomenclatureTable,
) -> (r: Result<Cast, CastError>)
    ensures
        order::result_model(r) == column_cast_of(
            (from.0@, from.1),
            (to.0@, to.1),
            nomenclatures@,
        ),
{
    match scalar_cast(from.0, to.0, nomenclatures) {
        Ok(c) => Ok(c.and(arity_cast(from.1, to.1))),
        Err(e) => Err(e),
    }
}

/// How a join was reached. A join that turns typed data into text has to
/// be reported.
#[derive(Clone, Copy, Debug, PartialEq, Eq, Structural)]
pub enum JoinPath {
    Direct,
    ViaText,
}

impl DeepView for JoinPath {
    type V = JoinPath;

    open spec fn deep_view(&self) -> JoinPath {
        *self
    }
}

impl View for JoinPath {
    type V = JoinPath;

    open spec fn view(&self) -> JoinPath {
        *self
    }
}

impl Modeled for JoinPath {
    fn dup(&self) -> (r: Self) {
        *self
    }

    fn same(&self, other: &Self) -> (b: bool) {
        *self == *other
    }
}

/// Why two types have no join.
#[derive(Clone, Debug, PartialEq, Eq)]
pub enum JoinConflict {
    Incompatible,
    UnknownNomenclature(NomenclatureId, u32),
}

/// The model of [`JoinConflict`].
#[verifier::ext_equal]
pub enum JoinConflictModel {
    Incompatible,
    UnknownNomenclature(Seq<char>, u32),
}

impl DeepView for JoinConflict {
    type V = JoinConflictModel;

    open spec fn deep_view(&self) -> JoinConflictModel {
        match self {
            JoinConflict::Incompatible => JoinConflictModel::Incompatible,
            JoinConflict::UnknownNomenclature(x0, x1) => JoinConflictModel::UnknownNomenclature(x0.deep_view(), *x1),
        }
    }
}

impl View for JoinConflict {
    type V = JoinConflictModel;

    open spec fn view(&self) -> JoinConflictModel {
        self.deep_view()
    }
}

impl Modeled for JoinConflict {
    fn dup(&self) -> (r: Self) {
        match self {
            JoinConflict::Incompatible => JoinConflict::Incompatible,
            JoinConflict::UnknownNomenclature(x0, x1) => JoinConflict::UnknownNomenclature(x0.dup(), *x1),
        }
    }

    fn same(&self, other: &Self) -> (b: bool) {
        match (self, other) {
            (JoinConflict::Incompatible, JoinConflict::Incompatible) => true,
            (JoinConflict::UnknownNomenclature(x0, x1), JoinConflict::UnknownNomenclature(y0, y1)) => x0.same(y0) && *x1 == *y1,
            _ => false,
        }
    }
}

/// The first row with an id.
pub open spec fn row_of(rows: Seq<OptionRowModel>, id: Seq<char>) -> Option<OptionRowModel>
    decreases rows.len(),
{
    if rows.len() == 0 {
        None
    } else if rows[0].id == id {
        Some(rows[0])
    } else {
        row_of(rows.drop_first(), id)
    }
}

/// The first row with an id.
pub fn find_row<'a>(rows: &'a Vec<OptionRow>, id: &OptionId) -> (r: Option<&'a OptionRow>)
    ensures
        match r {
            Some(row) => row_of(rows.deep_view(), id@) == Some(row@),
            None => row_of(rows.deep_view(), id@) is None,
        },
{
    let ghost s = rows.deep_view();
    let mut i: usize = 0;
    assert(s.skip(0) =~= s);
    while i < rows.len()
        invariant
            i <= rows@.len(),
            s == rows.deep_view(),
            row_of(s, id@) == row_of(s.skip(i as int), id@),
        decreases rows@.len() - i,
    {
        assert(s.skip(i as int)[0] == rows@[i as int].deep_view());
        if rows[i].id.same(id) {
            return Some(&rows[i]);
        }
        assert(s.skip(i as int).drop_first() =~= s.skip(i + 1));
        i += 1;
    }
    None
}

/// Looking a row up finds it exactly where there is one.
pub proof fn row_of_has_option(rows: Seq<OptionRowModel>, id: Seq<char>)
    ensures
        row_of(rows, id) is Some <==> has_option(rows, id),
        row_of(rows, id) matches Some(r) ==> r.id == id && rows.contains(r),
    decreases rows.len(),
{
    if rows.len() > 0 {
        row_of_has_option(rows.drop_first(), id);
        if rows[0].id == id {
            assert(rows.contains(rows[0]));
        } else {
            let rest = rows.drop_first();
            if has_option(rows, id) {
                let i = choose|i: int| 0 <= i < rows.len() && (#[trigger] rows[i]).id == id;
                assert(rest[i - 1] == rows[i]);
            }
            if has_option(rest, id) {
                let i = choose|i: int| 0 <= i < rest.len() && (#[trigger] rest[i]).id == id;
                assert(rows[i + 1] == rest[i]);
            }
            if row_of(rest, id) is Some {
                let r = row_of(rest, id)->0;
                let i = rest.index_of(r);
                assert(rows[i + 1] == r);
            }
        }
    }
}

/// The rows of `a`, and behind them those of `b` whose ids are new;
/// nothing where an id stands for two labels.
pub open spec fn merged_rows(a: Seq<OptionRowModel>, b: Seq<OptionRowModel>) -> Option<
    Seq<OptionRowModel>,
>
    decreases b.len(),
{
    if b.len() == 0 {
        Some(a)
    } else {
        match merged_rows(a, b.drop_last()) {
            Some(m) => match row_of(m, b.last().id) {
                None => Some(m.push(b.last())),
                Some(row) => if row.label == b.last().label {
                    Some(m)
                } else {
                    None
                },
            },
            None => None,
        }
    }
}

proof fn merged_rows_none(a: Seq<OptionRowModel>, b: Seq<OptionRowModel>, i: int)
    requires
        0 <= i <= b.len(),
        merged_rows(a, b.take(i)) is None,
    ensures
        merged_rows(a, b) is None,
    decreases b.len() - i,
{
    if i == b.len() {
        assert(b.take(i) =~= b);
    } else {
        assert(b.take(i + 1).drop_last() =~= b.take(i));
        merged_rows_none(a, b, i + 1);
    }
}

fn merge_rows(a: &Vec<OptionRow>, b: &Vec<OptionRow>) -> (r: Option<Vec<OptionRow>>)
    ensures
        match r {
            Some(m) => merged_rows(a.deep_view(), b.deep_view()) == Some(m.deep_view()),
            None => merged_rows(a.deep_view(), b.deep_view()) is None,
        },
{
    let ghost s = b.deep_view();
    let mut m = a.dup();
    let mut i: usize = 0;
    assert(s.take(0) =~= Seq::<OptionRowModel>::empty());
    while i < b.len()
        invariant
            i <= b@.len(),
            s == b.deep_view(),
            merged_rows(a.deep_view(), s.take(i as int)) == Some(m.deep_view()),
        decreases b@.len() - i,
    {
        let ghost before = m.deep_view();
        proof {
            assert(s.take(i + 1).drop_last() =~= s.take(i as int));
            assert(s.take(i + 1).last() == b@[i as int].deep_view());
        }
        let add = match find_row(&m, &b[i].id) {
            None => true,
            Some(row) => {
                if !row.label.same(&b[i].label) {
                    proof {
                        merged_rows_none(a.deep_view(), s, i + 1);
                    }
                    return None;
                }
                false
            },
        };
        if add {
            m.push(b[i].dup());
            assert(m.deep_view() =~= before.push(b@[i as int].deep_view()));
        }
        i += 1;
    }
    assert(s.take(s.len() as int) =~= s);
    Some(m)
}

/// The join of two enums.
pub open spec fn enum_join_of(
    x: NomenclatureRefModel,
    y: NomenclatureRefModel,
    noms: Map<(Seq<char>, u32), Seq<OptionRowModel>>,
) -> Result<(ScalarTypeModel, JoinPath), JoinConflictModel> {
    match (x, y) {
        (
            NomenclatureRefModel::Published { id: xi, version: xv },
            NomenclatureRefModel::Published { id: yi, version: yv },
        ) if xi == yi => Ok(
            (
                ScalarTypeModel::Enum(
                    NomenclatureRefModel::Published {
                        id: xi,
                        version: if xv >= yv {
                            xv
                        } else {
                            yv
                        },
                    },
                ),
                JoinPath::Direct,
            ),
        ),
        (NomenclatureRefModel::Inline(a), NomenclatureRefModel::Inline(b)) => match merged_rows(
            a,
            b,
        ) {
            Some(m) => Ok(
                (ScalarTypeModel::Enum(NomenclatureRefModel::Inline(m)), JoinPath::Direct),
            ),
            None => Ok((ScalarTypeModel::Text, JoinPath::ViaText)),
        },
        _ => match (rows_of(x, noms), rows_of(y, noms)) {
            (Err(CastErrorModel::UnknownNomenclature(id, v)), _) => Err(
                JoinConflictModel::UnknownNomenclature(id, v),
            ),
            (_, Err(CastErrorModel::UnknownNomenclature(id, v))) => Err(
                JoinConflictModel::UnknownNomenclature(id, v),
            ),
            _ => Ok((ScalarTypeModel::Text, JoinPath::ViaText)),
        },
    }
}

/// One published nomenclature: its higher version, which has every option
/// of the lower. Two inline enums merge row by row where the ids they
/// share agree on labels. Everything else meets in text.
fn enum_join(
    x: &NomenclatureRef,
    y: &NomenclatureRef,
    nomenclatures: &NomenclatureTable,
) -> (r: Result<(ScalarType, JoinPath), JoinConflict>)
    ensures
        order::result_model(r) == enum_join_of(x@, y@, nomenclatures@),
{
    if let (
        NomenclatureRef::Published { id: xi, version: xv },
        NomenclatureRef::Published { id: yi, version: yv },
    ) = (x, y) {
        if xi.same(yi) {
            let version = if *xv >= *yv {
                *xv
            } else {
                *yv
            };
            let joined = NomenclatureRef::Published { id: xi.dup(), version };
            return Ok((ScalarType::Enum(joined), JoinPath::Direct));
        }
    }
    if let (NomenclatureRef::Inline(a), NomenclatureRef::Inline(b)) = (x, y) {
        return match merge_rows(a, b) {
            Some(m) => Ok((ScalarType::Enum(NomenclatureRef::Inline(m)), JoinPath::Direct)),
            None => Ok((ScalarType::Text, JoinPath::ViaText)),
        };
    }
    match nomenclature_rows(x, nomenclatures) {
        Ok(_) => {},
        Err(CastError::UnknownNomenclature(id, v)) => {
            return Err(JoinConflict::UnknownNomenclature(id, v));
        },
    }
    match nomenclature_rows(y, nomenclatures) {
        Ok(_) => {},
        Err(CastError::UnknownNomenclature(id, v)) => {
            return Err(JoinConflict::UnknownNomenclature(id, v));
        },
    }
    Ok((ScalarType::Text, JoinPath::ViaText))
}

/// A unit that both sides widen to.
pub open spec fn unit_join(a: Option<Unit>, b: Option<Unit>) -> Option<Option<Unit>> {
    match (a, b) {
        (None, b) => Some(b),
        (a, None) => Some(a),
        (Some(x), Some(y)) => if x == y {
            Some(Some(x))
        } else {
            None
        },
    }
}

fn join_units(a: Option<Unit>, b: Option<Unit>) -> (r: Option<Option<Unit>>)
    ensures
        r == unit_join(a, b),
{
    match (a, b) {
        (None, b) => Some(b),
        (a, None) => Some(a),
        (Some(x), Some(y)) => if x == y {
            Some(Some(x))
        } else {
            None
        },
    }
}

/// Attachments of either kind: both lists of patterns, the larger limit.
pub open spec fn constraint_join(
    a: AttachmentConstraintsModel,
    b: AttachmentConstraintsModel,
) -> AttachmentConstraintsModel {
    AttachmentConstraintsModel {
        accept: if a.accept.len() == 0 || b.accept.len() == 0 {
            Seq::empty()
        } else {
            a.accept + b.accept
        },
        max_bytes: match (a.max_bytes, b.max_bytes) {
            (Some(x), Some(y)) => Some(
                if x >= y {
                    x
                } else {
                    y
                },
            ),
            _ => None,
        },
    }
}

fn join_constraints(a: &AttachmentConstraints, b: &AttachmentConstraints) -> (r:
    AttachmentConstraints)
    ensures
        r@ == constraint_join(a@, b@),
{
    let mut accept: Vec<String> = Vec::new();
    if a.accept.len() != 0 && b.accept.len() != 0 {
        let mut x = a.accept.dup();
        let mut y = b.accept.dup();
        accept.append(&mut x);
        accept.append(&mut y);
        assert(accept.deep_view() =~= a@.accept + b@.accept);
    } else {
        assert(accept.deep_view() =~= Seq::<Seq<char>>::empty());
    }
    let max_bytes = match (a.max_bytes, b.max_bytes) {
        (Some(x), Some(y)) => Some(
            if x >= y {
                x
            } else {
                y
            },
        ),
        _ => None,
    };
    AttachmentConstraints { accept, max_bytes }
}

/// An upper bound of two types in the order "widens to".
pub open spec fn join_of(
    a: ScalarTypeModel,
    b: ScalarTypeModel,
    noms: Map<(Seq<char>, u32), Seq<OptionRowModel>>,
) -> Result<(ScalarTypeModel, JoinPath), JoinConflictModel> {
    if one_type(a, b) {
        Ok((a, JoinPath::Direct))
    } else {
        match (a, b) {
            (ScalarTypeModel::Integer(x), ScalarTypeModel::Integer(y)) => match unit_join(x, y) {
                Some(u) => Ok((ScalarTypeModel::Integer(u), JoinPath::Direct)),
                None => Ok((ScalarTypeModel::Text, JoinPath::ViaText)),
            },
            (ScalarTypeModel::Decimal(x), ScalarTypeModel::Decimal(y)) => match unit_join(x, y) {
                Some(u) => Ok((ScalarTypeModel::Decimal(u), JoinPath::Direct)),
                None => Ok((ScalarTypeModel::Text, JoinPath::ViaText)),
            },
            (ScalarTypeModel::Integer(x), ScalarTypeModel::Decimal(y)) => match unit_join(x, y) {
                Some(u) => Ok((ScalarTypeModel::Decimal(u), JoinPath::Direct)),
                None => Ok((ScalarTypeModel::Text, JoinPath::ViaText)),
            },
            (ScalarTypeModel::Decimal(x), ScalarTypeModel::Integer(y)) => match unit_join(x, y) {
                Some(u) => Ok((ScalarTypeModel::Decimal(u), JoinPath::Direct)),
                None => Ok((ScalarTypeModel::Text, JoinPath::ViaText)),
            },
            (ScalarTypeModel::Date, ScalarTypeModel::Datetime) => Ok(
                (ScalarTypeModel::Datetime, JoinPath::Direct),
            ),
            (ScalarTypeModel::Datetime, ScalarTypeModel::Date) => Ok(
                (ScalarTypeModel::Datetime, JoinPath::Direct),
            ),
            (ScalarTypeModel::Enum(x), ScalarTypeModel::Enum(y)) => enum_join_of(x, y, noms),
            (ScalarTypeModel::Attachment(x), ScalarTypeModel::Attachment(y)) => Ok(
                (ScalarTypeModel::Attachment(constraint_join(x, y)), JoinPath::Direct),
            ),
            _ => if !has_text(a) || !has_text(b) {
                Err(JoinConflictModel::Incompatible)
            } else if a is Text || b is Text {
                Ok((ScalarTypeModel::Text, JoinPath::Direct))
            } else {
                Ok((ScalarTypeModel::Text, JoinPath::ViaText))
            },
        }
    }
}

fn number_join(decimal: bool, x: Option<Unit>, y: Option<Unit>) -> (r: (ScalarType, JoinPath))
    ensures
        (r.0@, r.1) == (match unit_join(x, y) {
            Some(u) => if decimal {
                (ScalarTypeModel::Decimal(u), JoinPath::Direct)
            } else {
                (ScalarTypeModel::Integer(u), JoinPath::Direct)
            },
            None => (ScalarTypeModel::Text, JoinPath::ViaText),
        }),
{
    match join_units(x, y) {
        Some(u) => {
            let ty = if decimal {
                ScalarType::Decimal(u)
            } else {
                ScalarType::Integer(u)
            };
            assert(u.deep_view() == u);
            (ty, JoinPath::Direct)
        },
        None => (ScalarType::Text, JoinPath::ViaText),
    }
}

/// An upper bound of two scalar types in the order "widens to".
pub fn scalar_join(
    a: &ScalarType,
    b: &ScalarType,
    nomenclatures: &NomenclatureTable,
) -> (r: Result<(ScalarType, JoinPath), JoinConflict>)
    ensures
        order::result_model(r) == join_of(a@, b@, nomenclatures@),
{
    if is_one_type(a, b) {
        return Ok((a.dup(), JoinPath::Direct));
    }
    match (a, b) {
        (ScalarType::Integer(x), ScalarType::Integer(y)) => Ok(number_join(false, *x, *y)),
        (ScalarType::Decimal(x), ScalarType::Decimal(y)) => Ok(number_join(true, *x, *y)),
        (ScalarType::Integer(x), ScalarType::Decimal(y)) => Ok(number_join(true, *x, *y)),
        (ScalarType::Decimal(x), ScalarType::Integer(y)) => Ok(number_join(true, *x, *y)),
        (ScalarType::Date, ScalarType::Datetime) | (ScalarType::Datetime, ScalarType::Date) => Ok(
            (ScalarType::Datetime, JoinPath::Direct),
        ),
        (ScalarType::Enum(x), ScalarType::Enum(y)) => enum_join(x, y, nomenclatures),
        (ScalarType::Attachment(x), ScalarType::Attachment(y)) => Ok(
            (ScalarType::Attachment(join_constraints(x, y)), JoinPath::Direct),
        ),
        _ => if !widens_to_text(a) || !widens_to_text(b) {
            Err(JoinConflict::Incompatible)
        } else {
            let text = match (a, b) {
                (ScalarType::Text, _) | (_, ScalarType::Text) => true,
                _ => false,
            };
            Ok(
                (
                    ScalarType::Text,
                    if text {
                        JoinPath::Direct
                    } else {
                        JoinPath::ViaText
                    },
                ),
            )
        },
    }
}

pub open spec fn arity_join_of(a: Arity, b: Arity) -> Arity {
    if a == Arity::Many || b == Arity::Many {
        Arity::Many
    } else {
        Arity::One
    }
}

/// Many, as soon as one side is.
pub fn arity_join(a: Arity, b: Arity) -> (r: Arity)
    ensures
        r == arity_join_of(a, b),
{
    if a == Arity::Many || b == Arity::Many {
        Arity::Many
    } else {
        Arity::One
    }
}

/// The join of two columns: that of their types and that of their
/// arities.
pub open spec fn column_join_of(
    a: (ScalarTypeModel, Arity),
    b: (ScalarTypeModel, Arity),
    noms: Map<(Seq<char>, u32), Seq<OptionRowModel>>,
) -> Result<((ScalarTypeModel, Arity), JoinPath), JoinConflictModel> {
    match join_of(a.0, b.0, noms) {
        Ok((ty, path)) => Ok(((ty, arity_join_of(a.1, b.1)), path)),
        Err(e) => Err(e),
    }
}

/// The join of two columns.
pub fn column_join(
    a: (&ScalarType, Arity),
    b: (&ScalarType, Arity),
    nomenclatures: &NomenclatureTable,
) -> (r: Result<((ScalarType, Arity), JoinPath), JoinConflict>)
    ensures
        order::result_model(r) == column_join_of((a.0@, a.1), (b.0@, b.1), nomenclatures@),
{
    match scalar_join(a.0, b.0, nomenclatures) {
        Ok((ty, path)) => Ok(((ty, arity_join(a.1, b.1)), path)),
        Err(e) => Err(e),
    }
}

/// A later version of a nomenclature keeps every option of an earlier
/// one.
pub open spec fn append_only(noms: Map<(Seq<char>, u32), Seq<OptionRowModel>>) -> bool {
    forall|id: Seq<char>, v: u32, w: u32|
        #![trigger noms.dom().contains((id, v)), noms.dom().contains((id, w))]
        v <= w && noms.dom().contains((id, v)) && noms.dom().contains((id, w)) ==> options_within(
            noms[(id, v)],
            noms[(id, w)],
        )
}

proof fn merged_rows_hold_both(a: Seq<OptionRowModel>, b: Seq<OptionRowModel>)
    ensures
        merged_rows(a, b) matches Some(m) ==> options_within(a, m) && options_within(b, m),
    decreases b.len(),
{
    if b.len() == 0 {
        assert forall|i: int| 0 <= i < a.len() implies has_option(a, (#[trigger] a[i]).id) by {}
    } else {
        merged_rows_hold_both(a, b.drop_last());
        if merged_rows(a, b) is Some {
            let before = merged_rows(a, b.drop_last())->0;
            let m = merged_rows(a, b)->0;
            row_of_has_option(before, b.last().id);
            assert forall|id: Seq<char>| #[trigger] has_option(before, id) implies has_option(
                m,
                id,
            ) by {
                let i = choose|i: int| 0 <= i < before.len() && (#[trigger] before[i]).id == id;
                assert(m[i] == before[i]);
            }
            assert forall|i: int| 0 <= i < b.len() implies has_option(m, (#[trigger] b[i]).id) by {
                if i < b.len() - 1 {
                    assert(b.drop_last()[i] == b[i]);
                    assert(has_option(before, b[i].id));
                } else if row_of(before, b.last().id) is None {
                    assert(m[before.len() as int] == b.last());
                }
            }
        }
    }
}

proof fn pattern_admits_itself(c: AttachmentConstraintsModel, i: int)
    requires
        0 <= i < c.accept.len(),
    ensures
        c.admits_pattern(c.accept[i]),
{
    assert(schema::pattern_admits(schema::lower(c.accept[i]), schema::lower(c.accept[i])));
}

proof fn constraint_join_covers(a: AttachmentConstraintsModel, b: AttachmentConstraintsModel)
    ensures
        constraint_join(a, b).covers(a),
        constraint_join(a, b).covers(b),
{
    let j = constraint_join(a, b);
    if a.accept.len() > 0 && b.accept.len() > 0 {
        assert forall|i: int| 0 <= i < a.accept.len() implies j.admits_pattern(
            #[trigger] a.accept[i],
        ) by {
            assert(j.accept[i] == a.accept[i]);
            pattern_admits_itself(j, i);
        }
        assert forall|i: int| 0 <= i < b.accept.len() implies j.admits_pattern(
            #[trigger] b.accept[i],
        ) by {
            assert(j.accept[a.accept.len() + i] == b.accept[i]);
            pattern_admits_itself(j, a.accept.len() + i);
        }
    }
}

/// The join is an upper bound: where it exists and the cast to it is
/// known, each side reaches it by a cast that loses nothing and never
/// fails, provided that nomenclatures only ever gain options.
pub proof fn join_is_an_upper_bound(
    a: ScalarTypeModel,
    b: ScalarTypeModel,
    noms: Map<(Seq<char>, u32), Seq<OptionRowModel>>,
)
    requires
        append_only(noms),
    ensures
        join_of(a, b, noms) matches Ok((j, _)) ==> {
            &&& cast_between(a, j, noms) matches Ok(c) ==> c.widens()
            &&& cast_between(b, j, noms) matches Ok(c) ==> c.widens()
        },
{
    if join_of(a, b, noms) is Ok && !one_type(a, b) {
        match (a, b) {
            (ScalarTypeModel::Enum(x), ScalarTypeModel::Enum(y)) => {
                if let (NomenclatureRefModel::Inline(r), NomenclatureRefModel::Inline(s)) = (x, y) {
                    merged_rows_hold_both(r, s);
                }
            },
            (ScalarTypeModel::Attachment(x), ScalarTypeModel::Attachment(y)) => {
                constraint_join_covers(x, y);
            },
            _ => {},
        }
    }
    if one_type(a, b) {
        match (a, b) {
            (ScalarTypeModel::Attachment(x), ScalarTypeModel::Attachment(y)) => {
                assert forall|i: int| 0 <= i < x.accept.len() implies x.names(
                    #[trigger] x.accept[i],
                ) by {
                    assert(schema::lower(x.accept[i]) == schema::lower(x.accept[i]));
                }
                assert(y.equivalent(x));
            },
            _ => {},
        }
    }
}

/// Whether numbers in one unit are numbers in another as they stand.
pub open spec fn unit_reaches(a: Option<Unit>, b: Option<Unit>) -> bool {
    a is None || a == b
}

/// The widening order: what one type holds, another holds too.
pub open spec fn reaches(a: ScalarTypeModel, b: ScalarTypeModel) -> bool {
    match (a, b) {
        (ScalarTypeModel::Integer(x), ScalarTypeModel::Integer(y)) => unit_reaches(x, y),
        (ScalarTypeModel::Integer(x), ScalarTypeModel::Decimal(y)) => unit_reaches(x, y),
        (ScalarTypeModel::Decimal(x), ScalarTypeModel::Decimal(y)) => unit_reaches(x, y),
        (ScalarTypeModel::Date, ScalarTypeModel::Datetime) => true,
        (ScalarTypeModel::Attachment(x), ScalarTypeModel::Attachment(y)) => y.covers(x),
        (
            ScalarTypeModel::Enum(NomenclatureRefModel::Inline(x)),
            ScalarTypeModel::Enum(NomenclatureRefModel::Inline(y)),
        ) => options_within(x, y),
        (
            ScalarTypeModel::Enum(NomenclatureRefModel::Published { id: x, version: v }),
            ScalarTypeModel::Enum(NomenclatureRefModel::Published { id: y, version: w }),
        ) => x == y && v <= w,
        (x, ScalarTypeModel::Text) => has_text(x),
        _ => a == b,
    }
}

/// The widening order is transitive.
pub proof fn reaching_is_transitive(a: ScalarTypeModel, b: ScalarTypeModel, c: ScalarTypeModel)
    requires
        reaches(a, b),
        reaches(b, c),
    ensures
        reaches(a, c),
{
    match (a, b, c) {
        (
            ScalarTypeModel::Attachment(x),
            ScalarTypeModel::Attachment(y),
            ScalarTypeModel::Attachment(z),
        ) => schema::covering_is_transitive(x, y, z),
        (
            ScalarTypeModel::Enum(NomenclatureRefModel::Inline(x)),
            ScalarTypeModel::Enum(NomenclatureRefModel::Inline(y)),
            ScalarTypeModel::Enum(NomenclatureRefModel::Inline(z)),
        ) => {
            assert forall|i: int| 0 <= i < x.len() implies has_option(z, (#[trigger] x[i]).id) by {
                assert(has_option(y, x[i].id));
                let j = choose|j: int| 0 <= j < y.len() && (#[trigger] y[j]).id == x[i].id;
                assert(has_option(z, y[j].id));
            }
        },
        _ => {},
    }
}

/// Both sides of a join reach it.
pub proof fn join_is_reached(
    a: ScalarTypeModel,
    b: ScalarTypeModel,
    noms: Map<(Seq<char>, u32), Seq<OptionRowModel>>,
)
    ensures
        join_of(a, b, noms) matches Ok((j, _)) ==> reaches(a, j) && reaches(b, j),
{
    match (a, b) {
        (ScalarTypeModel::Enum(x), ScalarTypeModel::Enum(y)) => {
            if let (NomenclatureRefModel::Inline(r), NomenclatureRefModel::Inline(s)) = (x, y) {
                merged_rows_hold_both(r, s);
                assert(options_within(r, r));
                assert(options_within(s, s));
            }
        },
        (ScalarTypeModel::Attachment(x), ScalarTypeModel::Attachment(y)) => {
            constraint_join_covers(x, y);
            covers_itself(x);
            if x.equivalent(y) {
                assert(y.equivalent(x));
                schema::equivalent_covers(y, x);
            }
        },
        _ => {},
    }
}

proof fn covers_itself(c: AttachmentConstraintsModel)
    ensures
        c.covers(c),
{
    assert forall|i: int| 0 <= i < c.accept.len() implies c.admits_pattern(
        #[trigger] c.accept[i],
    ) by {
        pattern_admits_itself(c, i);
    }
}

/// A cast up the widening order loses nothing and never fails, where the
/// nomenclatures are known and only ever gain options.
pub proof fn reaching_casts_are_free(
    a: ScalarTypeModel,
    b: ScalarTypeModel,
    noms: Map<(Seq<char>, u32), Seq<OptionRowModel>>,
)
    requires
        append_only(noms),
        reaches(a, b),
    ensures
        cast_between(a, b, noms) matches Ok(c) ==> c.widens(),
{
}

} // verus!
