//! The canonical form of schemas, whose hash is a revision's identity:
//! identical schemas get identical identities everywhere, and different
//! schemas have different forms.

use vstd::prelude::*;
use crate::canonical;
use crate::codec;
use crate::schema;
use crate::text;
use crate::canonical::{CanonicalValue, CanonicalValueModel, hash_plain};
use crate::ids::{ColumnId, RevisionId};
use crate::schema::{
    Arity, BlockRefModel, Cardinality, Column, Element, ElementModel, Group, Mapping, MappingModel,
    NomenclatureRef, NomenclatureRefModel, OptionRow, OptionRowModel, ResolverDeclaration,
    ResolverDeclarationModel, ResultField, ResultFieldModel, ScalarType, ScalarTypeModel, Schema,
    SchemaModel, Unit,
};
use crate::text::{digits_text, text_of};

verus! {

/// A list with one value.
pub open spec fn one_item(a: CanonicalValueModel) -> CanonicalValueModel {
    CanonicalValueModel::Array(seq![a])
}

/// A list with two values.
pub open spec fn two_items(a: CanonicalValueModel, b: CanonicalValueModel) -> CanonicalValueModel {
    CanonicalValueModel::Array(seq![a, b])
}

/// A list with three values.
pub open spec fn three_items(
    a: CanonicalValueModel,
    b: CanonicalValueModel,
    c: CanonicalValueModel,
) -> CanonicalValueModel {
    CanonicalValueModel::Array(seq![a, b, c])
}

/// A text.
pub open spec fn text_item(t: Seq<char>) -> CanonicalValueModel {
    CanonicalValueModel::String(t)
}

proof fn lists_differ(
    a: Seq<CanonicalValueModel>,
    b: Seq<CanonicalValueModel>,
)
    requires
        CanonicalValueModel::Array(a) == CanonicalValueModel::Array(b),
    ensures
        a.len() == b.len(),
        forall|i: int| 0 <= i < a.len() ==> #[trigger] a[i] == b[i],
{
}

fn text_value(t: &str) -> (r: CanonicalValue)
    ensures
        r@ == text_item(t@),
{
    CanonicalValue::String(t.to_owned())
}

fn list1(a: CanonicalValue) -> (r: CanonicalValue)
    ensures
        r@ == one_item(a@),
{
    let ghost x = a@;
    let mut v: Vec<CanonicalValue> = Vec::new();
    v.push(a);
    assert(canonical::items_model(v@) =~= seq![x]);
    CanonicalValue::Array(v)
}

fn list2(a: CanonicalValue, b: CanonicalValue) -> (r: CanonicalValue)
    ensures
        r@ == two_items(a@, b@),
{
    let ghost x = a@;
    let ghost y = b@;
    let mut v: Vec<CanonicalValue> = Vec::new();
    v.push(a);
    v.push(b);
    assert(canonical::items_model(v@) =~= seq![x, y]);
    CanonicalValue::Array(v)
}

fn list3(a: CanonicalValue, b: CanonicalValue, c: CanonicalValue) -> (r: CanonicalValue)
    ensures
        r@ == three_items(a@, b@, c@),
{
    let ghost x = a@;
    let ghost y = b@;
    let ghost z = c@;
    let mut v: Vec<CanonicalValue> = Vec::new();
    v.push(a);
    v.push(b);
    v.push(c);
    assert(canonical::items_model(v@) =~= seq![x, y, z]);
    CanonicalValue::Array(v)
}

/// An extra field: its name and its value.
pub open spec fn field_form(f: (Seq<char>, Seq<char>)) -> CanonicalValueModel {
    two_items(text_item(f.0), text_item(f.1))
}

proof fn field_is_distinct(a: (Seq<char>, Seq<char>), b: (Seq<char>, Seq<char>))
    requires
        field_form(a) == field_form(b),
    ensures
        a == b,
{
    lists_differ(field_form(a)->Array_0, field_form(b)->Array_0);
    assert(field_form(a)->Array_0[0] == field_form(b)->Array_0[0]);
    assert(field_form(a)->Array_0[1] == field_form(b)->Array_0[1]);
}

proof fn field_encodes(f: (Seq<char>, Seq<char>))
    ensures
        canonical::jcs(field_form(f)) is Ok,
{
    codec::items_encode(field_form(f)->Array_0);
}

fn field_canonical(f: &(String, String)) -> (r: CanonicalValue)
    ensures
        r@ == field_form(f.deep_view()),
{
    list2(text_value(f.0.as_str()), text_value(f.1.as_str()))
}

/// Extra fields.
pub open spec fn fields_form(s: Seq<(Seq<char>, Seq<char>)>) -> CanonicalValueModel {
    CanonicalValueModel::Array(Seq::new(s.len(), |i: int| field_form(s[i])))
}

proof fn fields_are_distinct(a: Seq<(Seq<char>, Seq<char>)>, b: Seq<(Seq<char>, Seq<char>)>)
    requires
        fields_form(a) == fields_form(b),
    ensures
        a == b,
{
    let x = fields_form(a)->Array_0;
    let y = fields_form(b)->Array_0;
    assert(a.len() == x.len() && b.len() == y.len());
    assert forall|i: int| 0 <= i < a.len() implies a[i] == b[i] by {
        assert(x[i] == y[i]);
        field_is_distinct(a[i], b[i]);
    }
    assert(a =~= b);
}

proof fn fields_encode(s: Seq<(Seq<char>, Seq<char>)>)
    ensures
        canonical::jcs(fields_form(s)) is Ok,
{
    let x = fields_form(s)->Array_0;
    assert forall|i: int| 0 <= i < x.len() implies canonical::jcs(#[trigger] x[i]) is Ok by {
        field_encodes(s[i]);
    }
    codec::items_encode(x);
}

fn fields_canonical(v: &Vec<(String, String)>) -> (r: CanonicalValue)
    ensures
        r@ == fields_form(v.deep_view()),
{
    let ghost m = v.deep_view();
    let mut items: Vec<CanonicalValue> = Vec::new();
    let mut i: usize = 0;
    while i < v.len()
        invariant
            i <= v@.len(),
            m == v.deep_view(),
            items@.len() == i,
            forall|j: int| 0 <= j < i ==> canonical::value_model(#[trigger] items@[j]) == field_form(m[j]),
        decreases v@.len() - i,
    {
        assert(m[i as int] == v@[i as int].deep_view());
        items.push(field_canonical(&v[i]));
        i += 1;
    }
    assert(canonical::items_model(items@) =~= fields_form(m)->Array_0);
    CanonicalValue::Array(items)
}

/// A row: its identity, its label and its extra fields.
pub open spec fn row_form(r: OptionRowModel) -> CanonicalValueModel {
    three_items(text_item(r.id), text_item(r.label), fields_form(r.fields))
}

proof fn row_is_distinct(a: OptionRowModel, b: OptionRowModel)
    requires
        row_form(a) == row_form(b),
    ensures
        a == b,
{
    let x = row_form(a)->Array_0;
    let y = row_form(b)->Array_0;
    lists_differ(x, y);
    assert(x[0] == y[0]);
    assert(x[1] == y[1]);
    assert(x[2] == y[2]);
    fields_are_distinct(a.fields, b.fields);
}

proof fn row_encodes(r: OptionRowModel)
    ensures
        canonical::jcs(row_form(r)) is Ok,
{
    fields_encode(r.fields);
    codec::items_encode(row_form(r)->Array_0);
}

fn row_canonical(r: &OptionRow) -> (v: CanonicalValue)
    ensures
        v@ == row_form(r@),
{
    list3(
        text_value(r.id.as_str()),
        text_value(r.label.as_str()),
        fields_canonical(&r.fields),
    )
}

/// Rows of a nomenclature.
pub open spec fn rows_form(s: Seq<OptionRowModel>) -> CanonicalValueModel {
    CanonicalValueModel::Array(Seq::new(s.len(), |i: int| row_form(s[i])))
}

proof fn rows_are_distinct(a: Seq<OptionRowModel>, b: Seq<OptionRowModel>)
    requires
        rows_form(a) == rows_form(b),
    ensures
        a == b,
{
    let x = rows_form(a)->Array_0;
    let y = rows_form(b)->Array_0;
    assert(a.len() == x.len() && b.len() == y.len());
    assert forall|i: int| 0 <= i < a.len() implies a[i] == b[i] by {
        assert(x[i] == y[i]);
        row_is_distinct(a[i], b[i]);
    }
    assert(a =~= b);
}

proof fn rows_encode(s: Seq<OptionRowModel>)
    ensures
        canonical::jcs(rows_form(s)) is Ok,
{
    let x = rows_form(s)->Array_0;
    assert forall|i: int| 0 <= i < x.len() implies canonical::jcs(#[trigger] x[i]) is Ok by {
        row_encodes(s[i]);
    }
    codec::items_encode(x);
}

fn rows_canonical(v: &Vec<OptionRow>) -> (r: CanonicalValue)
    ensures
        r@ == rows_form(v.deep_view()),
{
    let ghost m = v.deep_view();
    let mut items: Vec<CanonicalValue> = Vec::new();
    let mut i: usize = 0;
    while i < v.len()
        invariant
            i <= v@.len(),
            m == v.deep_view(),
            items@.len() == i,
            forall|j: int| 0 <= j < i ==> canonical::value_model(#[trigger] items@[j]) == row_form(m[j]),
        decreases v@.len() - i,
    {
        assert(m[i as int] == v@[i as int].deep_view());
        items.push(row_canonical(&v[i]));
        i += 1;
    }
    assert(canonical::items_model(items@) =~= rows_form(m)->Array_0);
    CanonicalValue::Array(items)
}

proof fn pattern_is_distinct(a: Seq<char>, b: Seq<char>)
    requires
        text_item(a) == text_item(b),
    ensures
        a == b,
{
}

proof fn pattern_encodes(t: Seq<char>)
    ensures
        canonical::jcs(text_item(t)) is Ok,
{
}

fn pattern_canonical(t: &String) -> (r: CanonicalValue)
    ensures
        r@ == text_item(t@),
{
    text_value(t.as_str())
}

/// Content type patterns.
pub open spec fn patterns_form(s: Seq<Seq<char>>) -> CanonicalValueModel {
    CanonicalValueModel::Array(Seq::new(s.len(), |i: int| text_item(s[i])))
}

proof fn patterns_are_distinct(a: Seq<Seq<char>>, b: Seq<Seq<char>>)
    requires
        patterns_form(a) == patterns_form(b),
    ensures
        a == b,
{
    let x = patterns_form(a)->Array_0;
    let y = patterns_form(b)->Array_0;
    assert(a.len() == x.len() && b.len() == y.len());
    assert forall|i: int| 0 <= i < a.len() implies a[i] == b[i] by {
        assert(x[i] == y[i]);
        pattern_is_distinct(a[i], b[i]);
    }
    assert(a =~= b);
}

proof fn patterns_encode(s: Seq<Seq<char>>)
    ensures
        canonical::jcs(patterns_form(s)) is Ok,
{
    let x = patterns_form(s)->Array_0;
    assert forall|i: int| 0 <= i < x.len() implies canonical::jcs(#[trigger] x[i]) is Ok by {
        pattern_encodes(s[i]);
    }
    codec::items_encode(x);
}

fn patterns_canonical(v: &Vec<String>) -> (r: CanonicalValue)
    ensures
        r@ == patterns_form(v.deep_view()),
{
    let ghost m = v.deep_view();
    let mut items: Vec<CanonicalValue> = Vec::new();
    let mut i: usize = 0;
    while i < v.len()
        invariant
            i <= v@.len(),
            m == v.deep_view(),
            items@.len() == i,
            forall|j: int| 0 <= j < i ==> canonical::value_model(#[trigger] items@[j]) == text_item(m[j]),
        decreases v@.len() - i,
    {
        assert(m[i as int] == v@[i as int].deep_view());
        items.push(pattern_canonical(&v[i]));
        i += 1;
    }
    assert(canonical::items_model(items@) =~= patterns_form(m)->Array_0);
    CanonicalValue::Array(items)
}

/// A unit, or none.
pub open spec fn unit_form(u: Option<Unit>) -> CanonicalValueModel {
    match u {
        Some(u) => text_item(u.spec_name()),
        None => CanonicalValueModel::Null,
    }
}

/// A limit, or none: a text, since a number need not fit.
pub open spec fn limit_form(n: Option<u64>) -> CanonicalValueModel {
    match n {
        Some(n) => text_item(text::digits(n as nat)),
        None => CanonicalValueModel::Null,
    }
}

/// A type: a name, and what it takes.
pub open spec fn type_form(ty: ScalarTypeModel) -> CanonicalValueModel {
    match ty {
        ScalarTypeModel::Text => one_item(text_item("text"@)),
        ScalarTypeModel::Boolean => one_item(text_item("boolean"@)),
        ScalarTypeModel::Integer(u) => two_items(text_item("integer"@), unit_form(u)),
        ScalarTypeModel::Decimal(u) => two_items(text_item("decimal"@), unit_form(u)),
        ScalarTypeModel::Date => one_item(text_item("date"@)),
        ScalarTypeModel::Datetime => one_item(text_item("datetime"@)),
        ScalarTypeModel::Enum(NomenclatureRefModel::Inline(rows)) => two_items(
            text_item("inline"@),
            rows_form(rows),
        ),
        ScalarTypeModel::Enum(NomenclatureRefModel::Published { id, version }) => three_items(
            text_item("published"@),
            text_item(id),
            CanonicalValueModel::Int(version as i64),
        ),
        ScalarTypeModel::Attachment(c) => three_items(
            text_item("attachment"@),
            patterns_form(c.accept),
            limit_form(c.max_bytes),
        ),
        ScalarTypeModel::Geometry => one_item(text_item("geometry"@)),
    }
}

proof fn type_names()
    ensures
        "text"@ != "boolean"@,
        "text"@ != "integer"@,
        "text"@ != "decimal"@,
        "text"@ != "date"@,
        "text"@ != "datetime"@,
        "text"@ != "inline"@,
        "text"@ != "published"@,
        "text"@ != "attachment"@,
        "text"@ != "geometry"@,
        "boolean"@ != "integer"@,
        "boolean"@ != "decimal"@,
        "boolean"@ != "date"@,
        "boolean"@ != "datetime"@,
        "boolean"@ != "inline"@,
        "boolean"@ != "published"@,
        "boolean"@ != "attachment"@,
        "boolean"@ != "geometry"@,
        "integer"@ != "decimal"@,
        "integer"@ != "date"@,
        "integer"@ != "datetime"@,
        "integer"@ != "inline"@,
        "integer"@ != "published"@,
        "integer"@ != "attachment"@,
        "integer"@ != "geometry"@,
        "decimal"@ != "date"@,
        "decimal"@ != "datetime"@,
        "decimal"@ != "inline"@,
        "decimal"@ != "published"@,
        "decimal"@ != "attachment"@,
        "decimal"@ != "geometry"@,
        "date"@ != "datetime"@,
        "date"@ != "inline"@,
        "date"@ != "published"@,
        "date"@ != "attachment"@,
        "date"@ != "geometry"@,
        "datetime"@ != "inline"@,
        "datetime"@ != "published"@,
        "datetime"@ != "attachment"@,
        "datetime"@ != "geometry"@,
        "inline"@ != "published"@,
        "inline"@ != "attachment"@,
        "inline"@ != "geometry"@,
        "published"@ != "attachment"@,
        "published"@ != "geometry"@,
        "attachment"@ != "geometry"@,
{
    reveal_strlit("text");
    reveal_strlit("boolean");
    reveal_strlit("integer");
    reveal_strlit("decimal");
    reveal_strlit("date");
    reveal_strlit("datetime");
    reveal_strlit("inline");
    reveal_strlit("published");
    reveal_strlit("attachment");
    reveal_strlit("geometry");
    assert("text"@.len() == 4);
    assert("boolean"@.len() == 7);
    assert("integer"@.len() == 7);
    assert("decimal"@.len() == 7);
    assert("date"@.len() == 4);
    assert("datetime"@.len() == 8);
    assert("inline"@.len() == 6);
    assert("published"@.len() == 9);
    assert("attachment"@.len() == 10);
    assert("geometry"@.len() == 8);
    assert("text"@[0] == 't');
    assert("boolean"@[0] == 'b');
    assert("integer"@[0] == 'i');
    assert("decimal"@[0] == 'd');
    assert("date"@[0] == 'd');
    assert("datetime"@[0] == 'd');
    assert("geometry"@[0] == 'g');
}

proof fn type_is_distinct(a: ScalarTypeModel, b: ScalarTypeModel)
    requires
        type_form(a) == type_form(b),
    ensures
        a == b,
{
    type_names();
    let x = type_form(a)->Array_0;
    let y = type_form(b)->Array_0;
    lists_differ(x, y);
    assert(x[0] == y[0]);
    if x.len() > 1 {
        assert(x[1] == y[1]);
    }
    if x.len() > 2 {
        assert(x[2] == y[2]);
    }
    match (a, b) {
        (ScalarTypeModel::Integer(Some(u)), ScalarTypeModel::Integer(Some(w))) => {
            schema::unit_names_are_distinct(u, w);
        },
        (ScalarTypeModel::Decimal(Some(u)), ScalarTypeModel::Decimal(Some(w))) => {
            schema::unit_names_are_distinct(u, w);
        },
        (
            ScalarTypeModel::Enum(NomenclatureRefModel::Inline(p)),
            ScalarTypeModel::Enum(NomenclatureRefModel::Inline(q)),
        ) => rows_are_distinct(p, q),
        (ScalarTypeModel::Attachment(p), ScalarTypeModel::Attachment(q)) => {
            patterns_are_distinct(p.accept, q.accept);
            if let (Some(m), Some(n)) = (p.max_bytes, q.max_bytes) {
                text::digits_spell(m as nat);
                text::digits_spell(n as nat);
            }
        },
        _ => {},
    }
}

proof fn type_encodes(ty: ScalarTypeModel)
    ensures
        canonical::jcs(type_form(ty)) is Ok,
{
    match ty {
        ScalarTypeModel::Enum(NomenclatureRefModel::Inline(rows)) => rows_encode(rows),
        ScalarTypeModel::Attachment(c) => patterns_encode(c.accept),
        _ => {},
    }
    codec::items_encode(type_form(ty)->Array_0);
}

fn unit_canonical(u: &Option<Unit>) -> (r: CanonicalValue)
    ensures
        r@ == unit_form(*u),
{
    match u {
        Some(u) => text_value(u.name()),
        None => CanonicalValue::Null,
    }
}

fn limit_canonical(n: &Option<u64>) -> (r: CanonicalValue)
    ensures
        r@ == limit_form(*n),
{
    match n {
        Some(n) => {
            let d = digits_text(*n as u128);
            CanonicalValue::String(text_of(&d))
        },
        None => CanonicalValue::Null,
    }
}

fn type_canonical(ty: &ScalarType) -> (r: CanonicalValue)
    ensures
        r@ == type_form(ty@),
{
    match ty {
        ScalarType::Text => list1(text_value("text")),
        ScalarType::Boolean => list1(text_value("boolean")),
        ScalarType::Integer(u) => list2(text_value("integer"), unit_canonical(u)),
        ScalarType::Decimal(u) => list2(text_value("decimal"), unit_canonical(u)),
        ScalarType::Date => list1(text_value("date")),
        ScalarType::Datetime => list1(text_value("datetime")),
        ScalarType::Enum(NomenclatureRef::Inline(rows)) => list2(
            text_value("inline"),
            rows_canonical(rows),
        ),
        ScalarType::Enum(NomenclatureRef::Published { id, version }) => list3(
            text_value("published"),
            text_value(id.as_str()),
            CanonicalValue::Int(*version as i64),
        ),
        ScalarType::Attachment(c) => list3(
            text_value("attachment"),
            patterns_canonical(&c.accept),
            limit_canonical(&c.max_bytes),
        ),
        ScalarType::Geometry => list1(text_value("geometry")),
    }
}

/// A name with a type.
pub open spec fn typed_form(f: (Seq<char>, ScalarTypeModel)) -> CanonicalValueModel {
    two_items(text_item(f.0), type_form(f.1))
}

proof fn input_is_distinct(a: (Seq<char>, ScalarTypeModel), b: (Seq<char>, ScalarTypeModel))
    requires
        typed_form(a) == typed_form(b),
    ensures
        a == b,
{
    let x = typed_form(a)->Array_0;
    let y = typed_form(b)->Array_0;
    lists_differ(x, y);
    assert(x[0] == y[0]);
    assert(x[1] == y[1]);
    type_is_distinct(a.1, b.1);
}

proof fn input_encodes(f: (Seq<char>, ScalarTypeModel))
    ensures
        canonical::jcs(typed_form(f)) is Ok,
{
    type_encodes(f.1);
    codec::items_encode(typed_form(f)->Array_0);
}

fn input_canonical(f: &(ColumnId, ScalarType)) -> (r: CanonicalValue)
    ensures
        r@ == typed_form(f.deep_view()),
{
    list2(text_value(f.0.as_str()), type_canonical(&f.1))
}

/// A resolver's inputs.
pub open spec fn inputs_form(s: Seq<(Seq<char>, ScalarTypeModel)>) -> CanonicalValueModel {
    CanonicalValueModel::Array(Seq::new(s.len(), |i: int| typed_form(s[i])))
}

proof fn inputs_are_distinct(a: Seq<(Seq<char>, ScalarTypeModel)>, b: Seq<(Seq<char>, ScalarTypeModel)>)
    requires
        inputs_form(a) == inputs_form(b),
    ensures
        a == b,
{
    let x = inputs_form(a)->Array_0;
    let y = inputs_form(b)->Array_0;
    assert(a.len() == x.len() && b.len() == y.len());
    assert forall|i: int| 0 <= i < a.len() implies a[i] == b[i] by {
        assert(x[i] == y[i]);
        input_is_distinct(a[i], b[i]);
    }
    assert(a =~= b);
}

proof fn inputs_encode(s: Seq<(Seq<char>, ScalarTypeModel)>)
    ensures
        canonical::jcs(inputs_form(s)) is Ok,
{
    let x = inputs_form(s)->Array_0;
    assert forall|i: int| 0 <= i < x.len() implies canonical::jcs(#[trigger] x[i]) is Ok by {
        input_encodes(s[i]);
    }
    codec::items_encode(x);
}

fn inputs_canonical(v: &Vec<(ColumnId, ScalarType)>) -> (r: CanonicalValue)
    ensures
        r@ == inputs_form(v.deep_view()),
{
    let ghost m = v.deep_view();
    let mut items: Vec<CanonicalValue> = Vec::new();
    let mut i: usize = 0;
    while i < v.len()
        invariant
            i <= v@.len(),
            m == v.deep_view(),
            items@.len() == i,
            forall|j: int| 0 <= j < i ==> canonical::value_model(#[trigger] items@[j]) == typed_form(m[j]),
        decreases v@.len() - i,
    {
        assert(m[i as int] == v@[i as int].deep_view());
        items.push(input_canonical(&v[i]));
        i += 1;
    }
    assert(canonical::items_model(items@) =~= inputs_form(m)->Array_0);
    CanonicalValue::Array(items)
}

/// A field of a result type.
pub open spec fn result_form(f: ResultFieldModel) -> CanonicalValueModel {
    typed_form((f.name, f.ty))
}

proof fn result_is_distinct(a: ResultFieldModel, b: ResultFieldModel)
    requires
        result_form(a) == result_form(b),
    ensures
        a == b,
{
    input_is_distinct((a.name, a.ty), (b.name, b.ty));
}

proof fn result_encodes(f: ResultFieldModel)
    ensures
        canonical::jcs(result_form(f)) is Ok,
{
    input_encodes((f.name, f.ty));
}

fn result_canonical(f: &ResultField) -> (r: CanonicalValue)
    ensures
        r@ == result_form(f@),
{
    list2(text_value(f.name.as_str()), type_canonical(&f.ty))
}

/// A resolver's result type.
pub open spec fn results_form(s: Seq<ResultFieldModel>) -> CanonicalValueModel {
    CanonicalValueModel::Array(Seq::new(s.len(), |i: int| result_form(s[i])))
}

proof fn results_are_distinct(a: Seq<ResultFieldModel>, b: Seq<ResultFieldModel>)
    requires
        results_form(a) == results_form(b),
    ensures
        a == b,
{
    let x = results_form(a)->Array_0;
    let y = results_form(b)->Array_0;
    assert(a.len() == x.len() && b.len() == y.len());
    assert forall|i: int| 0 <= i < a.len() implies a[i] == b[i] by {
        assert(x[i] == y[i]);
        result_is_distinct(a[i], b[i]);
    }
    assert(a =~= b);
}

proof fn results_encode(s: Seq<ResultFieldModel>)
    ensures
        canonical::jcs(results_form(s)) is Ok,
{
    let x = results_form(s)->Array_0;
    assert forall|i: int| 0 <= i < x.len() implies canonical::jcs(#[trigger] x[i]) is Ok by {
        result_encodes(s[i]);
    }
    codec::items_encode(x);
}

fn results_canonical(v: &Vec<ResultField>) -> (r: CanonicalValue)
    ensures
        r@ == results_form(v.deep_view()),
{
    let ghost m = v.deep_view();
    let mut items: Vec<CanonicalValue> = Vec::new();
    let mut i: usize = 0;
    while i < v.len()
        invariant
            i <= v@.len(),
            m == v.deep_view(),
            items@.len() == i,
            forall|j: int| 0 <= j < i ==> canonical::value_model(#[trigger] items@[j]) == result_form(m[j]),
        decreases v@.len() - i,
    {
        assert(m[i as int] == v@[i as int].deep_view());
        items.push(result_canonical(&v[i]));
        i += 1;
    }
    assert(canonical::items_model(items@) =~= results_form(m)->Array_0);
    CanonicalValue::Array(items)
}

/// A mapping: its result field and its target.
pub open spec fn mapping_form(m: MappingModel) -> CanonicalValueModel {
    two_items(text_item(m.result_field), text_item(m.target))
}

proof fn mapping_is_distinct(a: MappingModel, b: MappingModel)
    requires
        mapping_form(a) == mapping_form(b),
    ensures
        a == b,
{
    let x = mapping_form(a)->Array_0;
    let y = mapping_form(b)->Array_0;
    lists_differ(x, y);
    assert(x[0] == y[0]);
    assert(x[1] == y[1]);
}

proof fn mapping_encodes(m: MappingModel)
    ensures
        canonical::jcs(mapping_form(m)) is Ok,
{
    codec::items_encode(mapping_form(m)->Array_0);
}

fn mapping_canonical(m: &Mapping) -> (r: CanonicalValue)
    ensures
        r@ == mapping_form(m@),
{
    list2(text_value(m.result_field.as_str()), text_value(m.target.as_str()))
}

/// A resolver's mappings.
pub open spec fn mappings_form(s: Seq<MappingModel>) -> CanonicalValueModel {
    CanonicalValueModel::Array(Seq::new(s.len(), |i: int| mapping_form(s[i])))
}

proof fn mappings_are_distinct(a: Seq<MappingModel>, b: Seq<MappingModel>)
    requires
        mappings_form(a) == mappings_form(b),
    ensures
        a == b,
{
    let x = mappings_form(a)->Array_0;
    let y = mappings_form(b)->Array_0;
    assert(a.len() == x.len() && b.len() == y.len());
    assert forall|i: int| 0 <= i < a.len() implies a[i] == b[i] by {
        assert(x[i] == y[i]);
        mapping_is_distinct(a[i], b[i]);
    }
    assert(a =~= b);
}

proof fn mappings_encode(s: Seq<MappingModel>)
    ensures
        canonical::jcs(mappings_form(s)) is Ok,
{
    let x = mappings_form(s)->Array_0;
    assert forall|i: int| 0 <= i < x.len() implies canonical::jcs(#[trigger] x[i]) is Ok by {
        mapping_encodes(s[i]);
    }
    codec::items_encode(x);
}

fn mappings_canonical(v: &Vec<Mapping>) -> (r: CanonicalValue)
    ensures
        r@ == mappings_form(v.deep_view()),
{
    let ghost m = v.deep_view();
    let mut items: Vec<CanonicalValue> = Vec::new();
    let mut i: usize = 0;
    while i < v.len()
        invariant
            i <= v@.len(),
            m == v.deep_view(),
            items@.len() == i,
            forall|j: int| 0 <= j < i ==> canonical::value_model(#[trigger] items@[j]) == mapping_form(m[j]),
        decreases v@.len() - i,
    {
        assert(m[i as int] == v@[i as int].deep_view());
        items.push(mapping_canonical(&v[i]));
        i += 1;
    }
    assert(canonical::items_model(items@) =~= mappings_form(m)->Array_0);
    CanonicalValue::Array(items)
}

/// A resolver's declaration.
pub open spec fn resolver_form(d: ResolverDeclarationModel) -> CanonicalValueModel {
    CanonicalValueModel::Array(
        seq![
            text_item(d.id),
            CanonicalValueModel::Int(d.version as i64),
            text_item(d.anchor),
            inputs_form(d.input),
            results_form(d.result_type),
            mappings_form(d.mapping),
        ],
    )
}

proof fn resolver_is_distinct(a: ResolverDeclarationModel, b: ResolverDeclarationModel)
    requires
        resolver_form(a) == resolver_form(b),
    ensures
        a == b,
{
    let x = resolver_form(a)->Array_0;
    let y = resolver_form(b)->Array_0;
    lists_differ(x, y);
    assert(x[0] == y[0]);
    assert(x[1] == y[1]);
    assert(x[2] == y[2]);
    assert(x[3] == y[3]);
    assert(x[4] == y[4]);
    assert(x[5] == y[5]);
    inputs_are_distinct(a.input, b.input);
    results_are_distinct(a.result_type, b.result_type);
    mappings_are_distinct(a.mapping, b.mapping);
}

proof fn resolver_encodes(d: ResolverDeclarationModel)
    ensures
        canonical::jcs(resolver_form(d)) is Ok,
{
    inputs_encode(d.input);
    results_encode(d.result_type);
    mappings_encode(d.mapping);
    codec::items_encode(resolver_form(d)->Array_0);
}

fn resolver_canonical(d: &ResolverDeclaration) -> (r: CanonicalValue)
    ensures
        r@ == resolver_form(d@),
{
    let mut v: Vec<CanonicalValue> = Vec::new();
    v.push(text_value(d.id.as_str()));
    v.push(CanonicalValue::Int(d.version as i64));
    v.push(text_value(d.anchor.as_str()));
    v.push(inputs_canonical(&d.input));
    v.push(results_canonical(&d.result_type));
    v.push(mappings_canonical(&d.mapping));
    assert(canonical::items_model(v@) =~= resolver_form(d@)->Array_0);
    CanonicalValue::Array(v)
}

/// A schema's resolvers.
pub open spec fn resolvers_form(s: Seq<ResolverDeclarationModel>) -> CanonicalValueModel {
    CanonicalValueModel::Array(Seq::new(s.len(), |i: int| resolver_form(s[i])))
}

proof fn resolvers_are_distinct(a: Seq<ResolverDeclarationModel>, b: Seq<ResolverDeclarationModel>)
    requires
        resolvers_form(a) == resolvers_form(b),
    ensures
        a == b,
{
    let x = resolvers_form(a)->Array_0;
    let y = resolvers_form(b)->Array_0;
    assert(a.len() == x.len() && b.len() == y.len());
    assert forall|i: int| 0 <= i < a.len() implies a[i] == b[i] by {
        assert(x[i] == y[i]);
        resolver_is_distinct(a[i], b[i]);
    }
    assert(a =~= b);
}

proof fn resolvers_encode(s: Seq<ResolverDeclarationModel>)
    ensures
        canonical::jcs(resolvers_form(s)) is Ok,
{
    let x = resolvers_form(s)->Array_0;
    assert forall|i: int| 0 <= i < x.len() implies canonical::jcs(#[trigger] x[i]) is Ok by {
        resolver_encodes(s[i]);
    }
    codec::items_encode(x);
}

fn resolvers_canonical(v: &Vec<ResolverDeclaration>) -> (r: CanonicalValue)
    ensures
        r@ == resolvers_form(v.deep_view()),
{
    let ghost m = v.deep_view();
    let mut items: Vec<CanonicalValue> = Vec::new();
    let mut i: usize = 0;
    while i < v.len()
        invariant
            i <= v@.len(),
            m == v.deep_view(),
            items@.len() == i,
            forall|j: int| 0 <= j < i ==> canonical::value_model(#[trigger] items@[j]) == resolver_form(m[j]),
        decreases v@.len() - i,
    {
        assert(m[i as int] == v@[i as int].deep_view());
        items.push(resolver_canonical(&v[i]));
        i += 1;
    }
    assert(canonical::items_model(items@) =~= resolvers_form(m)->Array_0);
    CanonicalValue::Array(items)
}

/// One or many.
pub open spec fn arity_form(a: Arity) -> CanonicalValueModel {
    CanonicalValueModel::Bool(a == Arity::Many)
}

/// One or many.
pub open spec fn cardinality_form(c: Cardinality) -> CanonicalValueModel {
    CanonicalValueModel::Bool(c == Cardinality::Many)
}

/// The block that a group comes from, or none.
pub open spec fn block_form(b: Option<BlockRefModel>) -> CanonicalValueModel {
    match b {
        Some(b) => two_items(text_item(b.id), CanonicalValueModel::Int(b.version as i64)),
        None => CanonicalValueModel::Null,
    }
}

/// A column or a group.
pub open spec fn element_form(e: ElementModel) -> CanonicalValueModel
    decreases e,
{
    match e {
        ElementModel::Column(c) => CanonicalValueModel::Array(
            seq![text_item(c.id), text_item(c.label), arity_form(c.arity), type_form(c.ty)],
        ),
        ElementModel::Group(g) => CanonicalValueModel::Array(
            seq![
                text_item(g.id),
                text_item(g.label),
                cardinality_form(g.cardinality),
                block_form(g.included_from),
                CanonicalValueModel::Array(elements_form(g.children)),
            ],
        ),
    }
}

/// Columns and groups, in order.
pub open spec fn elements_form(s: Seq<ElementModel>) -> Seq<CanonicalValueModel>
    decreases s,
{
    if s.len() == 0 {
        Seq::empty()
    } else {
        elements_form(s.drop_last()).push(element_form(s.last()))
    }
}

proof fn element_is_distinct(a: ElementModel, b: ElementModel)
    requires
        element_form(a) == element_form(b),
    ensures
        a == b,
    decreases a,
{
    let x = element_form(a)->Array_0;
    let y = element_form(b)->Array_0;
    lists_differ(x, y);
    assert(x[0] == y[0]);
    assert(x[1] == y[1]);
    assert(x[2] == y[2]);
    assert(x[3] == y[3]);
    match (a, b) {
        (ElementModel::Column(c), ElementModel::Column(d)) => {
            type_is_distinct(c.ty, d.ty);
            assert(c == d);
            assert(a == b);
        },
        (ElementModel::Group(g), ElementModel::Group(h)) => {
            assert(x[4] == y[4]);
            elements_are_distinct(g.children, h.children);
            if let (Some(p), Some(q)) = (g.included_from, h.included_from) {
                let u = block_form(g.included_from)->Array_0;
                let w = block_form(h.included_from)->Array_0;
                lists_differ(u, w);
                assert(u[0] == w[0]);
                assert(u[1] == w[1]);
            }
            assert(g == h);
            assert(a == b);
        },
        (ElementModel::Column(_), ElementModel::Group(_)) => {
            assert(x.len() == 4);
            assert(y.len() == 5);
        },
        (ElementModel::Group(_), ElementModel::Column(_)) => {
            assert(x.len() == 5);
            assert(y.len() == 4);
        },
    }
}

proof fn elements_are_distinct(a: Seq<ElementModel>, b: Seq<ElementModel>)
    requires
        elements_form(a) == elements_form(b),
    ensures
        a == b,
    decreases a,
{
    assert(elements_form(a).len() == 0 <==> a.len() == 0);
    assert(elements_form(b).len() == 0 <==> b.len() == 0);
    if a.len() == 0 || b.len() == 0 {
        assert(a =~= b);
    } else {
        let x = elements_form(a);
        let y = elements_form(b);
        assert(x.last() == y.last());
        assert(x.drop_last() =~= elements_form(a.drop_last()));
        assert(y.drop_last() =~= elements_form(b.drop_last()));
        elements_are_distinct(a.drop_last(), b.drop_last());
        element_is_distinct(a.last(), b.last());
        assert(a =~= a.drop_last().push(a.last()));
        assert(b =~= b.drop_last().push(b.last()));
    }
}

proof fn element_encodes(e: ElementModel)
    ensures
        canonical::jcs(element_form(e)) is Ok,
    decreases e,
{
    match e {
        ElementModel::Column(c) => {
            type_encodes(c.ty);
        },
        ElementModel::Group(g) => {
            elements_encode(g.children);
            codec::items_encode(elements_form(g.children));
            if g.included_from is Some {
                codec::items_encode(block_form(g.included_from)->Array_0);
            }
        },
    }
    codec::items_encode(element_form(e)->Array_0);
}

proof fn elements_encode(s: Seq<ElementModel>)
    ensures
        forall|i: int|
            0 <= i < elements_form(s).len() ==> canonical::jcs(#[trigger] elements_form(s)[i]) is Ok,
    decreases s,
{
    if s.len() > 0 {
        elements_encode(s.drop_last());
        element_encodes(s.last());
        let x = elements_form(s);
        assert forall|i: int| 0 <= i < x.len() implies canonical::jcs(#[trigger] x[i]) is Ok by {
            if i < x.len() - 1 {
                assert(x[i] == elements_form(s.drop_last())[i]);
            }
        }
    }
}

fn elements_canonical(v: &Vec<Element>) -> (r: Vec<CanonicalValue>)
    ensures
        canonical::items_model(r@) == elements_form(schema::elements_model(v@)),
    decreases v,
{
    let ghost m = schema::elements_model(v@);
    let mut r: Vec<CanonicalValue> = Vec::new();
    let mut i: usize = 0;
    assert(m.take(0) =~= Seq::<ElementModel>::empty());
    assert(canonical::items_model(r@) =~= Seq::<CanonicalValueModel>::empty());
    while i < v.len()
        invariant
            i <= v@.len(),
            m == schema::elements_model(v@),
            canonical::items_model(r@) == elements_form(m.take(i as int)),
        decreases v@.len() - i,
    {
        let ghost had = canonical::items_model(r@);
        r.push(element_canonical(&v[i]));
        proof {
            assert(m.take(i + 1).drop_last() =~= m.take(i as int));
            assert(m.take(i + 1).last() == schema::element_model(v@[i as int]));
            assert(canonical::items_model(r@) =~= had.push(element_form(m[i as int])));
        }
        i += 1;
    }
    assert(m.take(m.len() as int) =~= m);
    r
}

fn element_canonical(e: &Element) -> (r: CanonicalValue)
    ensures
        r@ == element_form(schema::element_model(*e)),
    decreases e,
{
    let mut v: Vec<CanonicalValue> = Vec::new();
    match e {
        Element::Column(c) => {
            v.push(text_value(c.id.as_str()));
            v.push(text_value(c.label.as_str()));
            v.push(CanonicalValue::Bool(c.arity == Arity::Many));
            v.push(type_canonical(&c.ty));
        },
        Element::Group(g) => {
            v.push(text_value(g.id.as_str()));
            v.push(text_value(g.label.as_str()));
            v.push(CanonicalValue::Bool(g.cardinality == Cardinality::Many));
            v.push(
                match &g.included_from {
                    Some(b) => list2(
                        text_value(b.id.as_str()),
                        CanonicalValue::Int(b.version as i64),
                    ),
                    None => CanonicalValue::Null,
                },
            );
            let children = elements_canonical(&g.children);
            v.push(CanonicalValue::Array(children));
        },
    }
    assert(canonical::items_model(v@) =~= element_form(schema::element_model(*e))->Array_0);
    CanonicalValue::Array(v)
}

/// A schema: its elements and its resolvers.
pub open spec fn schema_form(s: SchemaModel) -> CanonicalValueModel {
    two_items(CanonicalValueModel::Array(elements_form(s.root)), resolvers_form(s.resolvers))
}

/// Different schemas have different forms; and every schema's form has a
/// canonical text.
pub proof fn forms_are_distinct(a: SchemaModel, b: SchemaModel)
    ensures
        schema_form(a) == schema_form(b) ==> a == b,
        canonical::jcs(schema_form(a)) is Ok,
{
    elements_encode(a.root);
    codec::items_encode(elements_form(a.root));
    resolvers_encode(a.resolvers);
    codec::items_encode(schema_form(a)->Array_0);
    if schema_form(a) == schema_form(b) {
        let x = schema_form(a)->Array_0;
        let y = schema_form(b)->Array_0;
        lists_differ(x, y);
        assert(x[0] == y[0]);
        assert(x[1] == y[1]);
        elements_are_distinct(a.root, b.root);
        resolvers_are_distinct(a.resolvers, b.resolvers);
    }
}

/// The canonical form of a schema.
pub fn schema_canonical(s: &Schema) -> (r: CanonicalValue)
    ensures
        r@ == schema_form(s@),
        canonical::jcs(r@) is Ok,
{
    let root = elements_canonical(&s.root);
    assert(schema::elements_model(s.root@) =~= s@.root);
    let r = list2(CanonicalValue::Array(root), resolvers_canonical(&s.resolvers));
    proof {
        forms_are_distinct(s@, s@);
    }
    r
}

/// The identity of a schema as a revision: the text of its form's hash.
pub open spec fn revision_of(s: SchemaModel) -> Seq<char> {
    canonical::hash_text(canonical::plain_hash(schema_form(s))->Ok_0)
}

/// The identity of a schema as a revision: identical schemas converge on
/// it on every instance.
pub fn revision_id(schema: &Schema) -> (r: RevisionId)
    ensures
        r@ == revision_of(schema@),
{
    let form = schema_canonical(schema);
    let hash = hash_plain(&form).unwrap();
    RevisionId::new(hash.to_string().as_str())
}

} // verus!
