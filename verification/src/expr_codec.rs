//! The canonical form of rules, and their strict reading: exactly the
//! keys that the form has and no others, so that one rule has one form.

use vstd::prelude::*;
use crate::canonical;
use crate::codec;
use crate::decimal;
use crate::logic;
use crate::schema;
use crate::text;
use crate::time;
use crate::canonical::{CanonicalValue, CanonicalValueModel, Members, same_text};
use crate::codec::{
    get_str, joined, keyed_text, only_keys, op, put, put_text, single_key, tagged_value,
};
use crate::decimal::{Decimal, DecimalModel, PrimitiveError};
use crate::ids::{ColumnId, GroupId, OptionId};
use crate::logic::{
    Atom, AtomModel, ColumnRef, ColumnRefModel, Const, ConstModel, Expr, ExprModel, MAX_DEPTH,
    Operand, OperandModel,
};
use crate::schema::Unit;
use crate::text::{digits_text, push_text, text_of};
use crate::time::{Date, Instant, MAX_YEAR};

verus! {

/// An expression that is not in its canonical form, and why.
#[derive(Clone, Debug, PartialEq, Eq)]
pub struct DecodeError(pub String);

fn bad(message: &str) -> (r: DecodeError)
    ensures
        r.0@ == message@,
{
    DecodeError(message.to_owned())
}

fn bad_key(message: &str, key: &str) -> (r: DecodeError)
    ensures
        r.0@ == codec::keyed(message@, key@),
{
    DecodeError(keyed_text(message, key))
}

fn bad_primitive(message: &str, e: PrimitiveError) -> (r: DecodeError)
    ensures
        r.0@ == message@ + decimal::primitive_text(e@),
{
    DecodeError(joined(message, e.to_string().as_str()))
}

/// What is wrong where a text is missing under a key.
pub open spec fn field_fault(k: Seq<char>) -> Seq<char> {
    codec::keyed("missing string field"@, k)
}

fn field(m: &Members, key: &str) -> (r: Result<String, DecodeError>)
    ensures
        match r {
            Ok(s) => codec::text_member(m@, key@) == Some(s@),
            Err(e) => codec::text_member(m@, key@) is None && e.0@ == field_fault(key@),
        },
{
    match get_str(m, key) {
        Ok(s) => Ok(s),
        Err(_) => Err(bad_key("missing string field", key)),
    }
}

fn only(m: &Members, keys: &[&str]) -> (r: Result<(), DecodeError>)
    ensures
        match r {
            Ok(_) => codec::has_only(m@, codec::texts_at(keys@)),
            Err(e) => !codec::has_only(m@, codec::texts_at(keys@)) && e.0@ == codec::extra_fault(
                m@,
                codec::texts_at(keys@),
            ),
        },
        canonical::members_in_order(m@),
{
    match only_keys(m, keys) {
        Ok(_) => Ok(()),
        Err(e) => Err(DecodeError(e.0)),
    }
}

/// An object that has only some keys has only those that are there.
proof fn absent_key_is_not_had(
    m: Seq<(Seq<char>, CanonicalValueModel)>,
    k1: Seq<char>,
    k2: Seq<char>,
)
    requires
        codec::has_only(m, seq![k1, k2]),
        canonical::member(m, k2) is None,
    ensures
        codec::has_only(m, seq![k1]),
{
    codec::has_only_is(m, seq![k1, k2]);
    let one = seq![k1];
    assert(one[0] == k1);
    assert forall|k: Seq<char>| #[trigger] canonical::member(m, k) is Some implies one.contains(k) by {
        assert(seq![k1, k2].contains(k));
    }
    codec::has_only_is(m, one);
}

/// More keys may be allowed than are there.
proof fn further_key_may_be_had(
    m: Seq<(Seq<char>, CanonicalValueModel)>,
    k1: Seq<char>,
    k2: Seq<char>,
)
    requires
        codec::has_only(m, seq![k1]),
    ensures
        codec::has_only(m, seq![k1, k2]),
{
    codec::has_only_is(m, seq![k1]);
    let two = seq![k1, k2];
    assert(two[0] == k1);
    assert forall|k: Seq<char>| #[trigger] canonical::member(m, k) is Some implies two.contains(k) by {
        assert(seq![k1].contains(k));
    }
    codec::has_only_is(m, two);
}

/// The form of a column reference.
pub open spec fn ref_form(c: ColumnRefModel) -> CanonicalValueModel {
    CanonicalValueModel::Object(
        match c.field {
            None => codec::members1("column"@, CanonicalValueModel::String(c.column)),
            Some(f) => codec::members2(
                "column"@,
                CanonicalValueModel::String(c.column),
                "field"@,
                CanonicalValueModel::String(f),
            ),
        },
    )
}

/// The keys of a column reference.
pub open spec fn ref_keys() -> Seq<Seq<char>> {
    seq!["column"@, "field"@]
}

/// The column reference that a value spells.
pub open spec fn ref_of(v: CanonicalValueModel) -> Option<ColumnRefModel> {
    match v {
        CanonicalValueModel::Object(m) => match (codec::text_member(m, "column"@), canonical::member(m, "field"@)) {
            (Some(column), None) if codec::has_only(m, ref_keys()) => Some(
                ColumnRefModel { column, field: None },
            ),
            (Some(column), Some(CanonicalValueModel::String(f))) if codec::has_only(m, ref_keys()) => Some(
                ColumnRefModel { column, field: Some(f) },
            ),
            _ => None,
        },
        _ => None,
    }
}

/// What is wrong with a value that is no column reference's form.
pub open spec fn ref_fault(v: CanonicalValueModel) -> Seq<char> {
    match v {
        CanonicalValueModel::Object(m) => if !codec::has_only(m, ref_keys()) {
            codec::extra_fault(m, ref_keys())
        } else if codec::text_member(m, "column"@) is None {
            field_fault("column"@)
        } else {
            "'field' must be a string"@
        },
        _ => "expected an object"@,
    }
}

proof fn ref_reads_back(c: ColumnRefModel)
    ensures
        ref_of(ref_form(c)) == Some(c),
        canonical::jcs(ref_form(c)) is Ok,
{
    reveal_strlit("column");
    reveal_strlit("field");
    assert("column"@.len() == 6);
    assert("field"@.len() == 5);
    match c.field {
        None => {
            codec::members1_are("column"@, CanonicalValueModel::String(c.column));
            further_key_may_be_had(ref_form(c)->Object_0, "column"@, "field"@);
        },
        Some(f) => codec::members2_are(
            "column"@,
            CanonicalValueModel::String(c.column),
            "field"@,
            CanonicalValueModel::String(f),
        ),
    }
}

fn column_ref(c: &ColumnRef) -> (r: CanonicalValue)
    ensures
        r@ == ref_form(c@),
{
    let mut m = Members::new();
    put_text(&mut m, "column", c.column.as_str());
    if let Some(f) = &c.field {
        put_text(&mut m, "field", f.as_str());
    }
    CanonicalValue::Object(m)
}

fn column_ref_from(v: &CanonicalValue) -> (r: Result<ColumnRef, DecodeError>)
    ensures
        match r {
            Ok(c) => ref_of(v@) == Some(c@) && v@ == ref_form(c@),
            Err(e) => ref_of(v@) is None && e.0@ == ref_fault(v@),
        },
{
    let m = match v {
        CanonicalValue::Object(m) => m,
        _ => {
            return Err(bad("expected an object"));
        },
    };
    let keys: [&str; 2] = ["column", "field"];
    assert(codec::texts_at(keys@) =~= ref_keys());
    if let Err(e) = only(m, &keys) {
        return Err(e);
    }
    let column = match field(m, "column") {
        Ok(c) => ColumnId::new(c.as_str()),
        Err(e) => {
            return Err(e);
        },
    };
    proof {
        reveal_strlit("column");
        reveal_strlit("field");
        assert("column"@.len() == 6);
        assert("field"@.len() == 5);
    }
    match m.get("field") {
        None => {
            proof {
                absent_key_is_not_had(m@, "column"@, "field"@);
                codec::only_member1(m@, "column"@);
            }
            Ok(ColumnRef { column, field: None })
        },
        Some(CanonicalValue::String(f)) => {
            proof {
                codec::only_members2(m@, "column"@, "field"@);
            }
            Ok(ColumnRef { column, field: Some(f.clone()) })
        },
        Some(_) => Err(bad("'field' must be a string")),
    }
}

/// The unit with a name.
pub open spec fn unit_named(name: Seq<char>) -> Option<Unit> {
    if exists|u: Unit| #[trigger] u.spec_name() == name {
        Some(choose|u: Unit| #[trigger] u.spec_name() == name)
    } else {
        None
    }
}

proof fn unit_has_its_name(u: Unit)
    ensures
        unit_named(u.spec_name()) == Some(u),
{
    let w = choose|w: Unit| #[trigger] w.spec_name() == u.spec_name();
    schema::unit_names_are_distinct(u, w);
}

/// The members of a number constant.
pub open spec fn number_members(d: DecimalModel, unit: Option<Unit>) -> Seq<
    (Seq<char>, CanonicalValueModel),
> {
    match unit {
        None => codec::members1("value"@, CanonicalValueModel::String(decimal::rendered(d))),
        Some(u) => codec::members2(
            "value"@,
            CanonicalValueModel::String(decimal::rendered(d)),
            "unit"@,
            CanonicalValueModel::String(u.spec_name()),
        ),
    }
}

/// The number in normal form under a key.
pub open spec fn decimal_member(m: Seq<(Seq<char>, CanonicalValueModel)>, k: Seq<char>) -> Option<
    DecimalModel,
> {
    match codec::text_member(m, k) {
        Some(t) => match decimal::parsed(t) {
            Ok(d) if decimal::rendered(d) == t => Some(d),
            _ => None,
        },
        None => None,
    }
}

/// The keys of a number constant.
pub open spec fn number_keys() -> Seq<Seq<char>> {
    seq!["value"@, "unit"@]
}

/// The number constant that a value spells.
pub open spec fn number_of(v: CanonicalValueModel) -> Option<ConstModel> {
    match v {
        CanonicalValueModel::Object(m) => match (decimal_member(m, "value"@), canonical::member(m, "unit"@)) {
            (Some(value), None) if codec::has_only(m, number_keys()) => Some(
                ConstModel::Number { value, unit: None },
            ),
            (Some(value), Some(CanonicalValueModel::String(name))) if codec::has_only(
                m,
                number_keys(),
            ) => match unit_named(name) {
                Some(u) => Some(ConstModel::Number { value, unit: Some(u) }),
                None => None,
            },
            _ => None,
        },
        _ => None,
    }
}

/// What is wrong with a text that is no number in normal form.
pub open spec fn decimal_fault(t: Seq<char>) -> Seq<char> {
    match decimal::parsed(t) {
        Ok(_) => "number must be in normalized form"@,
        Err(e) => "bad number: "@ + decimal::primitive_text(e),
    }
}

/// What is wrong with a value that is no number constant's form.
pub open spec fn number_fault(v: CanonicalValueModel) -> Seq<char> {
    match v {
        CanonicalValueModel::Object(m) => if !codec::has_only(m, number_keys()) {
            codec::extra_fault(m, number_keys())
        } else if codec::text_member(m, "value"@) is None {
            field_fault("value"@)
        } else if decimal_member(m, "value"@) is None {
            decimal_fault(codec::text_member(m, "value"@)->0)
        } else {
            match canonical::member(m, "unit"@) {
                Some(CanonicalValueModel::String(name)) => codec::keyed("unknown unit"@, name),
                _ => "'unit' must be a string"@,
            }
        },
        _ => "expected an object"@,
    }
}

/// The form of a constant: one member that names its kind.
pub open spec fn const_form(c: ConstModel) -> CanonicalValueModel {
    match c {
        ConstModel::Boolean(b) => codec::tagged("boolean"@, CanonicalValueModel::Bool(b)),
        ConstModel::Number { value, unit } => codec::tagged(
            "number"@,
            CanonicalValueModel::Object(number_members(value, unit)),
        ),
        ConstModel::Date(d) => codec::tagged("date"@, CanonicalValueModel::String(d.text())),
        ConstModel::Datetime(t) => codec::tagged(
            "datetime"@,
            CanonicalValueModel::String(time::timestamp_text(t)),
        ),
        ConstModel::Option(o) => codec::tagged("option"@, CanonicalValueModel::String(o)),
        ConstModel::Text(t) => codec::tagged("text"@, CanonicalValueModel::String(t)),
    }
}

/// The constant that a text of a kind spells.
pub open spec fn const_of_text(kind: Seq<char>, t: Seq<char>) -> Option<ConstModel> {
    if kind == "date"@ {
        match time::parsed_date(t) {
            Ok(d) => Some(ConstModel::Date(d)),
            Err(_) => None,
        }
    } else if kind == "datetime"@ {
        match time::instant_of(t) {
            Some(n) if time::timestamp_text(n) == t => Some(ConstModel::Datetime(n)),
            _ => None,
        }
    } else if kind == "option"@ {
        Some(ConstModel::Option(t))
    } else if kind == "text"@ {
        Some(ConstModel::Text(t))
    } else {
        None
    }
}

/// The constant that a value spells.
pub open spec fn const_of(v: CanonicalValueModel) -> Option<ConstModel> {
    match codec::tag_of(v) {
        Some((kind, inner)) => match inner {
            CanonicalValueModel::String(t) => const_of_text(kind, t),
            CanonicalValueModel::Bool(b) => if kind == "boolean"@ {
                Some(ConstModel::Boolean(b))
            } else {
                None
            },
            _ => if kind == "number"@ {
                number_of(inner)
            } else {
                None
            },
        },
        None => None,
    }
}

/// Whether the constants of a kind are spelled as texts.
pub open spec fn const_is_spelled(kind: Seq<char>) -> bool {
    kind == "date"@ || kind == "datetime"@ || kind == "option"@ || kind == "text"@
}

/// What is wrong with a text that is no constant of its kind.
pub open spec fn const_text_fault(kind: Seq<char>, t: Seq<char>) -> Seq<char> {
    if kind == "date"@ {
        "bad date: "@ + decimal::primitive_text(time::parsed_date(t)->Err_0)
    } else if time::instant_of(t) is Some {
        "datetime must be in normalized form"@
    } else {
        "bad datetime: "@ + codec::instant_fault()
    }
}

/// What is wrong with a value that is no constant's form.
pub open spec fn const_fault(v: CanonicalValueModel) -> Seq<char> {
    match codec::tag_of(v) {
        Some((kind, inner)) => if kind == "boolean"@ {
            "'boolean' must be a bool"@
        } else if kind == "number"@ {
            number_fault(inner)
        } else if const_is_spelled(kind) {
            match inner {
                CanonicalValueModel::String(t) => const_text_fault(kind, t),
                _ => "expected a string"@,
            }
        } else {
            codec::keyed("unknown constant kind"@, kind)
        },
        None => codec::tag_fault(v, "constant"@),
    }
}

/// What the types of a constant's parts promise.
pub open spec fn const_is_valid(c: ConstModel) -> bool {
    match c {
        ConstModel::Number { value, .. } => value.normal() && value.in_range(),
        ConstModel::Date(d) => d.valid() && d.year <= MAX_YEAR,
        ConstModel::Datetime(t) => time::instant_of(time::timestamp_text(t)) == Some(t),
        _ => true,
    }
}

/// Whether the constant's form spells it: all do, but the one number
/// whose digits do not parse.
pub open spec fn const_is_readable(c: ConstModel) -> bool {
    c matches ConstModel::Number { value, .. } ==> value.mantissa != i128::MIN
}

proof fn const_kinds()
    ensures
        "date"@ != "datetime"@,
        "date"@ != "option"@,
        "date"@ != "text"@,
        "datetime"@ != "option"@,
        "datetime"@ != "text"@,
        "option"@ != "text"@,
        "value"@ != "unit"@,
        "boolean"@ != "number"@,
        !const_is_spelled("boolean"@),
        !const_is_spelled("number"@),
{
    reveal_strlit("date");
    reveal_strlit("datetime");
    reveal_strlit("option");
    reveal_strlit("text");
    reveal_strlit("value");
    reveal_strlit("unit");
    reveal_strlit("boolean");
    reveal_strlit("number");
    assert("date"@.len() == 4);
    assert("datetime"@.len() == 8);
    assert("option"@.len() == 6);
    assert("text"@.len() == 4);
    assert("value"@.len() == 5);
    assert("unit"@.len() == 4);
    assert("boolean"@.len() == 7);
    assert("number"@.len() == 6);
    assert("date"@[0] == 'd');
    assert("option"@[0] == 'o');
    assert("text"@[0] == 't');
    assert("unit"@[0] == 'u');
    assert("number"@[0] == 'n');
}

proof fn const_reads_back(c: ConstModel)
    requires
        const_is_valid(c),
    ensures
        const_is_readable(c) ==> const_of(const_form(c)) == Some(c),
        canonical::jcs(const_form(c)) is Ok,
{
    const_kinds();
    let (kind, inner) = codec::tag_of(const_form(c))->0;
    codec::tagged_reads_back(kind, inner, inner);
    match c {
        ConstModel::Number { value, unit } => {
            if value.mantissa != i128::MIN {
                decimal::parse_of_rendered(value);
            }
            match unit {
                None => {
                    codec::members1_are("value"@, CanonicalValueModel::String(decimal::rendered(value)));
                    further_key_may_be_had(number_members(value, unit), "value"@, "unit"@);
                },
                Some(u) => {
                    unit_has_its_name(u);
                    codec::members2_are(
                        "value"@,
                        CanonicalValueModel::String(decimal::rendered(value)),
                        "unit"@,
                        CanonicalValueModel::String(u.spec_name()),
                    );
                },
            }
        },
        ConstModel::Date(d) => {
            time::date_text_reads_back(d);
        },
        _ => {},
    }
}

fn const_to_canonical(c: &Const) -> (r: CanonicalValue)
    ensures
        r@ == const_form(c@),
        const_is_valid(c@),
{
    match c {
        Const::Boolean(b) => tagged_value("boolean", CanonicalValue::Bool(*b)),
        Const::Number { value, unit } => {
            value.facts();
            let mut m = Members::new();
            put_text(&mut m, "value", value.to_string().as_str());
            if let Some(u) = unit {
                put_text(&mut m, "unit", u.name());
            }
            tagged_value("number", CanonicalValue::Object(m))
        },
        Const::Date(d) => {
            d.facts();
            tagged_value("date", CanonicalValue::String(d.to_string()))
        },
        Const::Datetime(t) => tagged_value("datetime", CanonicalValue::String(t.to_string())),
        Const::Option(o) => tagged_value("option", CanonicalValue::String(o.to_string())),
        Const::Text(t) => tagged_value("text", CanonicalValue::String(t.clone())),
    }
}

fn number_from(v: &CanonicalValue) -> (r: Result<Const, DecodeError>)
    ensures
        match r {
            Ok(c) => number_of(v@) == Some(c@) && codec::tagged("number"@, v@) == const_form(c@),
            Err(e) => number_of(v@) is None && e.0@ == number_fault(v@),
        },
{
    let m = match v {
        CanonicalValue::Object(m) => m,
        _ => {
            return Err(bad("expected an object"));
        },
    };
    let keys: [&str; 2] = ["value", "unit"];
    assert(codec::texts_at(keys@) =~= number_keys());
    if let Err(e) = only(m, &keys) {
        return Err(e);
    }
    let text = match field(m, "value") {
        Ok(t) => t,
        Err(e) => {
            return Err(e);
        },
    };
    let value = match Decimal::parse(text.as_str()) {
        Ok(d) => d,
        Err(e) => {
            return Err(bad_primitive("bad number: ", e));
        },
    };
    if !same_text(value.to_string().as_str(), text.as_str()) {
        return Err(bad("number must be in normalized form"));
    }
    proof {
        const_kinds();
    }
    match m.get("unit") {
        None => {
            proof {
                absent_key_is_not_had(m@, "value"@, "unit"@);
                codec::only_member1(m@, "value"@);
            }
            Ok(Const::Number { value, unit: None })
        },
        Some(CanonicalValue::String(name)) => {
            proof {
                codec::only_members2(m@, "value"@, "unit"@);
            }
            match Unit::parse(name.as_str()) {
                Some(u) => {
                    proof {
                        unit_has_its_name(u);
                    }
                    Ok(Const::Number { value, unit: Some(u) })
                },
                None => Err(bad_key("unknown unit", name.as_str())),
            }
        },
        Some(_) => Err(bad("'unit' must be a string")),
    }
}

proof fn const_of_text_is_form(kind: Seq<char>, t: Seq<char>)
    ensures
        const_of_text(kind, t) matches Some(c) ==> const_form(c) == codec::tagged(
            kind,
            CanonicalValueModel::String(t),
        ),
{
    const_kinds();
    if kind == "date"@ && time::parsed_date(t) is Ok {
        time::parsed_date_is_its_text(t);
    }
}

fn const_from_text(kind: &str, t: &String) -> (r: Result<Const, DecodeError>)
    requires
        const_is_spelled(kind@),
    ensures
        match r {
            Ok(c) => const_of_text(kind@, t@) == Some(c@),
            Err(e) => const_of_text(kind@, t@) is None && e.0@ == const_text_fault(kind@, t@),
        },
{
    proof {
        const_kinds();
    }
    if same_text(kind, "date") {
        match Date::parse(t.as_str()) {
            Ok(d) => Ok(Const::Date(d)),
            Err(e) => Err(bad_primitive("bad date: ", e)),
        }
    } else if same_text(kind, "datetime") {
        match Instant::parse(t.as_str()) {
            Ok(i) => {
                if same_text(i.to_string().as_str(), t.as_str()) {
                    Ok(Const::Datetime(i))
                } else {
                    Err(bad("datetime must be in normalized form"))
                }
            },
            Err(e) => Err(bad_primitive("bad datetime: ", e)),
        }
    } else if same_text(kind, "option") {
        Ok(Const::Option(OptionId::new(t.as_str())))
    } else {
        Ok(Const::Text(t.clone()))
    }
}

fn const_from(v: &CanonicalValue) -> (r: Result<Const, DecodeError>)
    ensures
        match r {
            Ok(c) => const_of(v@) == Some(c@) && v@ == const_form(c@),
            Err(e) => const_of(v@) is None && e.0@ == const_fault(v@),
        },
{
    let (kind, inner) = match single_key(v, "constant") {
        Ok(p) => p,
        Err(e) => {
            return Err(DecodeError(e.0));
        },
    };
    proof {
        const_kinds();
        codec::tagged_reads_back(kind@, inner@, v@);
    }
    if same_text(kind, "boolean") {
        match inner {
            CanonicalValue::Bool(b) => Ok(Const::Boolean(*b)),
            _ => Err(bad("'boolean' must be a bool")),
        }
    } else if same_text(kind, "number") {
        number_from(inner)
    } else if same_text(kind, "date") || same_text(kind, "datetime") || same_text(kind, "option")
        || same_text(kind, "text") {
        match inner {
            CanonicalValue::String(t) => {
                proof {
                    const_of_text_is_form(kind@, t@);
                }
                const_from_text(kind, t)
            },
            _ => Err(bad("expected a string")),
        }
    } else {
        Err(bad_key("unknown constant kind", kind))
    }
}

/// The form of the right side of a comparison.
pub open spec fn operand_form(o: OperandModel) -> CanonicalValueModel {
    match o {
        OperandModel::Const(c) => codec::tagged("const"@, const_form(c)),
        OperandModel::Column(c) => codec::tagged("column_ref"@, ref_form(c)),
    }
}

/// The right side of a comparison that a value spells.
pub open spec fn operand_of(v: CanonicalValueModel) -> Option<OperandModel> {
    match codec::tag_of(v) {
        Some((kind, inner)) => if kind == "const"@ {
            match const_of(inner) {
                Some(c) => Some(OperandModel::Const(c)),
                None => None,
            }
        } else if kind == "column_ref"@ {
            match ref_of(inner) {
                Some(c) => Some(OperandModel::Column(c)),
                None => None,
            }
        } else {
            None
        },
        None => None,
    }
}

/// What is wrong with a value that is no operand's form.
pub open spec fn operand_fault(v: CanonicalValueModel) -> Seq<char> {
    match codec::tag_of(v) {
        Some((kind, inner)) => if kind == "const"@ {
            const_fault(inner)
        } else if kind == "column_ref"@ {
            ref_fault(inner)
        } else {
            "operand must be 'const' or 'column_ref'"@
        },
        None => codec::tag_fault(v, "operand"@),
    }
}

/// What the types of an operand's parts promise.
pub open spec fn operand_is_valid(o: OperandModel) -> bool {
    o matches OperandModel::Const(c) ==> const_is_valid(c)
}

/// Whether the operand's form spells it.
pub open spec fn operand_is_readable(o: OperandModel) -> bool {
    o matches OperandModel::Const(c) ==> const_is_readable(c)
}

proof fn operand_reads_back(o: OperandModel)
    requires
        operand_is_valid(o),
    ensures
        operand_is_readable(o) ==> operand_of(operand_form(o)) == Some(o),
        canonical::jcs(operand_form(o)) is Ok,
{
    reveal_strlit("const");
    reveal_strlit("column_ref");
    assert("const"@.len() == 5);
    assert("column_ref"@.len() == 10);
    let (kind, inner) = codec::tag_of(operand_form(o))->0;
    codec::tagged_reads_back(kind, inner, inner);
    match o {
        OperandModel::Const(c) => const_reads_back(c),
        OperandModel::Column(c) => ref_reads_back(c),
    }
}

fn operand(o: &Operand) -> (r: CanonicalValue)
    ensures
        r@ == operand_form(o@),
        operand_is_valid(o@),
{
    match o {
        Operand::Const(c) => tagged_value("const", const_to_canonical(c)),
        Operand::Column(c) => tagged_value("column_ref", column_ref(c)),
    }
}

fn operand_from(v: &CanonicalValue) -> (r: Result<Operand, DecodeError>)
    ensures
        match r {
            Ok(o) => operand_of(v@) == Some(o@) && v@ == operand_form(o@),
            Err(e) => operand_of(v@) is None && e.0@ == operand_fault(v@),
        },
{
    let (kind, inner) = match single_key(v, "operand") {
        Ok(p) => p,
        Err(e) => {
            return Err(DecodeError(e.0));
        },
    };
    proof {
        reveal_strlit("const");
        reveal_strlit("column_ref");
        assert("const"@.len() == 5);
        assert("column_ref"@.len() == 10);
        codec::tagged_reads_back(kind@, inner@, v@);
    }
    if same_text(kind, "const") {
        match const_from(inner) {
            Ok(c) => Ok(Operand::Const(c)),
            Err(e) => Err(e),
        }
    } else if same_text(kind, "column_ref") {
        match column_ref_from(inner) {
            Ok(c) => Ok(Operand::Column(c)),
            Err(e) => Err(e),
        }
    } else {
        Err(bad("operand must be 'const' or 'column_ref'"))
    }
}

/// How an atom is named.
pub open spec fn op_name(a: AtomModel) -> Seq<char> {
    match a {
        AtomModel::Eq { .. } => "eq"@,
        AtomModel::NotEq { .. } => "not_eq"@,
        AtomModel::Lt { .. } => "lt"@,
        AtomModel::Le { .. } => "le"@,
        AtomModel::Gt { .. } => "gt"@,
        AtomModel::Ge { .. } => "ge"@,
        AtomModel::IsEmpty { .. } => "is_empty"@,
        AtomModel::IsFilled { .. } => "is_filled"@,
        AtomModel::Contains { .. } => "contains"@,
        AtomModel::Excludes { .. } => "excludes"@,
        AtomModel::Pending { .. } => "pending"@,
        AtomModel::NotPending { .. } => "not_pending"@,
    }
}

/// The members of an atom's form.
pub open spec fn atom_members(a: AtomModel) -> Seq<(Seq<char>, CanonicalValueModel)> {
    let name = CanonicalValueModel::String(op_name(a));
    match (a.source(), a.right(), a) {
        (Some(source), Some(right), _) => codec::members3(
            "op"@,
            name,
            "source"@,
            ref_form(source),
            "right"@,
            operand_form(right),
        ),
        (_, _, AtomModel::IsEmpty { source }) => codec::members2(
            "op"@,
            name,
            "source"@,
            ref_form(source),
        ),
        (_, _, AtomModel::IsFilled { source }) => codec::members2(
            "op"@,
            name,
            "source"@,
            ref_form(source),
        ),
        (_, _, AtomModel::Contains { source, option }) => codec::members3(
            "op"@,
            name,
            "source"@,
            ref_form(source),
            "option"@,
            CanonicalValueModel::String(option),
        ),
        (_, _, AtomModel::Excludes { source, option }) => codec::members3(
            "op"@,
            name,
            "source"@,
            ref_form(source),
            "option"@,
            CanonicalValueModel::String(option),
        ),
        (_, _, AtomModel::Pending { group }) => codec::members2(
            "op"@,
            name,
            "group"@,
            CanonicalValueModel::String(group),
        ),
        (_, _, AtomModel::NotPending { group }) => codec::members2(
            "op"@,
            name,
            "group"@,
            CanonicalValueModel::String(group),
        ),
        _ => codec::no_members(),
    }
}

/// The comparison with a name.
pub open spec fn comparison_named(
    name: Seq<char>,
    source: ColumnRefModel,
    right: OperandModel,
) -> Option<AtomModel> {
    if name == "eq"@ {
        Some(AtomModel::Eq { source, right })
    } else if name == "not_eq"@ {
        Some(AtomModel::NotEq { source, right })
    } else if name == "lt"@ {
        Some(AtomModel::Lt { source, right })
    } else if name == "le"@ {
        Some(AtomModel::Le { source, right })
    } else if name == "gt"@ {
        Some(AtomModel::Gt { source, right })
    } else if name == "ge"@ {
        Some(AtomModel::Ge { source, right })
    } else {
        None
    }
}

/// Whether a name is that of a comparison.
pub open spec fn is_comparison(name: Seq<char>) -> bool {
    name == "eq"@ || name == "not_eq"@ || name == "lt"@ || name == "le"@ || name == "gt"@ || name == "ge"@
}

/// The column reference under `source`.
pub open spec fn source_member(m: Seq<(Seq<char>, CanonicalValueModel)>) -> Option<
    ColumnRefModel,
> {
    match canonical::member(m, "source"@) {
        Some(v) => ref_of(v),
        None => None,
    }
}

/// The right side under `right`.
pub open spec fn right_member(m: Seq<(Seq<char>, CanonicalValueModel)>) -> Option<OperandModel> {
    match canonical::member(m, "right"@) {
        Some(v) => operand_of(v),
        None => None,
    }
}

/// What is wrong with the column reference under `source`.
pub open spec fn source_fault(m: Seq<(Seq<char>, CanonicalValueModel)>) -> Seq<char> {
    match canonical::member(m, "source"@) {
        Some(v) => ref_fault(v),
        None => "missing 'source'"@,
    }
}

/// What is wrong with the right side under `right`.
pub open spec fn right_fault(m: Seq<(Seq<char>, CanonicalValueModel)>) -> Seq<char> {
    match canonical::member(m, "right"@) {
        Some(v) => operand_fault(v),
        None => "missing 'right'"@,
    }
}

/// The keys of an atom of one name.
#[verifier::opaque]
pub open spec fn atom_keys_of(name: Seq<char>) -> Seq<Seq<char>> {
    if is_comparison(name) {
        seq!["op"@, "source"@, "right"@]
    } else if name == "is_empty"@ || name == "is_filled"@ {
        seq!["op"@, "source"@]
    } else if name == "contains"@ || name == "excludes"@ {
        seq!["op"@, "source"@, "option"@]
    } else {
        seq!["op"@, "group"@]
    }
}

/// Whether a name is that of an atom.
pub open spec fn is_atom(name: Seq<char>) -> bool {
    is_comparison(name) || name == "is_empty"@ || name == "is_filled"@ || name == "contains"@
        || name == "excludes"@ || name == "pending"@ || name == "not_pending"@
}

/// What is wrong with members that spell no atom.
pub open spec fn atom_fault(m: Seq<(Seq<char>, CanonicalValueModel)>) -> Seq<char> {
    match codec::text_member(m, "op"@) {
        Some(name) => if !is_atom(name) {
            codec::keyed("unknown op"@, name)
        } else if !codec::has_only(m, atom_keys_of(name)) {
            codec::extra_fault(m, atom_keys_of(name))
        } else if name == "pending"@ || name == "not_pending"@ {
            field_fault("group"@)
        } else if source_member(m) is None {
            source_fault(m)
        } else if is_comparison(name) {
            right_fault(m)
        } else {
            field_fault("option"@)
        },
        None => field_fault("op"@),
    }
}

/// The atom that an object's members spell.
pub open spec fn atom_of(m: Seq<(Seq<char>, CanonicalValueModel)>) -> Option<AtomModel> {
    match codec::text_member(m, "op"@) {
        Some(name) => if is_comparison(name) {
            match (source_member(m), right_member(m)) {
                (Some(source), Some(right)) => if codec::has_only(m, atom_keys_of(name)) {
                    comparison_named(name, source, right)
                } else {
                    None
                },
                _ => None,
            }
        } else if name == "is_empty"@ || name == "is_filled"@ {
            match source_member(m) {
                Some(source) => if codec::has_only(m, atom_keys_of(name)) {
                    Some(
                        if name == "is_empty"@ {
                            AtomModel::IsEmpty { source }
                        } else {
                            AtomModel::IsFilled { source }
                        },
                    )
                } else {
                    None
                },
                None => None,
            }
        } else if name == "contains"@ || name == "excludes"@ {
            match (source_member(m), codec::text_member(m, "option"@)) {
                (Some(source), Some(option)) => if codec::has_only(m, atom_keys_of(name)) {
                    Some(
                        if name == "contains"@ {
                            AtomModel::Contains { source, option }
                        } else {
                            AtomModel::Excludes { source, option }
                        },
                    )
                } else {
                    None
                },
                _ => None,
            }
        } else if name == "pending"@ || name == "not_pending"@ {
            match codec::text_member(m, "group"@) {
                Some(group) => if codec::has_only(m, atom_keys_of(name)) {
                    Some(
                        if name == "pending"@ {
                            AtomModel::Pending { group }
                        } else {
                            AtomModel::NotPending { group }
                        },
                    )
                } else {
                    None
                },
                None => None,
            }
        } else {
            None
        },
        None => None,
    }
}

/// What the types of an atom's parts promise.
pub open spec fn atom_is_valid(a: AtomModel) -> bool {
    a.right() matches Some(o) ==> operand_is_valid(o)
}

/// Whether the atom's form spells it.
pub open spec fn atom_is_readable(a: AtomModel) -> bool {
    a.right() matches Some(o) ==> operand_is_readable(o)
}

proof fn atom_names()
    ensures
        "eq"@ != "not_eq"@,
        "eq"@ != "lt"@,
        "eq"@ != "le"@,
        "eq"@ != "gt"@,
        "eq"@ != "ge"@,
        "eq"@ != "is_empty"@,
        "eq"@ != "is_filled"@,
        "eq"@ != "contains"@,
        "eq"@ != "excludes"@,
        "eq"@ != "pending"@,
        "eq"@ != "not_pending"@,
        "not_eq"@ != "lt"@,
        "not_eq"@ != "le"@,
        "not_eq"@ != "gt"@,
        "not_eq"@ != "ge"@,
        "not_eq"@ != "is_empty"@,
        "not_eq"@ != "is_filled"@,
        "not_eq"@ != "contains"@,
        "not_eq"@ != "excludes"@,
        "not_eq"@ != "pending"@,
        "not_eq"@ != "not_pending"@,
        "lt"@ != "le"@,
        "lt"@ != "gt"@,
        "lt"@ != "ge"@,
        "lt"@ != "is_empty"@,
        "lt"@ != "is_filled"@,
        "lt"@ != "contains"@,
        "lt"@ != "excludes"@,
        "lt"@ != "pending"@,
        "lt"@ != "not_pending"@,
        "le"@ != "gt"@,
        "le"@ != "ge"@,
        "le"@ != "is_empty"@,
        "le"@ != "is_filled"@,
        "le"@ != "contains"@,
        "le"@ != "excludes"@,
        "le"@ != "pending"@,
        "le"@ != "not_pending"@,
        "gt"@ != "ge"@,
        "gt"@ != "is_empty"@,
        "gt"@ != "is_filled"@,
        "gt"@ != "contains"@,
        "gt"@ != "excludes"@,
        "gt"@ != "pending"@,
        "gt"@ != "not_pending"@,
        "ge"@ != "is_empty"@,
        "ge"@ != "is_filled"@,
        "ge"@ != "contains"@,
        "ge"@ != "excludes"@,
        "ge"@ != "pending"@,
        "ge"@ != "not_pending"@,
        "is_empty"@ != "is_filled"@,
        "is_empty"@ != "contains"@,
        "is_empty"@ != "excludes"@,
        "is_empty"@ != "pending"@,
        "is_empty"@ != "not_pending"@,
        "is_filled"@ != "contains"@,
        "is_filled"@ != "excludes"@,
        "is_filled"@ != "pending"@,
        "is_filled"@ != "not_pending"@,
        "contains"@ != "excludes"@,
        "contains"@ != "pending"@,
        "contains"@ != "not_pending"@,
        "excludes"@ != "pending"@,
        "excludes"@ != "not_pending"@,
        "pending"@ != "not_pending"@,
{
    reveal_strlit("eq");
    reveal_strlit("not_eq");
    reveal_strlit("lt");
    reveal_strlit("le");
    reveal_strlit("gt");
    reveal_strlit("ge");
    reveal_strlit("is_empty");
    reveal_strlit("is_filled");
    reveal_strlit("contains");
    reveal_strlit("excludes");
    reveal_strlit("pending");
    reveal_strlit("not_pending");
    assert("eq"@.len() == 2);
    assert("not_eq"@.len() == 6);
    assert("lt"@.len() == 2);
    assert("le"@.len() == 2);
    assert("gt"@.len() == 2);
    assert("ge"@.len() == 2);
    assert("is_empty"@.len() == 8);
    assert("is_filled"@.len() == 9);
    assert("contains"@.len() == 8);
    assert("excludes"@.len() == 8);
    assert("pending"@.len() == 7);
    assert("not_pending"@.len() == 11);
    assert("eq"@[0] == 'e');
    assert("lt"@[0] == 'l');
    assert("lt"@[1] == 't');
    assert("le"@[0] == 'l');
    assert("le"@[1] == 'e');
    assert("gt"@[0] == 'g');
    assert("gt"@[1] == 't');
    assert("ge"@[0] == 'g');
    assert("ge"@[1] == 'e');
    assert("is_empty"@[0] == 'i');
    assert("contains"@[0] == 'c');
    assert("excludes"@[0] == 'e');
}

proof fn atom_keys()
    ensures
        "op"@ != "source"@,
        "op"@ != "right"@,
        "op"@ != "option"@,
        "op"@ != "group"@,
        "op"@ != "and"@,
        "op"@ != "or"@,
        "source"@ != "right"@,
        "source"@ != "option"@,
        "source"@ != "group"@,
        "source"@ != "and"@,
        "source"@ != "or"@,
        "right"@ != "option"@,
        "right"@ != "group"@,
        "right"@ != "and"@,
        "right"@ != "or"@,
        "option"@ != "group"@,
        "option"@ != "and"@,
        "option"@ != "or"@,
        "group"@ != "and"@,
        "group"@ != "or"@,
        "and"@ != "or"@,
{
    reveal_strlit("op");
    reveal_strlit("source");
    reveal_strlit("right");
    reveal_strlit("option");
    reveal_strlit("group");
    reveal_strlit("and");
    reveal_strlit("or");
    assert("op"@.len() == 2);
    assert("source"@.len() == 6);
    assert("right"@.len() == 5);
    assert("option"@.len() == 6);
    assert("group"@.len() == 5);
    assert("and"@.len() == 3);
    assert("or"@.len() == 2);
    assert("op"@[1] == 'p');
    assert("source"@[0] == 's');
    assert("right"@[0] == 'r');
    assert("option"@[0] == 'o');
    assert("group"@[0] == 'g');
    assert("or"@[1] == 'r');
}

proof fn comparison_is_read(
    m: Seq<(Seq<char>, CanonicalValueModel)>,
    a: AtomModel,
    source: ColumnRefModel,
    right: OperandModel,
)
    requires
        a.source() == Some(source),
        a.right() == Some(right),
        codec::has_only(m, atom_keys_of(op_name(a))),
        codec::text_member(m, "op"@) == Some(op_name(a)),
        source_member(m) == Some(source),
        right_member(m) == Some(right),
    ensures
        atom_of(m) == Some(a),
{
    atom_names();
}

proof fn membership_is_read(
    m: Seq<(Seq<char>, CanonicalValueModel)>,
    a: AtomModel,
    source: ColumnRefModel,
    option: Seq<char>,
)
    requires
        a == (AtomModel::Contains { source, option }) || a == (AtomModel::Excludes {
            source,
            option,
        }),
        codec::has_only(m, atom_keys_of(op_name(a))),
        codec::text_member(m, "op"@) == Some(op_name(a)),
        source_member(m) == Some(source),
        codec::text_member(m, "option"@) == Some(option),
    ensures
        atom_of(m) == Some(a),
{
    atom_names();
}

proof fn comparison_keys(a: AtomModel)
    requires
        a.right() is Some,
    ensures
        atom_keys_of(op_name(a)) == seq!["op"@, "source"@, "right"@],
{
    reveal(atom_keys_of);
    atom_names();
}

proof fn membership_keys(a: AtomModel)
    requires
        a is Contains || a is Excludes,
    ensures
        atom_keys_of(op_name(a)) == seq!["op"@, "source"@, "option"@],
{
    reveal(atom_keys_of);
    atom_names();
}

proof fn presence_is_read(
    m: Seq<(Seq<char>, CanonicalValueModel)>,
    a: AtomModel,
    source: ColumnRefModel,
)
    requires
        a == (AtomModel::IsEmpty { source }) || a == (AtomModel::IsFilled { source }),
        codec::has_only(m, seq!["op"@, "source"@]),
        codec::text_member(m, "op"@) == Some(op_name(a)),
        source_member(m) == Some(source),
    ensures
        atom_of(m) == Some(a),
{
    reveal(atom_keys_of);
    atom_names();
}

proof fn awaiting_is_read(
    m: Seq<(Seq<char>, CanonicalValueModel)>,
    a: AtomModel,
    group: Seq<char>,
)
    requires
        a == (AtomModel::Pending { group }) || a == (AtomModel::NotPending { group }),
        codec::has_only(m, seq!["op"@, "group"@]),
        codec::text_member(m, "op"@) == Some(op_name(a)),
        codec::text_member(m, "group"@) == Some(group),
    ensures
        atom_of(m) == Some(a),
{
    reveal(atom_keys_of);
    atom_names();
}

/// The members of an atom with one part.
proof fn parts1_are(name: Seq<char>, k: Seq<char>, v: CanonicalValueModel)
    requires
        k == "source"@ || k == "group"@,
        canonical::jcs(v) is Ok,
    ensures
        ({
            let m = codec::members2("op"@, CanonicalValueModel::String(name), k, v);
            &&& codec::has_only(m, seq!["op"@, k])
            &&& codec::text_member(m, "op"@) == Some(name)
            &&& canonical::member(m, k) == Some(v)
            &&& canonical::jcs(CanonicalValueModel::Object(m)) is Ok
            &&& canonical::member(m, "and"@) is None
            &&& canonical::member(m, "or"@) is None
        }),
{
    atom_keys();
    codec::members2_are("op"@, CanonicalValueModel::String(name), k, v);
}

/// The members of an atom with two parts.
proof fn parts2_are(
    name: Seq<char>,
    s: CanonicalValueModel,
    k: Seq<char>,
    v: CanonicalValueModel,
)
    requires
        k == "right"@ || k == "option"@,
        canonical::jcs(s) is Ok,
        canonical::jcs(v) is Ok,
    ensures
        ({
            let m = codec::members3("op"@, CanonicalValueModel::String(name), "source"@, s, k, v);
            &&& codec::has_only(m, seq!["op"@, "source"@, k])
            &&& codec::text_member(m, "op"@) == Some(name)
            &&& canonical::member(m, "source"@) == Some(s)
            &&& canonical::member(m, k) == Some(v)
            &&& canonical::jcs(CanonicalValueModel::Object(m)) is Ok
            &&& canonical::member(m, "and"@) is None
            &&& canonical::member(m, "or"@) is None
        }),
{
    atom_keys();
    codec::members3_are("op"@, CanonicalValueModel::String(name), "source"@, s, k, v);
}

proof fn comparison_reads_back(a: AtomModel, source: ColumnRefModel, right: OperandModel)
    requires
        atom_is_valid(a),
        a.source() == Some(source),
        a.right() == Some(right),
    ensures
        atom_is_readable(a) ==> atom_of(atom_members(a)) == Some(a),
        canonical::jcs(CanonicalValueModel::Object(atom_members(a))) is Ok,
        canonical::member(atom_members(a), "and"@) is None,
        canonical::member(atom_members(a), "or"@) is None,
{
    let m = atom_members(a);
    ref_reads_back(source);
    operand_reads_back(right);
    comparison_keys(a);
    parts2_are(op_name(a), ref_form(source), "right"@, operand_form(right));
    if atom_is_readable(a) {
        comparison_is_read(m, a, source, right);
    }
}

proof fn membership_reads_back(a: AtomModel, source: ColumnRefModel, option: Seq<char>)
    requires
        a == (AtomModel::Contains { source, option }) || a == (AtomModel::Excludes {
            source,
            option,
        }),
    ensures
        atom_of(atom_members(a)) == Some(a),
        canonical::jcs(CanonicalValueModel::Object(atom_members(a))) is Ok,
        canonical::member(atom_members(a), "and"@) is None,
        canonical::member(atom_members(a), "or"@) is None,
{
    ref_reads_back(source);
    membership_keys(a);
    parts2_are(
        op_name(a),
        ref_form(source),
        "option"@,
        CanonicalValueModel::String(option),
    );
    membership_is_read(atom_members(a), a, source, option);
}

proof fn presence_reads_back(a: AtomModel, source: ColumnRefModel)
    requires
        a == (AtomModel::IsEmpty { source }) || a == (AtomModel::IsFilled { source }),
    ensures
        atom_of(atom_members(a)) == Some(a),
        canonical::jcs(CanonicalValueModel::Object(atom_members(a))) is Ok,
        canonical::member(atom_members(a), "and"@) is None,
        canonical::member(atom_members(a), "or"@) is None,
{
    ref_reads_back(source);
    parts1_are(op_name(a), "source"@, ref_form(source));
    presence_is_read(atom_members(a), a, source);
}

proof fn awaiting_reads_back(a: AtomModel, group: Seq<char>)
    requires
        a == (AtomModel::Pending { group }) || a == (AtomModel::NotPending { group }),
    ensures
        atom_of(atom_members(a)) == Some(a),
        canonical::jcs(CanonicalValueModel::Object(atom_members(a))) is Ok,
        canonical::member(atom_members(a), "and"@) is None,
        canonical::member(atom_members(a), "or"@) is None,
{
    parts1_are(op_name(a), "group"@, CanonicalValueModel::String(group));
    awaiting_is_read(atom_members(a), a, group);
}

proof fn atom_reads_back(a: AtomModel)
    requires
        atom_is_valid(a),
    ensures
        atom_is_readable(a) ==> atom_of(atom_members(a)) == Some(a),
        canonical::jcs(CanonicalValueModel::Object(atom_members(a))) is Ok,
        canonical::member(atom_members(a), "and"@) is None,
        canonical::member(atom_members(a), "or"@) is None,
{
    match a {
        AtomModel::Contains { source, option } => membership_reads_back(a, source, option),
        AtomModel::Excludes { source, option } => membership_reads_back(a, source, option),
        AtomModel::IsEmpty { source } => presence_reads_back(a, source),
        AtomModel::IsFilled { source } => presence_reads_back(a, source),
        AtomModel::Pending { group } => awaiting_reads_back(a, group),
        AtomModel::NotPending { group } => awaiting_reads_back(a, group),
        _ => comparison_reads_back(a, a.source()->0, a.right()->0),
    }
}

fn put_source(m: &mut Members, name: &str, source: &ColumnRef)
    requires
        old(m)@ == codec::no_members(),
    ensures
        final(m)@ == codec::members2(
            "op"@,
            CanonicalValueModel::String(name@),
            "source"@,
            ref_form(source@),
        ),
{
    put_text(m, "op", name);
    put(m, "source", column_ref(source));
}

fn comparison(name: &str, source: &ColumnRef, right: &Operand) -> (r: Members)
    ensures
        r@ == codec::members3(
            "op"@,
            CanonicalValueModel::String(name@),
            "source"@,
            ref_form(source@),
            "right"@,
            operand_form(right@),
        ),
        operand_is_valid(right@),
{
    let mut m = Members::new();
    put_source(&mut m, name, source);
    put(&mut m, "right", operand(right));
    m
}

fn membership(name: &str, source: &ColumnRef, option: &OptionId) -> (r: Members)
    ensures
        r@ == codec::members3(
            "op"@,
            CanonicalValueModel::String(name@),
            "source"@,
            ref_form(source@),
            "option"@,
            CanonicalValueModel::String(option@),
        ),
{
    let mut m = Members::new();
    put_source(&mut m, name, source);
    put_text(&mut m, "option", option.as_str());
    m
}

fn presence(name: &str, source: &ColumnRef) -> (r: Members)
    ensures
        r@ == codec::members2(
            "op"@,
            CanonicalValueModel::String(name@),
            "source"@,
            ref_form(source@),
        ),
{
    let mut m = Members::new();
    put_source(&mut m, name, source);
    m
}

fn awaiting(name: &str, group: &GroupId) -> (r: Members)
    ensures
        r@ == codec::members2(
            "op"@,
            CanonicalValueModel::String(name@),
            "group"@,
            CanonicalValueModel::String(group@),
        ),
{
    let mut m = Members::new();
    put_text(&mut m, "op", name);
    put_text(&mut m, "group", group.as_str());
    m
}

fn atom_to_canonical(atom: &Atom) -> (r: Members)
    ensures
        r@ == atom_members(atom@),
        atom_is_valid(atom@),
{
    match atom {
        Atom::Eq { source, right } => comparison("eq", source, right),
        Atom::NotEq { source, right } => comparison("not_eq", source, right),
        Atom::Lt { source, right } => comparison("lt", source, right),
        Atom::Le { source, right } => comparison("le", source, right),
        Atom::Gt { source, right } => comparison("gt", source, right),
        Atom::Ge { source, right } => comparison("ge", source, right),
        Atom::IsEmpty { source } => presence("is_empty", source),
        Atom::IsFilled { source } => presence("is_filled", source),
        Atom::Contains { source, option } => membership("contains", source, option),
        Atom::Excludes { source, option } => membership("excludes", source, option),
        Atom::Pending { group } => awaiting("pending", group),
        Atom::NotPending { group } => awaiting("not_pending", group),
    }
}

fn source_from(m: &Members) -> (r: Result<ColumnRef, DecodeError>)
    ensures
        match r {
            Ok(c) => source_member(m@) == Some(c@) && canonical::member(m@, "source"@) == Some(ref_form(c@)),
            Err(e) => source_member(m@) is None && e.0@ == source_fault(m@),
        },
{
    match m.get("source") {
        Some(v) => column_ref_from(v),
        None => Err(bad("missing 'source'")),
    }
}

fn comparison_from(name: &str, m: &Members) -> (r: Result<Atom, DecodeError>)
    requires
        codec::text_member(m@, "op"@) == Some(name@),
        is_comparison(name@),
    ensures
        match r {
            Ok(a) => atom_of(m@) == Some(a@) && m@ == atom_members(a@),
            Err(e) => atom_of(m@) is None && e.0@ == atom_fault(m@),
        },
{
    proof {
        atom_names();
        atom_keys();
    }
    let keys: [&str; 3] = ["op", "source", "right"];
    proof {
        reveal(atom_keys_of);
        assert(codec::texts_at(keys@) =~= atom_keys_of(name@));
    }
    if let Err(e) = only(m, &keys) {
        return Err(e);
    }
    let source = match source_from(m) {
        Ok(s) => s,
        Err(e) => {
            return Err(e);
        },
    };
    let right = match m.get("right") {
        Some(v) => match operand_from(v) {
            Ok(o) => o,
            Err(e) => {
                return Err(e);
            },
        },
        None => {
            return Err(bad("missing 'right'"));
        },
    };
    proof {
        codec::only_members3(m@, "op"@, "source"@, "right"@);
    }
    Ok(
        if same_text(name, "eq") {
            Atom::Eq { source, right }
        } else if same_text(name, "not_eq") {
            Atom::NotEq { source, right }
        } else if same_text(name, "lt") {
            Atom::Lt { source, right }
        } else if same_text(name, "le") {
            Atom::Le { source, right }
        } else if same_text(name, "gt") {
            Atom::Gt { source, right }
        } else {
            Atom::Ge { source, right }
        },
    )
}

fn presence_from(name: &str, m: &Members) -> (r: Result<Atom, DecodeError>)
    requires
        codec::text_member(m@, "op"@) == Some(name@),
        name@ == "is_empty"@ || name@ == "is_filled"@,
    ensures
        match r {
            Ok(a) => atom_of(m@) == Some(a@) && m@ == atom_members(a@),
            Err(e) => atom_of(m@) is None && e.0@ == atom_fault(m@),
        },
{
    proof {
        atom_names();
        atom_keys();
    }
    let keys: [&str; 2] = ["op", "source"];
    proof {
        reveal(atom_keys_of);
        assert(codec::texts_at(keys@) =~= atom_keys_of(name@));
    }
    if let Err(e) = only(m, &keys) {
        return Err(e);
    }
    let source = match source_from(m) {
        Ok(s) => s,
        Err(e) => {
            return Err(e);
        },
    };
    proof {
        codec::only_members2(m@, "op"@, "source"@);
    }
    Ok(
        if same_text(name, "is_empty") {
            Atom::IsEmpty { source }
        } else {
            Atom::IsFilled { source }
        },
    )
}

fn membership_from(name: &str, m: &Members) -> (r: Result<Atom, DecodeError>)
    requires
        codec::text_member(m@, "op"@) == Some(name@),
        name@ == "contains"@ || name@ == "excludes"@,
    ensures
        match r {
            Ok(a) => atom_of(m@) == Some(a@) && m@ == atom_members(a@),
            Err(e) => atom_of(m@) is None && e.0@ == atom_fault(m@),
        },
{
    proof {
        atom_names();
        atom_keys();
    }
    let keys: [&str; 3] = ["op", "source", "option"];
    proof {
        reveal(atom_keys_of);
        assert(codec::texts_at(keys@) =~= atom_keys_of(name@));
    }
    if let Err(e) = only(m, &keys) {
        return Err(e);
    }
    let source = match source_from(m) {
        Ok(s) => s,
        Err(e) => {
            return Err(e);
        },
    };
    let option = match field(m, "option") {
        Ok(t) => OptionId::new(t.as_str()),
        Err(e) => {
            return Err(e);
        },
    };
    proof {
        codec::only_members3(m@, "op"@, "source"@, "option"@);
    }
    Ok(
        if same_text(name, "contains") {
            Atom::Contains { source, option }
        } else {
            Atom::Excludes { source, option }
        },
    )
}

fn awaiting_from(name: &str, m: &Members) -> (r: Result<Atom, DecodeError>)
    requires
        codec::text_member(m@, "op"@) == Some(name@),
        name@ == "pending"@ || name@ == "not_pending"@,
    ensures
        match r {
            Ok(a) => atom_of(m@) == Some(a@) && m@ == atom_members(a@),
            Err(e) => atom_of(m@) is None && e.0@ == atom_fault(m@),
        },
{
    proof {
        atom_names();
        atom_keys();
    }
    let keys: [&str; 2] = ["op", "group"];
    proof {
        reveal(atom_keys_of);
        assert(codec::texts_at(keys@) =~= atom_keys_of(name@));
    }
    if let Err(e) = only(m, &keys) {
        return Err(e);
    }
    let group = match field(m, "group") {
        Ok(t) => GroupId::new(t.as_str()),
        Err(e) => {
            return Err(e);
        },
    };
    proof {
        codec::only_members2(m@, "op"@, "group"@);
    }
    Ok(
        if same_text(name, "pending") {
            Atom::Pending { group }
        } else {
            Atom::NotPending { group }
        },
    )
}

fn atom_from(m: &Members) -> (r: Result<Atom, DecodeError>)
    ensures
        match r {
            Ok(a) => atom_of(m@) == Some(a@) && m@ == atom_members(a@),
            Err(e) => atom_of(m@) is None && e.0@ == atom_fault(m@),
        },
{
    let name = match field(m, "op") {
        Ok(t) => t,
        Err(e) => {
            return Err(e);
        },
    };
    let n = name.as_str();
    proof {
        atom_names();
    }
    if same_text(n, "eq") || same_text(n, "not_eq") || same_text(n, "lt") || same_text(n, "le") || same_text(n, "gt") || same_text(n, "ge") {
        comparison_from(n, m)
    } else if same_text(n, "is_empty") || same_text(n, "is_filled") {
        presence_from(n, m)
    } else if same_text(n, "contains") || same_text(n, "excludes") {
        membership_from(n, m)
    } else if same_text(n, "pending") || same_text(n, "not_pending") {
        awaiting_from(n, m)
    } else {
        Err(bad_key("unknown op", n))
    }
}

/// The form of an expression.
pub open spec fn expr_form(e: ExprModel) -> CanonicalValueModel
    decreases e,
{
    match e {
        ExprModel::And(s) => codec::tagged("and"@, CanonicalValueModel::Array(exprs_form(s))),
        ExprModel::Or(s) => codec::tagged("or"@, CanonicalValueModel::Array(exprs_form(s))),
        ExprModel::Atom(a) => CanonicalValueModel::Object(atom_members(a)),
    }
}

/// The forms of some expressions.
pub open spec fn exprs_form(s: Seq<ExprModel>) -> Seq<CanonicalValueModel>
    decreases s,
{
    if s.len() == 0 {
        Seq::empty()
    } else {
        exprs_form(s.drop_last()).push(expr_form(s.last()))
    }
}

/// The expression that a value at a depth spells. Below the depth limit
/// nothing does.
pub open spec fn expr_of(v: CanonicalValueModel, depth: nat) -> Option<ExprModel>
    decreases MAX_DEPTH + 1 - depth, 0nat,
{
    if depth > MAX_DEPTH {
        None
    } else {
        match v {
            CanonicalValueModel::Object(m) => match (canonical::member(m, "and"@), canonical::member(m, "or"@)) {
                (None, None) => match atom_of(m) {
                    Some(a) => Some(ExprModel::Atom(a)),
                    None => None,
                },
                (Some(CanonicalValueModel::Array(items)), None) => if codec::has_only(m, seq!["and"@]) {
                    match exprs_of(items, depth + 1) {
                        Some(s) => Some(ExprModel::And(s)),
                        None => None,
                    }
                } else {
                    None
                },
                (None, Some(CanonicalValueModel::Array(items))) => if codec::has_only(m, seq!["or"@]) {
                    match exprs_of(items, depth + 1) {
                        Some(s) => Some(ExprModel::Or(s)),
                        None => None,
                    }
                } else {
                    None
                },
                _ => None,
            },
            _ => None,
        }
    }
}

/// The expressions that some values at a depth spell.
pub open spec fn exprs_of(items: Seq<CanonicalValueModel>, depth: nat) -> Option<Seq<ExprModel>>
    decreases MAX_DEPTH + 1 - depth, items.len() + 1,
{
    if items.len() == 0 {
        Some(Seq::empty())
    } else {
        match (exprs_of(items.drop_last(), depth), expr_of(items.last(), depth)) {
            (Some(s), Some(e)) => Some(s.push(e)),
            _ => None,
        }
    }
}

/// What is wrong with a value that nests too deep.
pub open spec fn depth_fault() -> Seq<char> {
    "expression nests deeper than "@ + text::digits(MAX_DEPTH as nat)
}

/// What is wrong with a value at a depth that is no expression's form.
pub open spec fn expr_fault(v: CanonicalValueModel, depth: nat) -> Seq<char>
    decreases MAX_DEPTH + 1 - depth, 0nat,
{
    if depth > MAX_DEPTH {
        depth_fault()
    } else {
        match v {
            CanonicalValueModel::Object(m) => match (canonical::member(m, "and"@), canonical::member(m, "or"@)) {
                (None, None) => atom_fault(m),
                (Some(operands), None) => if !codec::has_only(m, seq!["and"@]) {
                    codec::extra_fault(m, seq!["and"@])
                } else {
                    match operands {
                        CanonicalValueModel::Array(items) => exprs_fault(items, depth + 1),
                        _ => "combinator operands must be an array"@,
                    }
                },
                (None, Some(operands)) => if !codec::has_only(m, seq!["or"@]) {
                    codec::extra_fault(m, seq!["or"@])
                } else {
                    match operands {
                        CanonicalValueModel::Array(items) => exprs_fault(items, depth + 1),
                        _ => "combinator operands must be an array"@,
                    }
                },
                _ => "an expression is 'and' or 'or', not both"@,
            },
            _ => "expected an object"@,
        }
    }
}

/// What is wrong with the first of some values at a depth that is no
/// expression's form.
pub open spec fn exprs_fault(items: Seq<CanonicalValueModel>, depth: nat) -> Seq<char>
    decreases MAX_DEPTH + 1 - depth, items.len() + 1,
{
    if items.len() == 0 {
        Seq::empty()
    } else if exprs_of(items.drop_last(), depth) is None {
        exprs_fault(items.drop_last(), depth)
    } else {
        expr_fault(items.last(), depth)
    }
}

/// What the types of an expression's parts promise.
pub open spec fn expr_is_valid(e: ExprModel) -> bool
    decreases e,
{
    match e {
        ExprModel::And(s) => exprs_are_valid(s),
        ExprModel::Or(s) => exprs_are_valid(s),
        ExprModel::Atom(a) => atom_is_valid(a),
    }
}

pub open spec fn exprs_are_valid(s: Seq<ExprModel>) -> bool
    decreases s,
{
    s.len() > 0 ==> exprs_are_valid(s.drop_last()) && expr_is_valid(s.last())
}

/// Whether the expression's form spells it, depth apart: all do, but one
/// that holds the one number whose digits do not parse.
pub open spec fn expr_is_readable(e: ExprModel) -> bool
    decreases e,
{
    match e {
        ExprModel::And(s) => exprs_are_readable(s),
        ExprModel::Or(s) => exprs_are_readable(s),
        ExprModel::Atom(a) => atom_is_readable(a),
    }
}

pub open spec fn exprs_are_readable(s: Seq<ExprModel>) -> bool
    decreases s,
{
    s.len() > 0 ==> exprs_are_readable(s.drop_last()) && expr_is_readable(s.last())
}

proof fn expr_at_reads_back(e: ExprModel, depth: nat)
    requires
        expr_is_valid(e),
    ensures
        expr_is_readable(e) && depth + logic::depth_of(e) <= MAX_DEPTH ==> expr_of(expr_form(e), depth)
            == Some(e),
        canonical::jcs(expr_form(e)) is Ok,
    decreases e,
{
    atom_keys();
    match e {
        ExprModel::And(s) => {
            exprs_read_back(s, depth + 1);
            let items = CanonicalValueModel::Array(exprs_form(s));
            codec::items_encode(exprs_form(s));
            codec::members1_are("and"@, items);
            assert(codec::tagged("and"@, items)->Object_0 =~= codec::members1("and"@, items)) by {
                codec::only_member1(codec::members1("and"@, items), "and"@);
            }
        },
        ExprModel::Or(s) => {
            exprs_read_back(s, depth + 1);
            let items = CanonicalValueModel::Array(exprs_form(s));
            codec::items_encode(exprs_form(s));
            codec::members1_are("or"@, items);
            assert(codec::tagged("or"@, items)->Object_0 =~= codec::members1("or"@, items)) by {
                codec::only_member1(codec::members1("or"@, items), "or"@);
            }
        },
        ExprModel::Atom(a) => atom_reads_back(a),
    }
}

proof fn exprs_read_back(s: Seq<ExprModel>, depth: nat)
    requires
        exprs_are_valid(s),
    ensures
        exprs_are_readable(s) && (s.len() > 0 ==> depth + logic::depth_below(s) <= MAX_DEPTH + 1)
            ==> exprs_of(exprs_form(s), depth) == Some(s),
        forall|i: int| 0 <= i < exprs_form(s).len() ==> canonical::jcs(#[trigger] exprs_form(s)[i]) is Ok,
    decreases s,
{
    if s.len() > 0 {
        exprs_read_back(s.drop_last(), depth);
        expr_at_reads_back(s.last(), depth);
        let f = exprs_form(s);
        assert(f.drop_last() =~= exprs_form(s.drop_last()));
        assert(f.last() == expr_form(s.last()));
        assert(s.drop_last().push(s.last()) =~= s);
        assert forall|i: int| 0 <= i < f.len() implies canonical::jcs(#[trigger] f[i]) is Ok by {
            if i < f.len() - 1 {
                assert(f[i] == f.drop_last()[i]);
            }
        }
    }
}

/// A rule within the depth limit reads back from its form, and every
/// rule's form has a canonical text: rules can be hashed.
pub proof fn expr_reads_back(e: ExprModel)
    requires
        expr_is_valid(e),
    ensures
        expr_is_readable(e) && logic::depth_of(e) <= MAX_DEPTH ==> expr_of(expr_form(e), 0) == Some(e),
        canonical::jcs(expr_form(e)) is Ok,
{
    expr_at_reads_back(e, 0);
}

fn exprs_to_canonical(v: &Vec<Expr>) -> (r: Vec<CanonicalValue>)
    ensures
        canonical::items_model(r@) == exprs_form(logic::exprs_model(v@)),
        exprs_are_valid(logic::exprs_model(v@)),
    decreases v,
{
    let ghost m = logic::exprs_model(v@);
    let mut r: Vec<CanonicalValue> = Vec::new();
    let mut i: usize = 0;
    assert(m.take(0) =~= Seq::<ExprModel>::empty());
    assert(canonical::items_model(r@) =~= exprs_form(m.take(0)));
    while i < v.len()
        invariant
            i <= v@.len(),
            m == logic::exprs_model(v@),
            canonical::items_model(r@) == exprs_form(m.take(i as int)),
            exprs_are_valid(m.take(i as int)),
        decreases v@.len() - i,
    {
        let ghost had = canonical::items_model(r@);
        r.push(expr_to_canonical(&v[i]));
        proof {
            assert(m.take(i + 1).drop_last() =~= m.take(i as int));
            assert(m.take(i + 1).last() == v@[i as int]@);
            assert(canonical::items_model(r@) =~= had.push(expr_form(m[i as int])));
        }
        i += 1;
    }
    assert(m.take(m.len() as int) =~= m);
    r
}

fn expr_to_canonical(expr: &Expr) -> (r: CanonicalValue)
    ensures
        r@ == expr_form(expr@),
        expr_is_valid(expr@),
    decreases expr,
{
    match expr {
        Expr::And(v) => {
            let items = exprs_to_canonical(v);
            tagged_value("and", CanonicalValue::Array(items))
        },
        Expr::Or(v) => {
            let items = exprs_to_canonical(v);
            tagged_value("or", CanonicalValue::Array(items))
        },
        Expr::Atom(a) => CanonicalValue::Object(atom_to_canonical(a)),
    }
}

/// The canonical form of an expression: it has a canonical text, and
/// within the depth limit it reads back as the expression.
pub fn to_canonical(expr: &Expr) -> (r: CanonicalValue)
    ensures
        r@ == expr_form(expr@),
        canonical::jcs(r@) is Ok,
        expr_is_readable(expr@) && logic::depth_of(expr@) <= MAX_DEPTH ==> expr_of(r@, 0) == Some(expr@),
{
    let r = expr_to_canonical(expr);
    proof {
        expr_reads_back(expr@);
    }
    r
}

proof fn exprs_of_stays(items: Seq<CanonicalValueModel>, depth: nat, k: int)
    requires
        0 <= k <= items.len(),
        exprs_of(items.take(k), depth) is None,
    ensures
        exprs_of(items, depth) is None,
        exprs_fault(items, depth) == exprs_fault(items.take(k), depth),
    decreases items.len() - k,
{
    if k == items.len() {
        assert(items.take(k) =~= items);
    } else {
        assert(items.take(k + 1).drop_last() =~= items.take(k));
        exprs_of_stays(items, depth, k + 1);
    }
}

fn exprs_from(v: &Vec<CanonicalValue>, depth: usize) -> (r: Result<Vec<Expr>, DecodeError>)
    requires
        depth <= MAX_DEPTH + 1,
    ensures
        match r {
            Ok(s) => exprs_of(canonical::items_model(v@), depth as nat) == Some(logic::exprs_model(s@)) && canonical::items_model(
                v@,
            ) == exprs_form(logic::exprs_model(s@)),
            Err(e) => exprs_of(canonical::items_model(v@), depth as nat) is None && e.0@ == exprs_fault(
                canonical::items_model(v@),
                depth as nat,
            ),
        },
    decreases MAX_DEPTH + 1 - depth, v@.len() + 1,
{
    let ghost m = canonical::items_model(v@);
    let mut r: Vec<Expr> = Vec::new();
    let mut i: usize = 0;
    assert(m.take(0) =~= Seq::<CanonicalValueModel>::empty());
    assert(logic::exprs_model(r@) =~= Seq::<ExprModel>::empty());
    while i < v.len()
        invariant
            i <= v@.len(),
            depth <= MAX_DEPTH + 1,
            m == canonical::items_model(v@),
            exprs_of(m.take(i as int), depth as nat) == Some(logic::exprs_model(r@)),
            m.take(i as int) == exprs_form(logic::exprs_model(r@)),
        decreases v@.len() - i,
    {
        proof {
            assert(m.take(i + 1).drop_last() =~= m.take(i as int));
            assert(m.take(i + 1).last() == v@[i as int]@);
        }
        match expr_from(&v[i], depth) {
            Ok(e) => {
                let ghost had = logic::exprs_model(r@);
                let ghost em = e@;
                r.push(e);
                proof {
                    assert(logic::exprs_model(r@) =~= had.push(em));
                    assert(had.push(em).drop_last() =~= had);
                    assert(m.take(i + 1) =~= m.take(i as int).push(m[i as int]));
                }
            },
            Err(e) => {
                proof {
                    exprs_of_stays(m, depth as nat, i + 1);
                }
                return Err(e);
            },
        }
        i += 1;
    }
    assert(m.take(m.len() as int) =~= m);
    Ok(r)
}

fn too_deep() -> (r: DecodeError)
    ensures
        r.0@ == depth_fault(),
{
    let mut text: Vec<char> = Vec::new();
    push_text(&mut text, "expression nests deeper than ");
    let mut limit = digits_text(MAX_DEPTH as u128);
    text.append(&mut limit);
    let r = text_of(&text);
    assert(r@ =~= depth_fault());
    DecodeError(r)
}

fn expr_from(v: &CanonicalValue, depth: usize) -> (r: Result<Expr, DecodeError>)
    requires
        depth <= MAX_DEPTH + 1,
    ensures
        match r {
            Ok(e) => expr_of(v@, depth as nat) == Some(e@) && v@ == expr_form(e@),
            Err(e) => expr_of(v@, depth as nat) is None && e.0@ == expr_fault(v@, depth as nat),
        },
    decreases MAX_DEPTH + 1 - depth, 0nat,
{
    if depth > MAX_DEPTH {
        return Err(too_deep());
    }
    let m = match v {
        CanonicalValue::Object(m) => m,
        _ => {
            return Err(bad("expected an object"));
        },
    };
    let both = m.get("and");
    let either = m.get("or");
    if both.is_some() && either.is_some() {
        return Err(bad("an expression is 'and' or 'or', not both"));
    }
    if let Some(operands) = both {
        let keys: [&str; 1] = ["and"];
        assert(codec::texts_at(keys@) =~= seq!["and"@]);
        if let Err(e) = only(m, &keys) {
            return Err(e);
        }
        proof {
            codec::only_member1(m@, "and"@);
        }
        match operands {
            CanonicalValue::Array(items) => match exprs_from(items, depth + 1) {
                Ok(s) => Ok(Expr::And(s)),
                Err(e) => Err(e),
            },
            _ => Err(bad("combinator operands must be an array")),
        }
    } else if let Some(operands) = either {
        let keys: [&str; 1] = ["or"];
        assert(codec::texts_at(keys@) =~= seq!["or"@]);
        if let Err(e) = only(m, &keys) {
            return Err(e);
        }
        proof {
            codec::only_member1(m@, "or"@);
        }
        match operands {
            CanonicalValue::Array(items) => match exprs_from(items, depth + 1) {
                Ok(s) => Ok(Expr::Or(s)),
                Err(e) => Err(e),
            },
            _ => Err(bad("combinator operands must be an array")),
        }
    } else {
        match atom_from(m) {
            Ok(a) => Ok(Expr::Atom(a)),
            Err(e) => Err(e),
        }
    }
}

/// Reads an expression strictly: what is accepted is the form of what
/// comes out, so no two values read as one expression.
pub fn from_canonical(value: &CanonicalValue) -> (r: Result<Expr, DecodeError>)
    ensures
        match r {
            Ok(e) => expr_of(value@, 0) == Some(e@) && value@ == expr_form(e@),
            Err(e) => expr_of(value@, 0) is None && e.0@ == expr_fault(value@, 0),
        },
{
    expr_from(value, 0)
}

} // verus!
