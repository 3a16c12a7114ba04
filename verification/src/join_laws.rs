//! Joining types does not depend on which comes first.

use vstd::prelude::*;
use crate::cast;
use crate::schema;
use crate::cast::{JoinConflictModel, JoinPath};
use crate::schema::{
    Arity, AttachmentConstraintsModel, NomenclatureRefModel, OptionRowModel, ScalarTypeModel, Unit,
};

verus! {

/// Whether no two rows have one id.
pub open spec fn ids_once(rows: Seq<OptionRowModel>) -> bool {
    forall|i: int, j: int|
        0 <= i < rows.len() && 0 <= j < rows.len() && i != j ==> (#[trigger] rows[i]).id != (
        #[trigger] rows[j]).id
}

/// Whether some row has an id and a label.
pub open spec fn has_pair(rows: Seq<OptionRowModel>, id: Seq<char>, label: Seq<char>) -> bool {
    exists|i: int| 0 <= i < rows.len() && (#[trigger] rows[i]).id == id && rows[i].label == label
}

/// Whether the ids that two lists of rows share stand for one label each.
pub open spec fn agree(a: Seq<OptionRowModel>, b: Seq<OptionRowModel>) -> bool {
    forall|i: int, j: int|
        0 <= i < a.len() && 0 <= j < b.len() && (#[trigger] a[i]).id == (#[trigger] b[j]).id
            ==> a[i].label == b[j].label
}

/// Whether two types are the same but for the order in which an enum's
/// rows or an attachment's patterns are listed.
pub open spec fn alike(x: ScalarTypeModel, y: ScalarTypeModel) -> bool {
    match (x, y) {
        (
            ScalarTypeModel::Enum(NomenclatureRefModel::Inline(a)),
            ScalarTypeModel::Enum(NomenclatureRefModel::Inline(b)),
        ) => forall|id: Seq<char>, label: Seq<char>| #[trigger]
            has_pair(a, id, label) <==> has_pair(b, id, label),
        (ScalarTypeModel::Attachment(a), ScalarTypeModel::Attachment(b)) => a.equivalent(b),
        _ => x == y,
    }
}

/// Whether an inline enum lists every id once. Other types do trivially.
pub open spec fn lists_ids_once(x: ScalarTypeModel) -> bool {
    x matches ScalarTypeModel::Enum(NomenclatureRefModel::Inline(rows)) ==> ids_once(rows)
}

proof fn row_of_is(rows: Seq<OptionRowModel>, id: Seq<char>)
    ensures
        match cast::row_of(rows, id) {
            Some(row) => row.id == id && has_pair(rows, id, row.label),
            None => forall|i: int| 0 <= i < rows.len() ==> (#[trigger] rows[i]).id != id,
        },
    decreases rows.len(),
{
    if rows.len() > 0 {
        if rows[0].id == id {
            assert(has_pair(rows, id, rows[0].label));
        } else {
            let rest = rows.drop_first();
            row_of_is(rest, id);
            match cast::row_of(rest, id) {
                Some(row) => {
                    let i = choose|i: int|
                        0 <= i < rest.len() && (#[trigger] rest[i]).id == id && rest[i].label
                            == row.label;
                    assert(rows[i + 1] == rest[i]);
                },
                None => {
                    assert forall|i: int| 0 <= i < rows.len() implies (#[trigger] rows[i]).id
                        != id by {
                        if i > 0 {
                            assert(rest[i - 1] == rows[i]);
                        }
                    }
                },
            }
        }
    }
}

proof fn pair_pushed(rows: Seq<OptionRowModel>, row: OptionRowModel)
    ensures
        forall|id: Seq<char>, label: Seq<char>| #[trigger]
            has_pair(rows.push(row), id, label) <==> has_pair(rows, id, label) || (row.id == id
                && row.label == label),
{
    let all = rows.push(row);
    assert forall|id: Seq<char>, label: Seq<char>| #[trigger] has_pair(all, id, label) <==> has_pair(
        rows,
        id,
        label,
    ) || (row.id == id && row.label == label) by {
        if has_pair(rows, id, label) {
            let i = choose|i: int|
                0 <= i < rows.len() && (#[trigger] rows[i]).id == id && rows[i].label == label;
            assert(all[i] == rows[i]);
        }
        if row.id == id && row.label == label {
            assert(all[rows.len() as int] == row);
        }
        if has_pair(all, id, label) {
            let i = choose|i: int|
                0 <= i < all.len() && (#[trigger] all[i]).id == id && all[i].label == label;
            if i < rows.len() {
                assert(rows[i] == all[i]);
            }
        }
    }
}

proof fn merged_rows_are(a: Seq<OptionRowModel>, b: Seq<OptionRowModel>)
    requires
        ids_once(a),
        ids_once(b),
    ensures
        cast::merged_rows(a, b) is Some <==> agree(a, b),
        cast::merged_rows(a, b) matches Some(m) ==> forall|id: Seq<char>, label: Seq<char>| #[trigger]
            has_pair(m, id, label) <==> has_pair(a, id, label) || has_pair(b, id, label),
    decreases b.len(),
{
    if b.len() > 0 {
        let rest = b.drop_last();
        let last = b.last();
        assert(b =~= rest.push(last));
        assert forall|i: int, j: int|
            0 <= i < rest.len() && 0 <= j < rest.len() && i != j implies (#[trigger] rest[i]).id != (
        #[trigger] rest[j]).id by {
            assert(rest[i] == b[i] && rest[j] == b[j]);
        }
        merged_rows_are(a, rest);
        pair_pushed(rest, last);
        assert forall|label: Seq<char>| !has_pair(rest, last.id, label) by {
            if has_pair(rest, last.id, label) {
                let i = choose|i: int|
                    0 <= i < rest.len() && (#[trigger] rest[i]).id == last.id && rest[i].label
                        == label;
                assert(b[i] == rest[i] && b[b.len() - 1] == last);
            }
        }
        if agree(a, b) {
            assert forall|i: int, j: int|
                0 <= i < a.len() && 0 <= j < rest.len() && (#[trigger] a[i]).id == (
                #[trigger] rest[j]).id implies a[i].label == rest[j].label by {
                assert(rest[j] == b[j]);
            }
        }
        if let Some(m) = cast::merged_rows(a, rest) {
            row_of_is(m, last.id);
            pair_pushed(m, last);
            match cast::row_of(m, last.id) {
                Some(row) => {
                    assert(has_pair(a, last.id, row.label));
                    let k = choose|k: int|
                        0 <= k < a.len() && (#[trigger] a[k]).id == last.id && a[k].label
                            == row.label;
                    if row.label == last.label {
                        assert forall|i: int, j: int|
                            0 <= i < a.len() && 0 <= j < b.len() && (#[trigger] a[i]).id == (
                            #[trigger] b[j]).id implies a[i].label == b[j].label by {
                            if j < rest.len() {
                                assert(b[j] == rest[j]);
                            } else {
                                assert(i == k);
                            }
                        }
                    } else {
                        assert(b[b.len() - 1] == last);
                        assert(a[k].id == b[b.len() - 1].id);
                    }
                },
                None => {
                    assert forall|i: int, j: int|
                        0 <= i < a.len() && 0 <= j < b.len() && (#[trigger] a[i]).id == (
                        #[trigger] b[j]).id implies a[i].label == b[j].label by {
                        if j < rest.len() {
                            assert(b[j] == rest[j]);
                        } else {
                            assert(has_pair(a, last.id, a[i].label));
                            assert(has_pair(m, last.id, a[i].label));
                        }
                    }
                },
            }
        }
    } else {
        assert forall|id: Seq<char>, label: Seq<char>| !(#[trigger] has_pair(b, id, label)) by {}
    }
}

/// Both orders join or both do not; where they do, it is along the same
/// path, and to the same type but for the order in which options or
/// patterns are listed.
pub proof fn join_is_symmetric(
    a: ScalarTypeModel,
    b: ScalarTypeModel,
    noms: Map<(Seq<char>, u32), Seq<OptionRowModel>>,
)
    requires
        lists_ids_once(a),
        lists_ids_once(b),
    ensures
        match (cast::join_of(a, b, noms), cast::join_of(b, a, noms)) {
            (Ok((x, p)), Ok((y, q))) => p == q && alike(x, y),
            (Err(_), Err(_)) => true,
            _ => false,
        },
{
    match (a, b) {
        (
            ScalarTypeModel::Enum(NomenclatureRefModel::Inline(x)),
            ScalarTypeModel::Enum(NomenclatureRefModel::Inline(y)),
        ) => {
            merged_rows_are(x, y);
            merged_rows_are(y, x);
            assert(agree(x, y) <==> agree(y, x));
        },
        (ScalarTypeModel::Attachment(x), ScalarTypeModel::Attachment(y)) => {
            if !x.equivalent(y) {
                joined_patterns_are_the_same(x, y);
            }
        },
        _ => {},
    }
}

proof fn joined_patterns_are_the_same(
    x: AttachmentConstraintsModel,
    y: AttachmentConstraintsModel,
)
    ensures
        cast::constraint_join(x, y).equivalent(cast::constraint_join(y, x)),
{
    let p = cast::constraint_join(x, y);
    let q = cast::constraint_join(y, x);
    if x.accept.len() > 0 && y.accept.len() > 0 {
        let n = x.accept.len();
        let m = y.accept.len();
        assert forall|i: int| 0 <= i < p.accept.len() implies q.accept.contains(
            #[trigger] p.accept[i],
        ) by {
            let j = if i < n {
                m + i
            } else {
                i - n
            };
            assert(q.accept[j] == p.accept[i]);
        }
        assert forall|i: int| 0 <= i < q.accept.len() implies p.accept.contains(
            #[trigger] q.accept[i],
        ) by {
            let j = if i < m {
                n + i
            } else {
                i - m
            };
            assert(p.accept[j] == q.accept[i]);
        }
    }
}

/// A type joined with itself is itself.
pub proof fn join_is_idempotent(
    a: ScalarTypeModel,
    noms: Map<(Seq<char>, u32), Seq<OptionRowModel>>,
)
    ensures
        cast::join_of(a, a, noms) == Ok::<_, JoinConflictModel>((a, JoinPath::Direct)),
{
    if let ScalarTypeModel::Attachment(x) = a {
        assert(x.equivalent(x));
    }
}

/// Whether the nomenclature that a type names is in the table.
pub open spec fn is_known(
    a: ScalarTypeModel,
    noms: Map<(Seq<char>, u32), Seq<OptionRowModel>>,
) -> bool {
    a matches ScalarTypeModel::Enum(nref) ==> cast::rows_of(nref, noms) is Ok
}

/// The join is an upper bound in the cast table: where both sides'
/// nomenclatures are known and only ever gain options, each side reaches
/// the join by a cast that is there, loses nothing and never fails.
pub proof fn joining_widens(
    a: ScalarTypeModel,
    b: ScalarTypeModel,
    noms: Map<(Seq<char>, u32), Seq<OptionRowModel>>,
)
    requires
        cast::append_only(noms),
        is_known(a, noms),
        is_known(b, noms),
    ensures
        cast::join_of(a, b, noms) matches Ok((j, _)) ==> {
            &&& cast::cast_between(a, j, noms) matches Ok(c) && c.widens()
            &&& cast::cast_between(b, j, noms) matches Ok(c) && c.widens()
        },
{
    cast::join_is_an_upper_bound(a, b, noms);
}

proof fn within_is_transitive(
    a: Seq<OptionRowModel>,
    b: Seq<OptionRowModel>,
    c: Seq<OptionRowModel>,
)
    requires
        cast::options_within(a, b),
        cast::options_within(b, c),
    ensures
        cast::options_within(a, c),
{
    assert forall|i: int| 0 <= i < a.len() implies cast::has_option(c, (#[trigger] a[i]).id) by {
        assert(cast::has_option(b, a[i].id));
        let j = choose|j: int| 0 <= j < b.len() && (#[trigger] b[j]).id == a[i].id;
        assert(cast::has_option(c, b[j].id));
    }
}

/// Casts that lose nothing and never fail compose: where one leads from
/// `a` to `b` and one from `b` to `c`, the cast from `a` to `c` is such a
/// cast too.
pub proof fn widening_casts_compose(
    a: ScalarTypeModel,
    b: ScalarTypeModel,
    c: ScalarTypeModel,
    noms: Map<(Seq<char>, u32), Seq<OptionRowModel>>,
)
    requires
        cast::cast_between(a, b, noms) matches Ok(x) && x.widens(),
        cast::cast_between(b, c, noms) matches Ok(y) && y.widens(),
    ensures
        cast::cast_between(a, c, noms) matches Ok(z) && z.widens(),
{
    match (a, b, c) {
        (ScalarTypeModel::Enum(x), ScalarTypeModel::Enum(y), ScalarTypeModel::Enum(z)) => {
            if a != b && b != c && a != c {
                within_is_transitive(
                    cast::rows_of(x, noms)->Ok_0,
                    cast::rows_of(y, noms)->Ok_0,
                    cast::rows_of(z, noms)->Ok_0,
                );
            }
        },
        (
            ScalarTypeModel::Attachment(x),
            ScalarTypeModel::Attachment(y),
            ScalarTypeModel::Attachment(z),
        ) => {
            if x.equivalent(y) {
                schema::equivalent_covers(x, y);
            }
            if y.equivalent(z) {
                schema::equivalent_covers(y, z);
            }
            schema::covering_is_transitive(x, y, z);
        },
        _ => {},
    }
}

/// Number types meet in a number type, a decimal one as soon as one is,
/// in the unit that one of them names; two that name different units meet
/// as text.
pub proof fn numbers_meet_as_numbers(
    a: Option<Unit>,
    b: Option<Unit>,
    noms: Map<(Seq<char>, u32), Seq<OptionRowModel>>,
)
    ensures
        ({
            let u = if a is None {
                b
            } else {
                a
            };
            let apart = a is Some && b is Some && a != b;
            let ii = cast::join_of(ScalarTypeModel::Integer(a), ScalarTypeModel::Integer(b), noms);
            let dd = cast::join_of(ScalarTypeModel::Decimal(a), ScalarTypeModel::Decimal(b), noms);
            let id = cast::join_of(ScalarTypeModel::Integer(a), ScalarTypeModel::Decimal(b), noms);
            let di = cast::join_of(ScalarTypeModel::Decimal(a), ScalarTypeModel::Integer(b), noms);
            if apart {
                let text = Ok::<_, JoinConflictModel>((ScalarTypeModel::Text, JoinPath::ViaText));
                ii == text && dd == text && id == text && di == text
            } else {
                let whole = Ok::<_, JoinConflictModel>(
                    (ScalarTypeModel::Integer(u), JoinPath::Direct),
                );
                let split = Ok::<_, JoinConflictModel>(
                    (ScalarTypeModel::Decimal(u), JoinPath::Direct),
                );
                ii == whole && dd == split && id == split && di == split
            }
        }),
{
}

/// A type meets itself in itself; days and instants meet as instants;
/// text takes whatever can be written; and types of different kinds that
/// can be written meet as text, which is told. Files and geometries meet
/// nothing else.
pub proof fn other_types_meet_as_text_or_not_at_all(
    a: ScalarTypeModel,
    b: ScalarTypeModel,
    noms: Map<(Seq<char>, u32), Seq<OptionRowModel>>,
)
    requires
        !((a is Integer || a is Decimal) && (b is Integer || b is Decimal)),
        !(a is Enum && b is Enum),
        !(a is Attachment && b is Attachment),
    ensures
        ({
            let j = cast::join_of(a, b, noms);
            let written = !(a is Attachment) && !(a is Geometry) && !(b is Attachment) && !(
            b is Geometry);
            if a == b {
                j == Ok::<_, JoinConflictModel>((a, JoinPath::Direct))
            } else if (a is Date && b is Datetime) || (a is Datetime && b is Date) {
                j == Ok::<_, JoinConflictModel>((ScalarTypeModel::Datetime, JoinPath::Direct))
            } else if !written {
                j == Err::<(ScalarTypeModel, JoinPath), _>(JoinConflictModel::Incompatible)
            } else if a is Text || b is Text {
                j == Ok::<_, JoinConflictModel>((ScalarTypeModel::Text, JoinPath::Direct))
            } else {
                j == Ok::<_, JoinConflictModel>((ScalarTypeModel::Text, JoinPath::ViaText))
            }
        }),
{
}

/// Two versions of one published nomenclature meet in the later one.
pub proof fn versions_meet_in_the_later(
    id: Seq<char>,
    v: u32,
    w: u32,
    noms: Map<(Seq<char>, u32), Seq<OptionRowModel>>,
)
    requires
        v <= w,
    ensures
        cast::join_of(
            ScalarTypeModel::Enum(NomenclatureRefModel::Published { id, version: v }),
            ScalarTypeModel::Enum(NomenclatureRefModel::Published { id, version: w }),
            noms,
        ) == Ok::<_, JoinConflictModel>(
            (
                ScalarTypeModel::Enum(NomenclatureRefModel::Published { id, version: w }),
                JoinPath::Direct,
            ),
        ),
{
}

/// Columns meet as their types do, and take many values as soon as one of
/// them does.
pub proof fn columns_meet_as_their_types(
    a: (ScalarTypeModel, Arity),
    b: (ScalarTypeModel, Arity),
    noms: Map<(Seq<char>, u32), Seq<OptionRowModel>>,
)
    ensures
        match cast::join_of(a.0, b.0, noms) {
            Ok((ty, path)) => cast::column_join_of(a, b, noms) matches Ok(((t, n), p)) && t == ty && p
                == path && (n is Many <==> a.1 is Many || b.1 is Many),
            Err(e) => cast::column_join_of(a, b, noms) == Err::<((ScalarTypeModel, Arity), JoinPath), _>(
                e,
            ),
        },
{
}

} // verus!
