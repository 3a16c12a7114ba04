//! When a record conforms to a schema, and what is said where it does
//! not.

use vstd::prelude::*;
use crate::cast;
use crate::cast_laws;
use crate::collections;
use crate::conformance;
use crate::schema_laws;
use crate::value;
use crate::value_laws;
use crate::conformance::{ColumnInfoModel, ConformanceErrorModel, GroupInfoModel, SchemaIndexModel};
use crate::ids::PathSegModel;
use crate::schema::{Arity, NomenclatureRefModel, OptionRowModel, ScalarTypeModel, SchemaModel};
use crate::value::{
    CellAddr, CellAddrModel, CellStateModel, CellValueModel, ItemsAddr, ItemsAddrModel,
    RecordValuesModel, ScalarModel,
};

verus! {

/// Whether a scalar is of the kind that a type holds.
pub open spec fn is_of_type(s: ScalarModel, ty: ScalarTypeModel) -> bool {
    match s {
        ScalarModel::Text(_) => ty is Text,
        ScalarModel::Boolean(_) => ty is Boolean,
        ScalarModel::Integer(_) => ty is Integer,
        ScalarModel::Decimal(_) => ty is Decimal,
        ScalarModel::Date(_) => ty is Date,
        ScalarModel::Datetime(_) => ty is Datetime,
        ScalarModel::Enum(_) => ty is Enum,
        ScalarModel::Attachment(_) => ty is Attachment,
        ScalarModel::Geometry(_) => ty is Geometry,
    }
}

/// Whether a path passes through these groups, one after the other.
pub open spec fn passes_through(path: Seq<PathSegModel>, groups: Seq<Seq<char>>) -> bool {
    &&& path.len() == groups.len()
    &&& forall|i: int| 0 <= i < path.len() ==> (#[trigger] path[i]).group == groups[i]
}

/// Whether a record has a cell in a known column, in the place that the
/// schema gives it.
pub open spec fn is_placed(
    v: RecordValuesModel,
    columns: Map<Seq<char>, ColumnInfoModel>,
    a: CellAddrModel,
) -> bool {
    &&& v.cells.dom().contains(a)
    &&& columns.dom().contains(a.column)
    &&& passes_through(a.path, columns[a.column].scope)
}

/// Whether a scalar stands in a cell whose shape fits its column.
pub open spec fn stands_in(
    v: RecordValuesModel,
    columns: Map<Seq<char>, ColumnInfoModel>,
    a: CellAddrModel,
    s: ScalarModel,
) -> bool {
    &&& is_placed(v, columns, a)
    &&& match v.cells[a] {
        CellStateModel::Empty => false,
        CellStateModel::Value(CellValueModel::One(x)) => columns[a.column].arity is One && s == x,
        CellStateModel::Value(CellValueModel::Many(l)) => columns[a.column].arity is Many
            && l.contains(s),
    }
}

/// Whether a record fails to conform in this way.
pub open spec fn is_amiss(
    v: RecordValuesModel,
    index: SchemaIndexModel,
    noms: Map<(Seq<char>, u32), Seq<OptionRowModel>>,
    e: ConformanceErrorModel,
) -> bool {
    let columns = index.columns;
    match e {
        ConformanceErrorModel::UnknownColumn(c) => !columns.dom().contains(c) && exists|
            a: CellAddrModel,
        | #[trigger]
            v.cells.dom().contains(a) && a.column == c,
        ConformanceErrorModel::ScopeMismatch(c) => columns.dom().contains(c) && exists|
            a: CellAddrModel,
        | #[trigger]
            v.cells.dom().contains(a) && a.column == c && !passes_through(
                a.path,
                columns[c].scope,
            ),
        ConformanceErrorModel::UnknownItem(c, g) => exists|a: CellAddrModel, n: int|
            {
                &&& is_placed(v, columns, a) && a.column == c
                &&& 0 <= n < a.path.len()
                &&& (#[trigger] a.path[n]).group == g
                &&& !value_laws::listed(v, ItemsAddrModel { group: g, parent: a.path.take(n) }).contains(
                    a.path[n].item,
                )
            },
        ConformanceErrorModel::ArityMismatch(c) => exists|a: CellAddrModel| #[trigger]
            is_placed(v, columns, a) && a.column == c && (v.cells[a] matches CellStateModel::Value(
                x,
            ) && (x is One) != (columns[c].arity is One)),
        ConformanceErrorModel::EmptyList(c) => exists|a: CellAddrModel| #[trigger]
            is_placed(v, columns, a) && a.column == c && columns[c].arity is Many
                && v.cells[a] == CellStateModel::Value(CellValueModel::Many(Seq::empty())),
        ConformanceErrorModel::TypeMismatch(c) => exists|a: CellAddrModel, s: ScalarModel|
            #[trigger] stands_in(v, columns, a, s) && a.column == c && !is_of_type(
                s,
                columns[c].ty,
            ),
        ConformanceErrorModel::UnknownOption(c, o) => columns[c].ty is Enum && exists|
            a: CellAddrModel,
            rows: Seq<OptionRowModel>,
        |
            {
                &&& #[trigger] stands_in(v, columns, a, ScalarModel::Enum(o)) && a.column == c
                &&& #[trigger] cast_laws::rows_at_hand(columns[c].ty->Enum_0, noms, rows)
                &&& forall|i: int| 0 <= i < rows.len() ==> (#[trigger] rows[i]).id != o
            },
        ConformanceErrorModel::UnknownNomenclature(c, id) => exists|
            a: CellAddrModel,
            o: Seq<char>,
        |
            {
                &&& #[trigger] stands_in(v, columns, a, ScalarModel::Enum(o)) && a.column == c
                &&& columns[c].ty matches ScalarTypeModel::Enum(
                    NomenclatureRefModel::Published { id: i, version },
                ) && i == id && !noms.dom().contains((id, version))
            },
        ConformanceErrorModel::DuplicateElement(c) => exists|
            a: CellAddrModel,
            l: Seq<ScalarModel>,
            i: int,
            j: int,
        |
            {
                &&& is_placed(v, columns, a) && a.column == c && columns[c].arity is Many
                &&& v.cells[a] == CellStateModel::Value(CellValueModel::Many(l))
                &&& 0 <= i < j < l.len()
                &&& (#[trigger] l[i]).element_id() is Some
                &&& l[i].element_id() == (#[trigger] l[j]).element_id()
                &&& #[trigger] v.cells.dom().contains(a)
            },
        ConformanceErrorModel::UnknownGroup(g) => !index.groups.dom().contains(g) && exists|
            a: ItemsAddrModel,
        | #[trigger]
            v.items.dom().contains(a) && a.group == g,
        ConformanceErrorModel::MisplacedItems(g) => index.groups.dom().contains(g) && exists|
            a: ItemsAddrModel,
        | #[trigger]
            v.items.dom().contains(a) && a.group == g && (!(index.groups[g].cardinality is Many)
                || !passes_through(a.parent, index.groups[g].parent_scope)),
        ConformanceErrorModel::DuplicateItem(g) => exists|a: ItemsAddrModel, i: int, j: int|
            {
                &&& v.items.dom().contains(a) && a.group == g
                &&& 0 <= i < j < v.items[a].len()
                &&& #[trigger] v.items[a][i] == #[trigger] v.items[a][j]
            },
    }
}

/// What a cell alone brings.
spec fn is_cell_amiss(
    v: RecordValuesModel,
    columns: Map<Seq<char>, ColumnInfoModel>,
    noms: Map<(Seq<char>, u32), Seq<OptionRowModel>>,
    a: CellAddrModel,
    e: ConformanceErrorModel,
) -> bool {
    match e {
        ConformanceErrorModel::UnknownColumn(c) => !columns.dom().contains(c) && a.column == c,
        ConformanceErrorModel::ScopeMismatch(c) => columns.dom().contains(c) && a.column == c
            && !passes_through(a.path, columns[c].scope),
        ConformanceErrorModel::UnknownItem(c, g) => is_placed(v, columns, a) && a.column == c
            && exists|n: int|
            {
                &&& 0 <= n < a.path.len()
                &&& (#[trigger] a.path[n]).group == g
                &&& !value_laws::listed(v, ItemsAddrModel { group: g, parent: a.path.take(n) }).contains(
                    a.path[n].item,
                )
            },
        ConformanceErrorModel::ArityMismatch(c) => is_placed(v, columns, a) && a.column == c && (
        v.cells[a] matches CellStateModel::Value(x) && (x is One) != (columns[c].arity is One)),
        ConformanceErrorModel::EmptyList(c) => is_placed(v, columns, a) && a.column == c
            && columns[c].arity is Many && v.cells[a] == CellStateModel::Value(
            CellValueModel::Many(Seq::empty()),
        ),
        ConformanceErrorModel::TypeMismatch(c) => a.column == c && exists|s: ScalarModel|
            #[trigger] stands_in(v, columns, a, s) && !is_of_type(s, columns[c].ty),
        ConformanceErrorModel::UnknownOption(c, o) => a.column == c && stands_in(
            v,
            columns,
            a,
            ScalarModel::Enum(o),
        ) && columns[c].ty is Enum && (exists|rows: Seq<OptionRowModel>| #[trigger]
            cast_laws::rows_at_hand(columns[c].ty->Enum_0, noms, rows) && forall|i: int|
                0 <= i < rows.len() ==> (#[trigger] rows[i]).id != o),
        ConformanceErrorModel::UnknownNomenclature(c, id) => a.column == c && (exists|o: Seq<char>|
            #[trigger] stands_in(v, columns, a, ScalarModel::Enum(o))) && (
        columns[c].ty matches ScalarTypeModel::Enum(
            NomenclatureRefModel::Published { id: i, version },
        ) && i == id && !noms.dom().contains((id, version))),
        ConformanceErrorModel::DuplicateElement(c) => is_placed(v, columns, a) && a.column == c
            && columns[c].arity is Many && (v.cells[a] matches CellStateModel::Value(
            CellValueModel::Many(l),
        ) && exists|i: int, j: int|
            {
                &&& 0 <= i < j < l.len()
                &&& (#[trigger] l[i]).element_id() is Some
                &&& l[i].element_id() == (#[trigger] l[j]).element_id()
            }),
        _ => false,
    }
}

proof fn scopes_agree(path: Seq<PathSegModel>, groups: Seq<Seq<char>>)
    ensures
        (conformance::path_groups(path) == groups) == passes_through(path, groups),
{
    if passes_through(path, groups) {
        assert(conformance::path_groups(path) =~= groups);
    }
    if conformance::path_groups(path) == groups {
        assert forall|i: int| 0 <= i < path.len() implies (#[trigger] path[i]).group
            == groups[i] by {
            assert(conformance::path_groups(path)[i] == path[i].group);
        }
    }
}

proof fn missing_are_amiss(
    column: Seq<char>,
    path: Seq<PathSegModel>,
    v: RecordValuesModel,
    e: ConformanceErrorModel,
)
    ensures
        conformance::missing_items(column, path, v.items).contains(e) <==> (
        e matches ConformanceErrorModel::UnknownItem(c, g) && c == column && exists|n: int|
            {
                &&& 0 <= n < path.len()
                &&& (#[trigger] path[n]).group == g
                &&& !value_laws::listed(v, ItemsAddrModel { group: g, parent: path.take(n) }).contains(
                    path[n].item,
                )
            }),
    decreases path.len(),
{
    if path.len() > 0 {
        let parent = path.drop_last();
        let last = path.len() - 1;
        let seg = path.last();
        missing_are_amiss(column, parent, v, e);
        assert(path[last] == seg);
        assert(path.take(last) =~= parent);
        let own = ConformanceErrorModel::UnknownItem(column, seg.group);
        let known = value::list_at(v.items, ItemsAddrModel { group: seg.group, parent }).contains(
            seg.item,
        );
        let more = if known {
            Seq::empty()
        } else {
            seq![own]
        };
        schema_laws::join_contains(conformance::missing_items(column, parent, v.items), more, e);
        if !known {
            assert(more[0] == own);
        }
        if let ConformanceErrorModel::UnknownItem(c, g) = e {
            assert forall|n: int| 0 <= n < last implies #[trigger] path[n] == parent[n]
                && path.take(n) == parent.take(n) by {
                assert(path.take(n) =~= parent.take(n));
            }
            if exists|n: int|
                {
                    &&& 0 <= n < parent.len()
                    &&& (#[trigger] parent[n]).group == g
                    &&& !value_laws::listed(v, ItemsAddrModel { group: g, parent: parent.take(n) }).contains(
                        parent[n].item,
                    )
                } {
                let n = choose|n: int|
                    {
                        &&& 0 <= n < parent.len()
                        &&& (#[trigger] parent[n]).group == g
                        &&& !value_laws::listed(
                            v,
                            ItemsAddrModel { group: g, parent: parent.take(n) },
                        ).contains(parent[n].item)
                    };
                assert(path[n] == parent[n]);
            }
            if exists|n: int|
                {
                    &&& 0 <= n < path.len()
                    &&& (#[trigger] path[n]).group == g
                    &&& !value_laws::listed(v, ItemsAddrModel { group: g, parent: path.take(n) }).contains(
                        path[n].item,
                    )
                } {
                let n = choose|n: int|
                    {
                        &&& 0 <= n < path.len()
                        &&& (#[trigger] path[n]).group == g
                        &&& !value_laws::listed(v, ItemsAddrModel { group: g, parent: path.take(n) }).contains(
                            path[n].item,
                        )
                    };
                if n < last {
                    assert(parent[n] == path[n]);
                }
            }
        }
    }
}

/// What a scalar brings against a type.
spec fn is_scalar_amiss(
    s: ScalarModel,
    ty: ScalarTypeModel,
    column: Seq<char>,
    noms: Map<(Seq<char>, u32), Seq<OptionRowModel>>,
    e: ConformanceErrorModel,
) -> bool {
    match e {
        ConformanceErrorModel::TypeMismatch(c) => c == column && !is_of_type(s, ty),
        ConformanceErrorModel::UnknownOption(c, o) => c == column && s == ScalarModel::Enum(o)
            && ty is Enum && (exists|rows: Seq<OptionRowModel>| #[trigger]
            cast_laws::rows_at_hand(ty->Enum_0, noms, rows) && forall|i: int|
                0 <= i < rows.len() ==> (#[trigger] rows[i]).id != o),
        ConformanceErrorModel::UnknownNomenclature(c, id) => c == column && s is Enum && (
        ty matches ScalarTypeModel::Enum(NomenclatureRefModel::Published { id: i, version }) && i
            == id && !noms.dom().contains((id, version))),
        _ => false,
    }
}

proof fn scalars_are_amiss(
    s: ScalarModel,
    ty: ScalarTypeModel,
    column: Seq<char>,
    noms: Map<(Seq<char>, u32), Seq<OptionRowModel>>,
    e: ConformanceErrorModel,
)
    ensures
        conformance::scalar_errors(s, ty, column, noms).contains(e) == is_scalar_amiss(s, ty, column, noms, e),
{
    let out = conformance::scalar_errors(s, ty, column, noms);
    if out.len() > 0 {
        assert(out[0] == out[0]);
        assert(out.contains(out[0]));
        assert(out.contains(e) ==> e == out[0]);
    }
    if let (ScalarModel::Enum(o), ScalarTypeModel::Enum(nref)) = (s, ty) {
        if let Ok(rows) = cast::rows_of(nref, noms) {
            assert(cast_laws::rows_at_hand(nref, noms, rows));
            assert forall|other: Seq<OptionRowModel>| #[trigger]
                cast_laws::rows_at_hand(nref, noms, other) implies other == rows by {}
        }
    }
}

proof fn elements_are_amiss(
    l: Seq<ScalarModel>,
    ty: ScalarTypeModel,
    column: Seq<char>,
    noms: Map<(Seq<char>, u32), Seq<OptionRowModel>>,
    e: ConformanceErrorModel,
)
    ensures
        conformance::element_list_errors(l, ty, column, noms).contains(e) <==> {
            ||| exists|k: int|
                0 <= k < l.len() && is_scalar_amiss(#[trigger] l[k], ty, column, noms, e)
            ||| e == ConformanceErrorModel::DuplicateElement(column) && exists|i: int, j: int|
                {
                    &&& 0 <= i < j < l.len()
                    &&& (#[trigger] l[i]).element_id() is Some
                    &&& l[i].element_id() == (#[trigger] l[j]).element_id()
                }
        },
    decreases l.len(),
{
    if l.len() > 0 {
        let rest = l.drop_last();
        let n = l.len() - 1;
        let last = l.last();
        elements_are_amiss(rest, ty, column, noms, e);
        scalars_are_amiss(last, ty, column, noms, e);
        assert(l[n] == last);
        let before = conformance::element_list_errors(rest, ty, column, noms);
        let own = conformance::scalar_errors(last, ty, column, noms);
        let dup = ConformanceErrorModel::DuplicateElement(column);
        let repeats = last.element_id() matches Some(id) && conformance::has_element(rest, id);
        let more = if repeats {
            seq![dup]
        } else {
            Seq::empty()
        };
        assert(conformance::element_list_errors(l, ty, column, noms) =~= before + own + more);
        schema_laws::join_contains(before, own, e);
        schema_laws::join_contains(before + own, more, e);
        if repeats {
            assert(more[0] == dup);
            let i = choose|i: int|
                0 <= i < rest.len() && (#[trigger] rest[i]).element_id() == last.element_id();
            assert(l[i] == rest[i]);
            assert(l[i].element_id() == l[n].element_id());
        }
        assert forall|k: int| 0 <= k < n implies #[trigger] l[k] == rest[k] by {}
        if exists|k: int|
            0 <= k < rest.len() && is_scalar_amiss(#[trigger] rest[k], ty, column, noms, e) {
            let k = choose|k: int|
                0 <= k < rest.len() && is_scalar_amiss(#[trigger] rest[k], ty, column, noms, e);
            assert(l[k] == rest[k]);
        }
        if exists|k: int| 0 <= k < l.len() && is_scalar_amiss(#[trigger] l[k], ty, column, noms, e) {
            let k = choose|k: int|
                0 <= k < l.len() && is_scalar_amiss(#[trigger] l[k], ty, column, noms, e);
            if k < n {
                assert(rest[k] == l[k]);
            }
        }
        if exists|i: int, j: int|
            {
                &&& 0 <= i < j < rest.len()
                &&& (#[trigger] rest[i]).element_id() is Some
                &&& rest[i].element_id() == (#[trigger] rest[j]).element_id()
            } {
            let (i, j) = choose|i: int, j: int|
                {
                    &&& 0 <= i < j < rest.len()
                    &&& (#[trigger] rest[i]).element_id() is Some
                    &&& rest[i].element_id() == (#[trigger] rest[j]).element_id()
                };
            assert(l[i] == rest[i] && l[j] == rest[j]);
        }
        if exists|i: int, j: int|
            {
                &&& 0 <= i < j < l.len()
                &&& (#[trigger] l[i]).element_id() is Some
                &&& l[i].element_id() == (#[trigger] l[j]).element_id()
            } {
            let (i, j) = choose|i: int, j: int|
                {
                    &&& 0 <= i < j < l.len()
                    &&& (#[trigger] l[i]).element_id() is Some
                    &&& l[i].element_id() == (#[trigger] l[j]).element_id()
                };
            assert(rest[i] == l[i]);
            if j < n {
                assert(rest[j] == l[j]);
            } else {
                assert(conformance::has_element(rest, last.element_id()->0));
            }
        }
    }
}

proof fn cell_is_amiss(
    v: RecordValuesModel,
    columns: Map<Seq<char>, ColumnInfoModel>,
    noms: Map<(Seq<char>, u32), Seq<OptionRowModel>>,
    a: CellAddrModel,
    e: ConformanceErrorModel,
)
    requires
        v.cells.dom().contains(a),
    ensures
        conformance::cell_errors(a, v.cells[a], v.items, columns, noms).contains(e) == is_cell_amiss(
            v,
            columns,
            noms,
            a,
            e,
        ),
{
    let out = conformance::cell_errors(a, v.cells[a], v.items, columns, noms);
    if !columns.dom().contains(a.column) {
        assert(out[0] == ConformanceErrorModel::UnknownColumn(a.column));
        assert(out.contains(out[0]));
        assert(out.contains(e) == (e == out[0]));
        assert(out.contains(e) == is_cell_amiss(v, columns, noms, a, e));
    } else {
        scopes_agree(a.path, columns[a.column].scope);
        if !passes_through(a.path, columns[a.column].scope) {
            assert(out[0] == ConformanceErrorModel::ScopeMismatch(a.column));
            assert(out.contains(out[0]));
            assert(out.contains(e) == (e == out[0]));
            assert(out.contains(e) == is_cell_amiss(v, columns, noms, a, e));
        } else {
            let info = columns[a.column];
            let missing = conformance::missing_items(a.column, a.path, v.items);
            let state = conformance::state_errors(v.cells[a], info, a.column, noms);
            schema_laws::join_contains(missing, state, e);
            missing_are_amiss(a.column, a.path, v, e);
            match (v.cells[a], info.arity) {
                (CellStateModel::Empty, _) => {
                    assert(out.contains(e) == is_cell_amiss(v, columns, noms, a, e));
                },
                (CellStateModel::Value(CellValueModel::One(s)), Arity::One) => {
                    scalars_are_amiss(s, info.ty, a.column, noms, e);
                    assert(stands_in(v, columns, a, s));
                    assert forall|t: ScalarModel| #[trigger] stands_in(v, columns, a, t) implies t
                        == s by {}
                    assert(out.contains(e) == is_cell_amiss(v, columns, noms, a, e));
                },
                (CellStateModel::Value(CellValueModel::Many(l)), Arity::Many) => {
                    if l.len() == 0 {
                        assert(l =~= Seq::<ScalarModel>::empty());
                        assert(state[0] == ConformanceErrorModel::EmptyList(a.column));
                        assert(state.contains(state[0]));
                        assert(out.contains(e) == is_cell_amiss(v, columns, noms, a, e));
                    } else {
                        elements_are_amiss(l, info.ty, a.column, noms, e);
                        assert(l != Seq::<ScalarModel>::empty());
                        assert forall|k: int| 0 <= k < l.len() implies stands_in(
                            v,
                            columns,
                            a,
                            #[trigger] l[k],
                        ) by {}
                        assert forall|t: ScalarModel| #[trigger]
                            stands_in(v, columns, a, t) && is_scalar_amiss(
                                t,
                                info.ty,
                                a.column,
                                noms,
                                e,
                            ) implies state.contains(e) by {
                            let k = choose|k: int| 0 <= k < l.len() && l[k] == t;
                            assert(is_scalar_amiss(l[k], info.ty, a.column, noms, e));
                        }
                        let some = exists|k: int|
                            0 <= k < l.len() && is_scalar_amiss(
                                #[trigger] l[k],
                                info.ty,
                                a.column,
                                noms,
                                e,
                            );
                        if some {
                            let k = choose|k: int|
                                0 <= k < l.len() && is_scalar_amiss(
                                    #[trigger] l[k],
                                    info.ty,
                                    a.column,
                                    noms,
                                    e,
                                );
                            assert(stands_in(v, columns, a, l[k]));
                            if let ScalarModel::Enum(o) = l[k] {
                                assert(stands_in(v, columns, a, ScalarModel::Enum(o)));
                            }
                            match e {
                                ConformanceErrorModel::TypeMismatch(c) => {
                                    assert(is_cell_amiss(v, columns, noms, a, e));
                                },
                                ConformanceErrorModel::UnknownOption(c, o) => {
                                    assert(is_cell_amiss(v, columns, noms, a, e));
                                },
                                ConformanceErrorModel::UnknownNomenclature(c, id) => {
                                    assert(is_cell_amiss(v, columns, noms, a, e));
                                },
                                _ => {},
                            }
                        }
                        match e {
                            ConformanceErrorModel::TypeMismatch(c) => {
                                if is_cell_amiss(v, columns, noms, a, e) {
                                    let t = choose|t: ScalarModel| #[trigger]
                                        stands_in(v, columns, a, t) && !is_of_type(
                                            t,
                                            columns[c].ty,
                                        );
                                    assert(is_scalar_amiss(t, info.ty, a.column, noms, e));
                                }
                            },
                            ConformanceErrorModel::UnknownOption(c, o) => {
                                if is_cell_amiss(v, columns, noms, a, e) {
                                    let t = ScalarModel::Enum(o);
                                    assert(stands_in(v, columns, a, t));
                                    assert(is_scalar_amiss(t, info.ty, a.column, noms, e));
                                }
                            },
                            ConformanceErrorModel::UnknownNomenclature(c, id) => {
                                if is_cell_amiss(v, columns, noms, a, e) {
                                    let o = choose|o: Seq<char>| #[trigger]
                                        stands_in(v, columns, a, ScalarModel::Enum(o));
                                    let t = ScalarModel::Enum(o);
                                    assert(stands_in(v, columns, a, t));
                                    assert(is_scalar_amiss(t, info.ty, a.column, noms, e));
                                }
                            },
                            _ => {},
                        }
                        assert(out.contains(e) == is_cell_amiss(v, columns, noms, a, e));
                    }
                },
                _ => {
                    assert(state[0] == ConformanceErrorModel::ArityMismatch(a.column));
                    assert(state.contains(state[0]));
                    assert(out.contains(e) == is_cell_amiss(v, columns, noms, a, e));
                },
            }
        }
    }
}

proof fn cells_are_amiss(
    keys: Seq<CellAddrModel>,
    v: RecordValuesModel,
    columns: Map<Seq<char>, ColumnInfoModel>,
    noms: Map<(Seq<char>, u32), Seq<OptionRowModel>>,
    e: ConformanceErrorModel,
)
    requires
        forall|i: int| 0 <= i < keys.len() ==> v.cells.dom().contains(#[trigger] keys[i]),
    ensures
        conformance::cells_errors(keys, v, columns, noms).contains(e) <==> exists|i: int|
            0 <= i < keys.len() && is_cell_amiss(v, columns, noms, #[trigger] keys[i], e),
    decreases keys.len(),
{
    if keys.len() > 0 {
        let rest = keys.drop_last();
        let last = keys.len() - 1;
        assert forall|i: int| 0 <= i < rest.len() implies v.cells.dom().contains(
            #[trigger] rest[i],
        ) by {
            assert(rest[i] == keys[i]);
        }
        cells_are_amiss(rest, v, columns, noms, e);
        assert(keys[last] == keys.last());
        cell_is_amiss(v, columns, noms, keys.last(), e);
        schema_laws::join_contains(
            conformance::cells_errors(rest, v, columns, noms),
            conformance::cell_errors(keys.last(), v.cells[keys.last()], v.items, columns, noms),
            e,
        );
        if conformance::cells_errors(rest, v, columns, noms).contains(e) {
            let i = choose|i: int|
                0 <= i < rest.len() && is_cell_amiss(v, columns, noms, #[trigger] rest[i], e);
            assert(keys[i] == rest[i]);
        }
        assert forall|i: int|
            0 <= i < keys.len() && is_cell_amiss(
                v,
                columns,
                noms,
                #[trigger] keys[i],
                e,
            ) implies conformance::cells_errors(keys, v, columns, noms).contains(e) by {
            if i < last {
                assert(rest[i] == keys[i]);
            }
        }
    }
}

/// What a list alone brings.
spec fn is_list_amiss(
    v: RecordValuesModel,
    groups: Map<Seq<char>, GroupInfoModel>,
    a: ItemsAddrModel,
    e: ConformanceErrorModel,
) -> bool {
    match e {
        ConformanceErrorModel::UnknownGroup(g) => a.group == g && !groups.dom().contains(g),
        ConformanceErrorModel::MisplacedItems(g) => a.group == g && groups.dom().contains(g) && (!(
        groups[g].cardinality is Many) || !passes_through(a.parent, groups[g].parent_scope)),
        ConformanceErrorModel::DuplicateItem(g) => a.group == g && exists|i: int, j: int|
            0 <= i < j < v.items[a].len() && #[trigger] v.items[a][i] == #[trigger] v.items[a][j],
        _ => false,
    }
}

proof fn repeats_are_amiss(group: Seq<char>, l: Seq<Seq<char>>, e: ConformanceErrorModel)
    ensures
        conformance::repeated_items(group, l).contains(e) <==> e == ConformanceErrorModel::DuplicateItem(group)
            && exists|i: int, j: int|
            0 <= i < j < l.len() && #[trigger] l[i] == #[trigger] l[j],
    decreases l.len(),
{
    if l.len() > 0 {
        let rest = l.drop_last();
        let n = l.len() - 1;
        repeats_are_amiss(group, rest, e);
        assert(l[n] == l.last());
        let own = ConformanceErrorModel::DuplicateItem(group);
        let more = if rest.contains(l.last()) {
            seq![own]
        } else {
            Seq::empty()
        };
        schema_laws::join_contains(conformance::repeated_items(group, rest), more, e);
        if rest.contains(l.last()) {
            assert(more[0] == own);
            let i = choose|i: int| 0 <= i < rest.len() && rest[i] == l.last();
            assert(l[i] == l[n]);
        }
        if exists|i: int, j: int|
            0 <= i < j < rest.len() && #[trigger] rest[i] == #[trigger] rest[j] {
            let (i, j) = choose|i: int, j: int|
                0 <= i < j < rest.len() && #[trigger] rest[i] == #[trigger] rest[j];
            assert(l[i] == l[j]);
        }
        if exists|i: int, j: int| 0 <= i < j < l.len() && #[trigger] l[i] == #[trigger] l[j] {
            let (i, j) = choose|i: int, j: int|
                0 <= i < j < l.len() && #[trigger] l[i] == #[trigger] l[j];
            assert(rest[i] == l[i]);
            if j < n {
                assert(rest[j] == l[j]);
            } else {
                assert(rest.contains(l.last()));
            }
        }
    }
}

proof fn lists_are_amiss(
    keys: Seq<ItemsAddrModel>,
    v: RecordValuesModel,
    groups: Map<Seq<char>, GroupInfoModel>,
    e: ConformanceErrorModel,
)
    ensures
        conformance::lists_errors(keys, v.items, groups).contains(e) <==> exists|i: int|
            0 <= i < keys.len() && is_list_amiss(v, groups, #[trigger] keys[i], e),
    decreases keys.len(),
{
    if keys.len() > 0 {
        let rest = keys.drop_last();
        let last = keys.len() - 1;
        let a = keys.last();
        lists_are_amiss(rest, v, groups, e);
        assert(keys[last] == a);
        let before = conformance::lists_errors(rest, v.items, groups);
        let place = conformance::list_place_errors(a, groups);
        let repeats = conformance::repeated_items(a.group, v.items[a]);
        schema_laws::join_contains(before, place, e);
        schema_laws::join_contains(before + place, repeats, e);
        repeats_are_amiss(a.group, v.items[a], e);
        if groups.dom().contains(a.group) {
            scopes_agree(a.parent, groups[a.group].parent_scope);
        }
        if place.len() > 0 {
            assert(place.contains(place[0]));
            assert(place.contains(e) ==> e == place[0]);
        }
        assert((place.contains(e) || repeats.contains(e)) == is_list_amiss(v, groups, a, e));
        if before.contains(e) {
            let i = choose|i: int|
                0 <= i < rest.len() && is_list_amiss(v, groups, #[trigger] rest[i], e);
            assert(keys[i] == rest[i]);
        }
        assert forall|i: int|
            0 <= i < keys.len() && is_list_amiss(
                v,
                groups,
                #[trigger] keys[i],
                e,
            ) implies conformance::lists_errors(keys, v.items, groups).contains(e) by {
            if i < last {
                assert(rest[i] == keys[i]);
            }
        }
    }
}

/// What is said of a record is exactly what is amiss with it: cells of
/// unknown columns, outside their groups, at items that no list has, of
/// the wrong shape or type, with options that are not known or elements
/// that repeat, and lists that belong nowhere, stand elsewhere or name an
/// item twice.
pub proof fn errors_are_what_is_amiss(
    v: RecordValuesModel,
    schema: SchemaModel,
    noms: Map<(Seq<char>, u32), Seq<OptionRowModel>>,
    e: ConformanceErrorModel,
)
    requires
        v.cells.dom().finite(),
        v.items.dom().finite(),
    ensures
        conformance::conformance_errors(v, schema, noms).contains(e) <==> is_amiss(
            v,
            conformance::schema_index(schema),
            noms,
            e,
        ),
{
    let index = conformance::schema_index(schema);
    let cells = collections::key_order::<CellAddr>(v.cells.dom());
    let lists = collections::key_order::<ItemsAddr>(v.items.dom());
    collections::finite_is_listed::<CellAddr>(v.cells.dom());
    collections::finite_is_listed::<ItemsAddr>(v.items.dom());
    assert forall|i: int| 0 <= i < cells.len() implies v.cells.dom().contains(
        #[trigger] cells[i],
    ) by {
        assert(cells.contains(cells[i]));
    }
    schema_laws::join_contains(
        conformance::lists_errors(lists, v.items, index.groups),
        conformance::cells_errors(cells, v, index.columns, noms),
        e,
    );
    cells_are_amiss(cells, v, index.columns, noms, e);
    lists_are_amiss(lists, v, index.groups, e);
    assert((exists|i: int|
        0 <= i < cells.len() && is_cell_amiss(v, index.columns, noms, #[trigger] cells[i], e)) <==> (
    exists|a: CellAddrModel| #[trigger]
        v.cells.dom().contains(a) && is_cell_amiss(v, index.columns, noms, a, e))) by {
        if exists|a: CellAddrModel| #[trigger]
            v.cells.dom().contains(a) && is_cell_amiss(v, index.columns, noms, a, e) {
            let a = choose|a: CellAddrModel| #[trigger]
                v.cells.dom().contains(a) && is_cell_amiss(v, index.columns, noms, a, e);
            assert(cells.contains(a));
            let i = choose|i: int| 0 <= i < cells.len() && cells[i] == a;
            assert(is_cell_amiss(v, index.columns, noms, cells[i], e));
        }
    }
    assert((exists|i: int|
        0 <= i < lists.len() && is_list_amiss(v, index.groups, #[trigger] lists[i], e)) <==> (
    exists|a: ItemsAddrModel| #[trigger]
        v.items.dom().contains(a) && is_list_amiss(v, index.groups, a, e))) by {
        if exists|a: ItemsAddrModel| #[trigger]
            v.items.dom().contains(a) && is_list_amiss(v, index.groups, a, e) {
            let a = choose|a: ItemsAddrModel| #[trigger]
                v.items.dom().contains(a) && is_list_amiss(v, index.groups, a, e);
            assert(lists.contains(a));
            let i = choose|i: int| 0 <= i < lists.len() && lists[i] == a;
            assert(is_list_amiss(v, index.groups, lists[i], e));
        }
        if exists|i: int|
            0 <= i < lists.len() && is_list_amiss(v, index.groups, #[trigger] lists[i], e) {
            let i = choose|i: int|
                0 <= i < lists.len() && is_list_amiss(v, index.groups, #[trigger] lists[i], e);
            assert(lists.contains(lists[i]));
            assert(v.items.dom().contains(lists[i]));
        }
    }
    amiss_somewhere(v, index, noms, e);
}

proof fn amiss_somewhere(
    v: RecordValuesModel,
    index: SchemaIndexModel,
    noms: Map<(Seq<char>, u32), Seq<OptionRowModel>>,
    e: ConformanceErrorModel,
)
    ensures
        is_amiss(v, index, noms, e) <==> {
            ||| exists|a: CellAddrModel| #[trigger]
                v.cells.dom().contains(a) && is_cell_amiss(v, index.columns, noms, a, e)
            ||| exists|a: ItemsAddrModel| #[trigger]
                v.items.dom().contains(a) && is_list_amiss(v, index.groups, a, e)
        },
{
    let columns = index.columns;
    assert forall|a: CellAddrModel| #[trigger]
        v.cells.dom().contains(a) && is_cell_amiss(v, columns, noms, a, e) implies is_amiss(
        v,
        index,
        noms,
        e,
    ) by {
        if let ConformanceErrorModel::DuplicateElement(c) = e {
            if let CellStateModel::Value(CellValueModel::Many(l)) = v.cells[a] {
                let (i, j) = choose|i: int, j: int|
                    {
                        &&& 0 <= i < j < l.len()
                        &&& (#[trigger] l[i]).element_id() is Some
                        &&& l[i].element_id() == (#[trigger] l[j]).element_id()
                    };
                assert(l[i].element_id() == l[j].element_id());
            }
        }
        if let ConformanceErrorModel::UnknownItem(c, g) = e {
            let n = choose|n: int|
                {
                    &&& 0 <= n < a.path.len()
                    &&& (#[trigger] a.path[n]).group == g
                    &&& !value_laws::listed(v, ItemsAddrModel { group: g, parent: a.path.take(n) }).contains(
                        a.path[n].item,
                    )
                };
            assert(a.path[n].group == g);
        }
        assert(is_placed(v, columns, a) || !is_placed(v, columns, a));
    }
    assert forall|a: ItemsAddrModel| #[trigger]
        v.items.dom().contains(a) && is_list_amiss(v, index.groups, a, e) implies is_amiss(
        v,
        index,
        noms,
        e,
    ) by {}
    if is_amiss(v, index, noms, e) {
        match e {
            ConformanceErrorModel::ArityMismatch(c) => {
                let a = choose|a: CellAddrModel| #[trigger]
                    is_placed(v, columns, a) && a.column == c && (
                    v.cells[a] matches CellStateModel::Value(x) && (x is One) != (
                    columns[c].arity is One));
                assert(v.cells.dom().contains(a));
            },
            ConformanceErrorModel::EmptyList(c) => {
                let a = choose|a: CellAddrModel| #[trigger]
                    is_placed(v, columns, a) && a.column == c && columns[c].arity is Many
                        && v.cells[a] == CellStateModel::Value(
                        CellValueModel::Many(Seq::empty()),
                    );
                assert(v.cells.dom().contains(a));
            },
            ConformanceErrorModel::TypeMismatch(c) => {
                let (a, s) = choose|a: CellAddrModel, s: ScalarModel|
                    #[trigger] stands_in(v, columns, a, s) && a.column == c && !is_of_type(
                        s,
                        columns[c].ty,
                    );
                assert(v.cells.dom().contains(a));
            },
            _ => {},
        }
    }
}

} // verus!
