//! What a transition between two revisions does, column by column, block
//! by block, resolver by resolver and rule by rule.

use vstd::prelude::*;
use crate::assess;
use crate::cast;
use crate::cast_laws;
use crate::collections;
use crate::conformance;
use crate::impact;
use crate::schema;
use crate::schema_laws;
use crate::typecheck;
use crate::cast::{Cast, CastClass};
use crate::conformance::{ColumnInfoModel, GroupInfoModel};
use crate::ids::{ColumnId, GroupId, OptionId, ResolverId};
use crate::impact::{
    BlockChangeModel, BreakKindModel, ChangeClass, ColumnChange, ColumnImpactModel,
    ConstraintChangeModel, ResolverChangeModel, RuleRefModel, UnitChange,
};
use crate::schema::{
    BlockRefModel, Group, MappingModel, OptionRowModel, PlacedModel, ResolverDeclarationModel,
    ResultFieldModel, ScalarTypeModel, SchemaModel, ShellModel, Unit,
};
use crate::typecheck::{TypeErrorModel, typecheck};

verus! {

/// Whether an impact names no particulars.
pub open spec fn is_plain(i: ColumnImpactModel) -> bool {
    i.removed_options.len() == 0 && i.constraint_change is None && i.unit_change is None
}

/// How severe the change of a column is whose cast is of a class.
pub open spec fn class_of_cast(c: CastClass) -> ChangeClass {
    match c {
        CastClass::Identity => ChangeClass::Safe,
        CastClass::Widening => ChangeClass::Safe,
        CastClass::Lossy => ChangeClass::Lossy,
        CastClass::Checked => ChangeClass::Checked,
        CastClass::Forbidden => ChangeClass::Breaking,
    }
}

/// A transition speaks of every column of either revision. One that only
/// one of them has is added or removed, which is safe; one that lies in
/// other groups is moved, which breaks; any other changes as its cast
/// does.
pub proof fn every_column_is_judged(
    from: SchemaModel,
    to: SchemaModel,
    noms: Map<(Seq<char>, u32), Seq<OptionRowModel>>,
    c: Seq<char>,
)
    ensures
        assess::classified(from, to, noms) matches Ok(report) ==> {
            let f = conformance::schema_index(from).columns;
            let t = conformance::schema_index(to).columns;
            let i = report.columns[c];
            &&& report.columns.dom().contains(c) <==> f.dom().contains(c) || t.dom().contains(c)
            &&& f.dom().contains(c) && !t.dom().contains(c) ==> i.change is Removed && i.class is Safe
                && is_plain(i)
            &&& !f.dom().contains(c) && t.dom().contains(c) ==> i.change is Added && i.class is Safe
                && is_plain(i)
            &&& f.dom().contains(c) && t.dom().contains(c) ==> if f[c].scope != t[c].scope {
                i.change is ScopeMoved && i.class is Breaking && is_plain(i)
            } else {
                &&& cast::column_cast_of((f[c].ty, f[c].arity), (t[c].ty, t[c].arity), noms) matches Ok(
                    cast,
                )
                &&& i.class == class_of_cast(cast.spec_class())
                &&& i.change is Forbidden <==> cast.spec_class() is Forbidden
                &&& i.change is Identical <==> cast.spec_class() is Identity
                &&& i.change is Forbidden || i.change is Identical || i.change
                    == (ColumnChange::Cast { cast })
            }
        },
{
    let f = conformance::schema_index(from).columns;
    let t = conformance::schema_index(to).columns;
    let keys = collections::key_order::<ColumnId>(f.dom());
    conformance::index_is_finite(from);
    collections::finite_is_listed::<ColumnId>(f.dom());
    impact::impacts_cover(keys, f, t, noms);
    if let Ok(m) = impact::column_impacts(keys, f, t, noms) {
        assert(keys.contains(c) <==> f.dom().contains(c));
        assert(m.dom().contains(c) <==> f.dom().contains(c));
    }
}

/// A column that stays in its groups names what its type lost: the
/// options of the old type that the new one does not have, in order; the
/// unit, where both are numbers and it differs; what a file may be, where
/// both are files and it differs.
pub proof fn losses_are_named(
    from: SchemaModel,
    to: SchemaModel,
    noms: Map<(Seq<char>, u32), Seq<OptionRowModel>>,
    c: Seq<char>,
)
    requires
        conformance::schema_index(from).columns.dom().contains(c),
        conformance::schema_index(to).columns.dom().contains(c),
        conformance::schema_index(from).columns[c].scope == conformance::schema_index(to).columns[c].scope,
    ensures
        assess::classified(from, to, noms) matches Ok(report) ==> {
            let a = conformance::schema_index(from).columns[c].ty;
            let b = conformance::schema_index(to).columns[c].ty;
            let i = report.columns[c];
            &&& collections::in_order::<OptionId>(i.removed_options)
            &&& !(a is Enum && b is Enum) ==> i.removed_options.len() == 0
            &&& forall|old: Seq<OptionRowModel>, new: Seq<OptionRowModel>, o: Seq<char>|
                #![trigger cast_laws::rows_at_hand(a->Enum_0, noms, old), cast_laws::rows_at_hand(b->Enum_0, noms, new), i.removed_options.contains(o)]
                a is Enum && b is Enum && cast_laws::rows_at_hand(a->Enum_0, noms, old) && cast_laws::rows_at_hand(
                    b->Enum_0,
                    noms,
                    new,
                ) ==> (i.removed_options.contains(o) <==> (exists|k: int|
                    0 <= k < old.len() && (#[trigger] old[k]).id == o) && (forall|k: int|
                    0 <= k < new.len() ==> (#[trigger] new[k]).id != o))
            &&& i.constraint_change == (match (a, b) {
                (ScalarTypeModel::Attachment(x), ScalarTypeModel::Attachment(y)) if x != y => Some(
                    ConstraintChangeModel { from: x, to: y },
                ),
                _ => None,
            })
            &&& i.unit_change == (match (unit_named(a), unit_named(b)) {
                (Some(x), Some(y)) if x != y => Some(UnitChange { from: x, to: y }),
                _ => None,
            })
        },
{
    let f = conformance::schema_index(from).columns;
    let t = conformance::schema_index(to).columns;
    let keys = collections::key_order::<ColumnId>(f.dom());
    conformance::index_is_finite(from);
    collections::finite_is_listed::<ColumnId>(f.dom());
    impact::impacts_cover(keys, f, t, noms);
    let a = f[c].ty;
    let b = t[c].ty;
    if let Ok(report) = assess::classified(from, to, noms) {
        let m = impact::column_impacts(keys, f, t, noms)->Ok_0;
        assert(keys.contains(c));
        assert(m.dom().contains(c));
        let i = report.columns[c];
        if a is Enum && b is Enum {
            if let (Ok(old), Ok(new)) = (cast::rows_of(a->Enum_0, noms), cast::rows_of(b->Enum_0, noms)) {
                lost_are_finite(old, new);
                collections::finite_is_listed::<OptionId>(impact::options_lost(old, new));
                assert forall|o: Seq<char>| #[trigger] i.removed_options.contains(o) <==> (exists|
                    k: int,
                |
                    0 <= k < old.len() && (#[trigger] old[k]).id == o) && (forall|k: int|
                    0 <= k < new.len() ==> (#[trigger] new[k]).id != o) by {
                    assert(i.removed_options.contains(o) <==> impact::options_lost(old, new).contains(o));
                }
            }
        }
    }
}

/// The unit of a number type; nothing of any other.
pub open spec fn unit_named(ty: ScalarTypeModel) -> Option<Option<Unit>> {
    match ty {
        ScalarTypeModel::Integer(u) => Some(u),
        ScalarTypeModel::Decimal(u) => Some(u),
        _ => None,
    }
}

proof fn lost_are_finite(old: Seq<OptionRowModel>, new: Seq<OptionRowModel>)
    ensures
        impact::options_lost(old, new).finite(),
{
    let ids = Seq::new(old.len(), |k: int| old[k].id);
    vstd::seq_lib::seq_to_set_is_finite(ids);
    assert forall|o: Seq<char>| #[trigger] impact::options_lost(old, new).contains(o) implies ids.to_set().contains(
        o,
    ) by {
        let k = choose|k: int| 0 <= k < old.len() && (#[trigger] old[k]).id == o;
        assert(ids[k] == o);
    }
    vstd::set_lib::lemma_len_subset(impact::options_lost(old, new), ids.to_set());
}

/// Whether a declaration is the last with its anchor and id.
pub open spec fn is_last_declaration(
    s: Seq<ResolverDeclarationModel>,
    k: int,
    key: (Seq<char>, Seq<char>),
) -> bool {
    &&& 0 <= k < s.len()
    &&& s[k].anchor == key.0 && s[k].id == key.1
    &&& forall|j: int|
        k < j < s.len() ==> !((#[trigger] s[j]).anchor == key.0 && s[j].id == key.1)
}

proof fn last_declarations(s: Seq<ResolverDeclarationModel>, key: (Seq<char>, Seq<char>))
    ensures
        impact::declarations(s).dom().finite(),
        impact::declarations(s).dom().contains(key) <==> exists|k: int| #[trigger]
            is_last_declaration(s, k, key),
        forall|k: int| #[trigger]
            is_last_declaration(s, k, key) ==> impact::declarations(s)[key] == s[k],
    decreases s.len(),
{
    if s.len() > 0 {
        let rest = s.drop_last();
        let n = s.len() - 1;
        last_declarations(rest, key);
        assert(s[n] == s.last());
        let hits = s[n].anchor == key.0 && s[n].id == key.1;
        assert((s.last().anchor, s.last().id) == key <==> hits);
        assert forall|k: int| k != n implies #[trigger] is_last_declaration(s, k, key) == (
        is_last_declaration(rest, k, key) && !hits) by {
            if is_last_declaration(s, k, key) {
                assert(rest[k] == s[k]);
                assert(!(s[n].anchor == key.0 && s[n].id == key.1));
                assert forall|j: int| k < j < rest.len() implies !((#[trigger] rest[j]).anchor
                    == key.0 && rest[j].id == key.1) by {
                    assert(rest[j] == s[j]);
                }
            }
            if is_last_declaration(rest, k, key) && !hits {
                assert(rest[k] == s[k]);
                assert forall|j: int| k < j < s.len() implies !((#[trigger] s[j]).anchor == key.0
                    && s[j].id == key.1) by {
                    if j < n {
                        assert(rest[j] == s[j]);
                    }
                }
            }
        }
        assert(is_last_declaration(s, n, key) == hits);
        if impact::declarations(rest).dom().contains(key) && !hits {
            let k = choose|k: int| #[trigger] is_last_declaration(rest, k, key);
            assert(is_last_declaration(s, k, key));
        }
    }
}

proof fn old_changes_are(
    keys: Seq<(Seq<char>, Seq<char>)>,
    f: Map<(Seq<char>, Seq<char>), ResolverDeclarationModel>,
    t: Map<(Seq<char>, Seq<char>), ResolverDeclarationModel>,
    columns: Map<Seq<char>, ColumnInfoModel>,
    e: ResolverChangeModel,
)
    ensures
        impact::old_declaration_changes(keys, f, t, columns).contains(e) <==> exists|i: int|
            0 <= i < keys.len() && impact::declaration_changes(
                #[trigger] keys[i],
                f[keys[i]],
                t,
                columns,
            ).contains(e),
    decreases keys.len(),
{
    if keys.len() > 0 {
        let rest = keys.drop_last();
        let n = keys.len() - 1;
        old_changes_are(rest, f, t, columns, e);
        assert(keys[n] == keys.last());
        let before = impact::old_declaration_changes(rest, f, t, columns);
        schema_laws::join_contains(before, impact::declaration_changes(keys.last(), f[keys.last()], t, columns), e);
        if before.contains(e) {
            let i = choose|i: int|
                0 <= i < rest.len() && impact::declaration_changes(
                    #[trigger] rest[i],
                    f[rest[i]],
                    t,
                    columns,
                ).contains(e);
            assert(keys[i] == rest[i]);
        }
        assert forall|i: int|
            0 <= i < keys.len() && impact::declaration_changes(
                #[trigger] keys[i],
                f[keys[i]],
                t,
                columns,
            ).contains(e) implies impact::old_declaration_changes(keys, f, t, columns).contains(e) by {
            if i < n {
                assert(rest[i] == keys[i]);
            }
        }
    }
}

proof fn new_changes_are(
    keys: Seq<(Seq<char>, Seq<char>)>,
    f: Map<(Seq<char>, Seq<char>), ResolverDeclarationModel>,
    e: ResolverChangeModel,
)
    ensures
        impact::new_declarations(keys, f).contains(e) <==> (e matches ResolverChangeModel::Added {
            anchor,
            id,
        } && keys.contains((anchor, id)) && !f.dom().contains((anchor, id))),
    decreases keys.len(),
{
    if keys.len() > 0 {
        let rest = keys.drop_last();
        let n = keys.len() - 1;
        let last = keys.last();
        new_changes_are(rest, f, e);
        assert(keys[n] == last);
        let before = impact::new_declarations(rest, f);
        let own = ResolverChangeModel::Added { anchor: last.0, id: last.1 };
        let more = if f.dom().contains(last) {
            Seq::empty()
        } else {
            seq![own]
        };
        assert(impact::new_declarations(keys, f) =~= before + more);
        schema_laws::join_contains(before, more, e);
        if !f.dom().contains(last) {
            assert(more[0] == own);
            assert(more.contains(e) == (e == own));
        }
        assert(keys =~= rest + seq![last]);
        if let ResolverChangeModel::Added { anchor, id } = e {
            schema_laws::join_contains(rest, seq![last], (anchor, id));
            assert(seq![last][0] == last);
            assert(seq![last].contains((anchor, id)) == ((anchor, id) == last));
        }
    }
}

/// The targets of the mappings that are such, in order.
pub open spec fn targets_where(
    s: Seq<MappingModel>,
    p: spec_fn(MappingModel) -> bool,
) -> Seq<Seq<char>>
    decreases s.len(),
{
    if s.len() == 0 {
        Seq::empty()
    } else if p(s.last()) {
        targets_where(s.drop_last(), p).push(s.last().target)
    } else {
        targets_where(s.drop_last(), p)
    }
}

/// The mappings that are such, in order.
pub open spec fn mappings_where(
    s: Seq<MappingModel>,
    p: spec_fn(MappingModel) -> bool,
) -> Seq<MappingModel>
    decreases s.len(),
{
    if s.len() == 0 {
        Seq::empty()
    } else if p(s.last()) {
        mappings_where(s.drop_last(), p).push(s.last())
    } else {
        mappings_where(s.drop_last(), p)
    }
}

proof fn kept_are_where(s: Seq<MappingModel>, p: spec_fn(MappingModel) -> bool)
    ensures
        impact::targets(impact::kept(s, p)) == targets_where(s, p),
        impact::kept(s, p) == mappings_where(s, p),
    decreases s.len(),
{
    if s.len() > 0 {
        kept_are_where(s.drop_last(), p);
    }
    assert(impact::targets(impact::kept(s, p)) =~= targets_where(s, p));
}

/// Whether a mapping feeds its column no more: its field is gone, or is
/// of another kind than the column.
pub open spec fn feeds_no_more(
    m: MappingModel,
    fields: Seq<ResultFieldModel>,
    columns: Map<Seq<char>, ColumnInfoModel>,
) -> bool {
    forall|k: int| #[trigger]
        schema_laws::is_first_field(fields, k, m.result_field) ==> columns.dom().contains(m.target)
            && !schema_laws::are_of_one_kind(fields[k].ty, columns[m.target].ty)
}

/// Whether a resolver changes in this way: added where only the new
/// revision declares it; removed where only the old one does, with the
/// columns it fed that stay; and where both do, in version, input,
/// mapping or result, with the columns that are fed anew or no more and
/// the mappings that feed no more.
pub open spec fn resolver_changes_so(
    from: Seq<ResolverDeclarationModel>,
    to: Seq<ResolverDeclarationModel>,
    columns: Map<Seq<char>, ColumnInfoModel>,
    e: ResolverChangeModel,
) -> bool {
    match e {
        ResolverChangeModel::Added { anchor, id } => (exists|k: int| #[trigger]
            is_last_declaration(to, k, (anchor, id))) && forall|i: int|
            !#[trigger] is_last_declaration(from, i, (anchor, id)),
        ResolverChangeModel::Removed { anchor, id, orphaned_columns } => (exists|i: int| #[trigger]
            is_last_declaration(from, i, (anchor, id)) && orphaned_columns == targets_where(
                from[i].mapping,
                |m: MappingModel| columns.dom().contains(m.target),
            )) && forall|k: int| !#[trigger] is_last_declaration(to, k, (anchor, id)),
        ResolverChangeModel::ResultTypeChanged { anchor, id, broken_mappings } => exists|
            i: int,
            k: int,
        | #[trigger]
            is_last_declaration(from, i, (anchor, id)) && #[trigger] is_last_declaration(
                to,
                k,
                (anchor, id),
            ) && from[i].result_type != to[k].result_type && broken_mappings == mappings_where(
                to[k].mapping,
                |m: MappingModel| feeds_no_more(m, to[k].result_type, columns),
            ),
        ResolverChangeModel::MappingChanged { anchor, id, stale_columns, orphaned_columns } =>
            exists|i: int, k: int| #[trigger]
            is_last_declaration(from, i, (anchor, id)) && #[trigger] is_last_declaration(
                to,
                k,
                (anchor, id),
            ) && from[i].mapping != to[k].mapping && stale_columns == targets_where(
                to[k].mapping,
                |m: MappingModel| !from[i].mapping.contains(m),
            ) && orphaned_columns == targets_where(
                from[i].mapping,
                |m: MappingModel|
                    columns.dom().contains(m.target) && forall|j: int|
                        0 <= j < to[k].mapping.len() ==> (#[trigger] to[k].mapping[j]).target
                            != m.target,
            ),
        ResolverChangeModel::InputChanged { anchor, id } => exists|i: int, k: int| #[trigger]
            is_last_declaration(from, i, (anchor, id)) && #[trigger] is_last_declaration(
                to,
                k,
                (anchor, id),
            ) && from[i].input != to[k].input,
        ResolverChangeModel::VersionChanged { anchor, id, from: x, to: y } => exists|
            i: int,
            k: int,
        | #[trigger]
            is_last_declaration(from, i, (anchor, id)) && #[trigger] is_last_declaration(
                to,
                k,
                (anchor, id),
            ) && from[i].version == x && to[k].version == y && x != y,
    }
}

/// Which resolver a change is about.
spec fn resolver_of(e: ResolverChangeModel) -> (Seq<char>, Seq<char>) {
    match e {
        ResolverChangeModel::Added { anchor, id } => (anchor, id),
        ResolverChangeModel::Removed { anchor, id, .. } => (anchor, id),
        ResolverChangeModel::ResultTypeChanged { anchor, id, .. } => (anchor, id),
        ResolverChangeModel::MappingChanged { anchor, id, .. } => (anchor, id),
        ResolverChangeModel::InputChanged { anchor, id } => (anchor, id),
        ResolverChangeModel::VersionChanged { anchor, id, .. } => (anchor, id),
    }
}

proof fn if_changed_contains(changed: bool, c: ResolverChangeModel, e: ResolverChangeModel)
    ensures
        impact::if_changed(changed, c).contains(e) == (changed && e == c),
{
    if changed {
        assert(impact::if_changed(changed, c)[0] == c);
    }
}

proof fn declaration_changes_are(
    key: (Seq<char>, Seq<char>),
    a: ResolverDeclarationModel,
    t: Map<(Seq<char>, Seq<char>), ResolverDeclarationModel>,
    columns: Map<Seq<char>, ColumnInfoModel>,
    e: ResolverChangeModel,
)
    ensures
        impact::declaration_changes(key, a, t, columns).contains(e) <==> resolver_of(e) == key && match e {
            ResolverChangeModel::Added { .. } => false,
            ResolverChangeModel::Removed { orphaned_columns, .. } => !t.dom().contains(key)
                && orphaned_columns == impact::staying_targets(a.mapping, columns),
            ResolverChangeModel::ResultTypeChanged { broken_mappings: m, .. } => t.dom().contains(
                key,
            ) && t[key].result_type != a.result_type && m == impact::broken_mappings(t[key], columns),
            ResolverChangeModel::MappingChanged { stale_columns, orphaned_columns, .. } =>
                t.dom().contains(key) && t[key].mapping != a.mapping && stale_columns
                == impact::stale_targets(a.mapping, t[key].mapping) && orphaned_columns == impact::orphaned_targets(
                a.mapping,
                t[key].mapping,
                columns,
            ),
            ResolverChangeModel::InputChanged { .. } => t.dom().contains(key) && t[key].input
                != a.input,
            ResolverChangeModel::VersionChanged { from, to, .. } => t.dom().contains(key)
                && t[key].version != a.version && from == a.version && to == t[key].version,
        },
{
    let (anchor, id) = key;
    if t.dom().contains(key) {
        let b = t[key];
        let c1 = ResolverChangeModel::ResultTypeChanged {
            anchor,
            id,
            broken_mappings: impact::broken_mappings(b, columns),
        };
        let c2 = ResolverChangeModel::MappingChanged {
            anchor,
            id,
            stale_columns: impact::stale_targets(a.mapping, b.mapping),
            orphaned_columns: impact::orphaned_targets(a.mapping, b.mapping, columns),
        };
        let c3 = ResolverChangeModel::InputChanged { anchor, id };
        let c4 = ResolverChangeModel::VersionChanged {
            anchor,
            id,
            from: a.version,
            to: b.version,
        };
        let s1 = impact::if_changed(b.result_type != a.result_type, c1);
        let s2 = impact::if_changed(b.mapping != a.mapping, c2);
        let s3 = impact::if_changed(b.input != a.input, c3);
        let s4 = impact::if_changed(b.version != a.version, c4);
        if_changed_contains(b.result_type != a.result_type, c1, e);
        if_changed_contains(b.mapping != a.mapping, c2, e);
        if_changed_contains(b.input != a.input, c3, e);
        if_changed_contains(b.version != a.version, c4, e);
        schema_laws::join_contains(s1, s2, e);
        schema_laws::join_contains(s1 + s2, s3, e);
        schema_laws::join_contains(s1 + s2 + s3, s4, e);
    } else {
        let own = ResolverChangeModel::Removed {
            anchor,
            id,
            orphaned_columns: impact::staying_targets(a.mapping, columns),
        };
        assert(impact::declaration_changes(key, a, t, columns)[0] == own);
        assert(impact::declaration_changes(key, a, t, columns).contains(e) == (e == own));
    }
}

proof fn payloads_agree(
    a: ResolverDeclarationModel,
    b: ResolverDeclarationModel,
    columns: Map<Seq<char>, ColumnInfoModel>,
)
    ensures
        impact::staying_targets(a.mapping, columns) == targets_where(
            a.mapping,
            |m: MappingModel| columns.dom().contains(m.target),
        ),
        impact::broken_mappings(b, columns) == mappings_where(
            b.mapping,
            |m: MappingModel| feeds_no_more(m, b.result_type, columns),
        ),
        impact::stale_targets(a.mapping, b.mapping) == targets_where(
            b.mapping,
            |m: MappingModel| !a.mapping.contains(m),
        ),
        impact::orphaned_targets(a.mapping, b.mapping, columns) == targets_where(
            a.mapping,
            |m: MappingModel|
                columns.dom().contains(m.target) && forall|j: int|
                    0 <= j < b.mapping.len() ==> (#[trigger] b.mapping[j]).target != m.target,
        ),
{
    kept_are_where(a.mapping, |m: MappingModel| columns.dom().contains(m.target));
    kept_are_where(b.mapping, |m: MappingModel| !a.mapping.contains(m));
    let p = |m: MappingModel| impact::mapping_is_broken(m, b.result_type, columns);
    let q = |m: MappingModel| feeds_no_more(m, b.result_type, columns);
    assert forall|m: MappingModel| #[trigger] p(m) == q(m) by {
        schema_laws::first_fields_are_found(b.result_type, m.result_field);
        if let Some(ty) = schema::field_type(b.result_type, m.result_field) {
            let k = choose|k: int| #[trigger] schema_laws::is_first_field(b.result_type, k, m.result_field);
            schema_laws::kinds_agree(b.result_type[k].ty, columns[m.target].ty);
        }
        assert forall|k: int| #[trigger]
            schema_laws::is_first_field(b.result_type, k, m.result_field) implies schema::field_type(
            b.result_type,
            m.result_field,
        ) == Some(b.result_type[k].ty) && b.result_type[k].ty.same_constructor(
            columns[m.target].ty,
        ) == schema_laws::are_of_one_kind(b.result_type[k].ty, columns[m.target].ty) by {
            schema_laws::kinds_agree(b.result_type[k].ty, columns[m.target].ty);
        }
    }
    assert(p =~= q);
    kept_are_where(b.mapping, p);
    let x = |m: MappingModel| !impact::is_fed(b.mapping, m.target) && columns.dom().contains(m.target);
    let y = |m: MappingModel|
        columns.dom().contains(m.target) && forall|j: int|
            0 <= j < b.mapping.len() ==> (#[trigger] b.mapping[j]).target != m.target;
    assert forall|m: MappingModel| #[trigger] x(m) == y(m) by {}
    assert(x =~= y);
    kept_are_where(a.mapping, x);
}

/// What is said of the resolvers is exactly what changes about them.
pub proof fn resolver_changes_are_reported(
    from: SchemaModel,
    to: SchemaModel,
    noms: Map<(Seq<char>, u32), Seq<OptionRowModel>>,
    e: ResolverChangeModel,
)
    ensures
        assess::classified(from, to, noms) matches Ok(report) ==> (report.resolvers.contains(e)
            <==> resolver_changes_so(from.resolvers, to.resolvers, conformance::schema_index(to).columns, e)),
{
    if let Ok(report) = assess::classified(from, to, noms) {
        let columns = conformance::schema_index(to).columns;
        let f = impact::declarations(from.resolvers);
        let t = impact::declarations(to.resolvers);
        let key = resolver_of(e);
        last_declarations(from.resolvers, key);
        last_declarations(to.resolvers, key);
        collections::finite_is_listed::<(GroupId, ResolverId)>(f.dom());
        collections::finite_is_listed::<(GroupId, ResolverId)>(t.dom());
        let fk = collections::key_order::<(GroupId, ResolverId)>(f.dom());
        let tk = collections::key_order::<(GroupId, ResolverId)>(t.dom());
        old_changes_are(fk, f, t, columns, e);
        new_changes_are(tk, f, e);
        schema_laws::join_contains(
            impact::old_declaration_changes(fk, f, t, columns),
            impact::new_declarations(tk, f),
            e,
        );
        assert(fk.contains(key) <==> f.dom().contains(key));
        assert(tk.contains(key) <==> t.dom().contains(key));
        assert forall|i: int| 0 <= i < fk.len() implies (impact::declaration_changes(
            #[trigger] fk[i],
            f[fk[i]],
            t,
            columns,
        ).contains(e) ==> fk[i] == key) by {
            declaration_changes_are(fk[i], f[fk[i]], t, columns, e);
        }
        if f.dom().contains(key) {
            let i = choose|i: int| 0 <= i < fk.len() && fk[i] == key;
            assert(fk[i] == key);
            declaration_changes_are(key, f[key], t, columns, e);
            payloads_agree(f[key], t[key], columns);
        }
    }
}

/// Whether a group is the last with its id that comes from a block.
pub open spec fn is_last_included(s: Seq<PlacedModel>, i: int, id: Seq<char>) -> bool {
    &&& schema_laws::is_group_at(s, i, id)
    &&& s[i].shell->Group_0.included_from is Some
    &&& forall|j: int|
        i < j && #[trigger] schema_laws::is_group_at(s, j, id) ==> s[j].shell->Group_0.included_from is None
}

proof fn last_included(s: Seq<PlacedModel>, id: Seq<char>)
    ensures
        impact::blocks_among(s).dom().finite(),
        impact::blocks_among(s).dom().contains(id) <==> exists|i: int| #[trigger]
            is_last_included(s, i, id),
        forall|i: int| #[trigger]
            is_last_included(s, i, id) ==> Some(impact::blocks_among(s)[id])
                == s[i].shell->Group_0.included_from,
    decreases s.len(),
{
    if s.len() > 0 {
        let rest = s.drop_last();
        let n = s.len() - 1;
        last_included(rest, id);
        assert(s[n] == s.last());
        let hits = schema_laws::is_group_at(s, n, id) && s[n].shell->Group_0.included_from is Some;
        assert forall|j: int| j != n implies #[trigger] schema_laws::is_group_at(s, j, id) == schema_laws::is_group_at(
            rest,
            j,
            id,
        ) by {
            if 0 <= j < n {
                assert(rest[j] == s[j]);
            }
        }
        assert forall|i: int| i != n implies #[trigger] is_last_included(s, i, id) == (
        is_last_included(rest, i, id) && !hits) by {
            if is_last_included(s, i, id) {
                assert(rest[i] == s[i]);
                assert(schema_laws::is_group_at(rest, i, id));
                assert forall|j: int|
                    i < j && #[trigger] schema_laws::is_group_at(rest, j, id) implies rest[j].shell->Group_0.included_from is None by {
                    assert(schema_laws::is_group_at(s, j, id));
                    assert(rest[j] == s[j]);
                }
            }
            if is_last_included(rest, i, id) && !hits {
                assert(rest[i] == s[i]);
                assert(schema_laws::is_group_at(s, i, id));
                assert forall|j: int|
                    i < j && #[trigger] schema_laws::is_group_at(s, j, id) implies s[j].shell->Group_0.included_from is None by {
                    if j < n {
                        assert(schema_laws::is_group_at(rest, j, id));
                        assert(rest[j] == s[j]);
                    }
                }
            }
        }
        assert(is_last_included(s, n, id) == hits);
        if impact::blocks_among(rest).dom().contains(id) && !hits {
            let i = choose|i: int| #[trigger] is_last_included(rest, i, id);
            assert(is_last_included(s, i, id));
        }
    }
}

/// The block that a group of a schema comes from, where it comes from one.
pub open spec fn comes_from(s: SchemaModel, group: Seq<char>, b: BlockRefModel) -> bool {
    exists|i: int| #[trigger]
        is_last_included(schema::schema_elements(s), i, group) && schema::schema_elements(
            s,
        )[i].shell->Group_0.included_from == Some(b)
}

/// Whether a schema has a group.
pub open spec fn has_the_group(s: SchemaModel, group: Seq<char>) -> bool {
    exists|i: int| #[trigger] schema_laws::is_group_at(schema::schema_elements(s), i, group)
}

/// Whether the tie between a group and a block changes in this way.
pub open spec fn block_changes_so(
    from: SchemaModel,
    to: SchemaModel,
    e: BlockChangeModel,
) -> bool {
    match e {
        BlockChangeModel::Included { group, block } => comes_from(to, group, block)
            && !has_the_group(from, group),
        BlockChangeModel::Attached { group, now } => comes_from(to, group, now) && has_the_group(
            from,
            group,
        ) && forall|b: BlockRefModel| !#[trigger] comes_from(from, group, b),
        BlockChangeModel::Removed { group, block } => comes_from(from, group, block)
            && !has_the_group(to, group),
        BlockChangeModel::Detached { group, was } => comes_from(from, group, was) && has_the_group(
            to,
            group,
        ) && forall|b: BlockRefModel| !#[trigger] comes_from(to, group, b),
        BlockChangeModel::Bumped { group, from: x, to: y } => comes_from(from, group, x)
            && comes_from(to, group, y) && x != y,
    }
}

spec fn group_of_change(e: BlockChangeModel) -> Seq<char> {
    match e {
        BlockChangeModel::Included { group, .. } => group,
        BlockChangeModel::Attached { group, .. } => group,
        BlockChangeModel::Removed { group, .. } => group,
        BlockChangeModel::Detached { group, .. } => group,
        BlockChangeModel::Bumped { group, .. } => group,
    }
}

proof fn old_blocks_are(
    keys: Seq<Seq<char>>,
    before: Map<Seq<char>, BlockRefModel>,
    after: Map<Seq<char>, BlockRefModel>,
    groups: Map<Seq<char>, GroupInfoModel>,
    e: BlockChangeModel,
)
    ensures
        impact::old_block_changes(keys, before, after, groups).contains(e) <==> keys.contains(
            group_of_change(e),
        ) && impact::block_change(
            group_of_change(e),
            before[group_of_change(e)],
            after,
            groups,
        ).contains(e),
    decreases keys.len(),
{
    if keys.len() > 0 {
        let rest = keys.drop_last();
        let last = keys.last();
        old_blocks_are(rest, before, after, groups, e);
        let own = impact::block_change(last, before[last], after, groups);
        schema_laws::join_contains(impact::old_block_changes(rest, before, after, groups), own, e);
        assert(keys =~= rest + seq![last]);
        schema_laws::join_contains(rest, seq![last], group_of_change(e));
        assert(seq![last][0] == last);
        assert(seq![last].contains(group_of_change(e)) == (group_of_change(e) == last));
        if own.len() > 0 {
            assert(own.contains(own[0]));
            assert(own.contains(e) ==> e == own[0]);
            assert(group_of_change(own[0]) == last);
        }
    }
}

proof fn new_blocks_are(
    keys: Seq<Seq<char>>,
    before: Map<Seq<char>, BlockRefModel>,
    after: Map<Seq<char>, BlockRefModel>,
    groups: Map<Seq<char>, GroupInfoModel>,
    e: BlockChangeModel,
)
    ensures
        impact::new_blocks(keys, before, after, groups).contains(e) <==> {
            let group = group_of_change(e);
            &&& keys.contains(group)
            &&& !before.dom().contains(group)
            &&& if groups.dom().contains(group) {
                e == (BlockChangeModel::Attached { group, now: after[group] })
            } else {
                e == (BlockChangeModel::Included { group, block: after[group] })
            }
        },
    decreases keys.len(),
{
    if keys.len() > 0 {
        let rest = keys.drop_last();
        let last = keys.last();
        new_blocks_are(rest, before, after, groups, e);
        let own = if groups.dom().contains(last) {
            BlockChangeModel::Attached { group: last, now: after[last] }
        } else {
            BlockChangeModel::Included { group: last, block: after[last] }
        };
        let more = if before.dom().contains(last) {
            Seq::empty()
        } else {
            seq![own]
        };
        assert(impact::new_blocks(keys, before, after, groups) =~= impact::new_blocks(
            rest,
            before,
            after,
            groups,
        ) + more);
        schema_laws::join_contains(impact::new_blocks(rest, before, after, groups), more, e);
        assert(keys =~= rest + seq![last]);
        schema_laws::join_contains(rest, seq![last], group_of_change(e));
        assert(seq![last][0] == last);
        assert(seq![last].contains(group_of_change(e)) == (group_of_change(e) == last));
        if !before.dom().contains(last) {
            assert(more[0] == own);
            assert(more.contains(e) == (e == own));
        }
    }
}

proof fn groups_are_indexed(s: SchemaModel, group: Seq<char>)
    ensures
        conformance::schema_index(s).groups.dom().contains(group) <==> has_the_group(s, group),
{
    let all = schema::schema_elements(s);
    schema_laws::the_index_says_what_the_tree_says(s, group);
    if conformance::schema_index(s).groups.dom().contains(group) {
        let i = choose|i: int| #[trigger] schema_laws::is_last_group(all, i, group);
        assert(schema_laws::is_group_at(all, i, group));
    }
    if has_the_group(s, group) {
        let i = choose|i: int| #[trigger] schema_laws::is_group_at(all, i, group);
        some_group_is_last(all, group, i);
    }
}

proof fn some_group_is_last(s: Seq<PlacedModel>, id: Seq<char>, i: int)
    requires
        schema_laws::is_group_at(s, i, id),
    ensures
        exists|k: int| #[trigger] schema_laws::is_last_group(s, k, id),
    decreases s.len() - i,
{
    if exists|j: int| i < j && #[trigger] schema_laws::is_group_at(s, j, id) {
        let j = choose|j: int| i < j && #[trigger] schema_laws::is_group_at(s, j, id);
        some_group_is_last(s, id, j);
    } else {
        assert forall|j: int| i < j < s.len() implies !((
        #[trigger] s[j]).shell matches ShellModel::Group(g) && g.id == id) by {
            assert(!schema_laws::is_group_at(s, j, id));
        }
        assert(schema_laws::is_last_group(s, i, id));
    }
}

/// What is said of the blocks is exactly what changes about them: a
/// group from a block is included or gone, comes from another block or
/// version, is detached, or is attached.
pub proof fn block_changes_are_reported(
    from: SchemaModel,
    to: SchemaModel,
    noms: Map<(Seq<char>, u32), Seq<OptionRowModel>>,
    e: BlockChangeModel,
)
    ensures
        assess::classified(from, to, noms) matches Ok(report) ==> (report.blocks.contains(e)
            <==> block_changes_so(from, to, e)),
{
    if let Ok(report) = assess::classified(from, to, noms) {
        let before = impact::blocks_among(schema::schema_elements(from));
        let after = impact::blocks_among(schema::schema_elements(to));
        let group = group_of_change(e);
        last_included(schema::schema_elements(from), group);
        last_included(schema::schema_elements(to), group);
        groups_are_indexed(from, group);
        groups_are_indexed(to, group);
        collections::finite_is_listed::<GroupId>(before.dom());
        collections::finite_is_listed::<GroupId>(after.dom());
        let bk = collections::key_order::<GroupId>(before.dom());
        let ak = collections::key_order::<GroupId>(after.dom());
        old_blocks_are(bk, before, after, conformance::schema_index(to).groups, e);
        new_blocks_are(ak, before, after, conformance::schema_index(from).groups, e);
        schema_laws::join_contains(
            impact::old_block_changes(bk, before, after, conformance::schema_index(to).groups),
            impact::new_blocks(ak, before, after, conformance::schema_index(from).groups),
            e,
        );
        assert(bk.contains(group) <==> before.dom().contains(group));
        assert(ak.contains(group) <==> after.dom().contains(group));
        ties_are_mapped(from, group);
        ties_are_mapped(to, group);
        let own = impact::block_change(group, before[group], after, conformance::schema_index(to).groups);
        if own.len() > 0 {
            assert(own.contains(own[0]));
            assert(own.contains(e) ==> e == own[0]);
        }
    }
}

proof fn ties_are_mapped(s: SchemaModel, group: Seq<char>)
    ensures
        ({
            let m = impact::blocks_among(schema::schema_elements(s));
            &&& forall|b: BlockRefModel| #[trigger]
                comes_from(s, group, b) <==> m.dom().contains(group) && m[group] == b
            &&& m.dom().contains(group) ==> comes_from(s, group, m[group]) && has_the_group(
                s,
                group,
            )
        }),
{
    let all = schema::schema_elements(s);
    let m = impact::blocks_among(all);
    last_included(all, group);
    if m.dom().contains(group) {
        let i = choose|i: int| #[trigger] is_last_included(all, i, group);
        assert(schema_laws::is_group_at(all, i, group));
        assert(comes_from(s, group, m[group]));
    }
}

/// A rule that the new revision accepts is not reported. One that it
/// refuses is, by its name, with one reason for each error, and as broken
/// before where the old revision refuses it too.
pub proof fn refused_rules_are_reported(
    from: SchemaModel,
    to: SchemaModel,
    noms: Map<(Seq<char>, u32), Seq<OptionRowModel>>,
    rules: Seq<RuleRefModel>,
    rule: RuleRefModel,
)
    ensures
        assess::classified_with_rules(from, to, noms, Seq::empty()) matches Ok(r) ==> r.rules.len() == 0,
        assess::classified_with_rules(from, to, noms, rules) matches Ok(r) ==> {
            let errors = typecheck::rule_errors(rule.expr, to, noms, rule.scope);
            &&& assess::classified_with_rules(from, to, noms, rules.push(rule)) matches Ok(more)
            &&& more.columns == r.columns && more.resolvers == r.resolvers && more.blocks
                == r.blocks
            &&& if errors.len() == 0 {
                more.rules == r.rules
            } else {
                &&& more.rules.len() == r.rules.len() + 1
                &&& more.rules.drop_last() == r.rules
                &&& more.rules.last().name == rule.name
                &&& more.rules.last().kinds.len() == errors.len()
                &&& more.rules.last().already_broken <==> typecheck::rule_errors(
                    rule.expr,
                    from,
                    noms,
                    rule.scope,
                ).len() > 0
                &&& forall|i: int|
                    0 <= i < errors.len() ==> breaks_so(
                        #[trigger] more.rules.last().kinds[i],
                        errors[i],
                        conformance::schema_index(from).columns.dom(),
                    )
            }
        },
{
    assert(rules.push(rule).drop_last() =~= rules);
    if let Ok(r) = assess::classified_with_rules(from, to, noms, rules) {
        if let Ok(more) = assess::classified_with_rules(from, to, noms, rules.push(rule)) {
            if typecheck::rule_errors(rule.expr, to, noms, rule.scope).len() > 0 {
                assert(more.rules.drop_last() =~= r.rules);
            }
        }
    }
}

/// Whether a reason is that of an error: a source that is gone where the
/// old revision had it, one that no longer fits, an option, a field or a
/// resolver that is gone, or the error itself.
pub open spec fn breaks_so(k: BreakKindModel, e: TypeErrorModel, known: Set<Seq<char>>) -> bool {
    match k {
        BreakKindModel::SourceRemoved(c) => e == TypeErrorModel::UnknownColumn(c)
            && known.contains(c),
        BreakKindModel::SourceRetyped(c) => {
            ||| e == TypeErrorModel::AtomNotAllowed(c)
            ||| e == TypeErrorModel::TypeMismatch(c)
            ||| e == TypeErrorModel::UnitMismatch(c)
            ||| e == TypeErrorModel::ScopeViolation(c)
        },
        BreakKindModel::OptionRemoved(c, o) => e == TypeErrorModel::UnknownOption(c, o),
        BreakKindModel::FieldRemoved(c, f) => e == TypeErrorModel::UnknownField(c, f),
        BreakKindModel::ResolverRemoved(g) => e == TypeErrorModel::NoResolverAnchored(g),
        BreakKindModel::Other(x) => e == x && match e {
            TypeErrorModel::UnknownColumn(c) => !known.contains(c),
            TypeErrorModel::ColumnComparisonNotEnabled => true,
            TypeErrorModel::UnknownNomenclature(_) => true,
            TypeErrorModel::TooDeep(_) => true,
            _ => false,
        },
    }
}

} // verus!
