//! What a schema says, and when something is wrong with it.

use vstd::prelude::*;
use crate::conformance;
use crate::schema;
use crate::conformance::{ColumnInfoModel, GroupInfoModel};
use crate::schema::{
    Column, ColumnModel, ElementModel, Group, GroupModel, GroupShellModel, MappingModel,
    PlacedModel, ResolverDeclarationModel, ResultFieldModel, ScalarTypeModel, SchemaErrorModel,
    SchemaModel, ShellModel,
};

verus! {

/// What stands in a join stands in one of its parts.
pub proof fn join_contains<A>(a: Seq<A>, b: Seq<A>, x: A)
    ensures
        (a + b).contains(x) <==> a.contains(x) || b.contains(x),
{
    let s = a + b;
    if s.contains(x) {
        let i = choose|i: int| 0 <= i < s.len() && s[i] == x;
        if i < a.len() {
            assert(a[i] == x);
        } else {
            assert(b[i - a.len()] == x);
        }
    }
    if a.contains(x) {
        let i = choose|i: int| 0 <= i < a.len() && a[i] == x;
        assert(s[i] == x);
    }
    if b.contains(x) {
        let i = choose|i: int| 0 <= i < b.len() && b[i] == x;
        assert(s[a.len() + i] == x);
    }
}

/// An element as it stands when its whole tree is moved into a group.
pub open spec fn moved_into(
    p: PlacedModel,
    group: Seq<char>,
    prefix: Seq<Seq<char>>,
) -> PlacedModel {
    PlacedModel {
        shell: p.shell,
        parent: match p.parent {
            Some(g) => Some(g),
            None => Some(group),
        },
        scope: prefix + p.scope,
        within: prefix + p.within,
    }
}

proof fn trees_move(
    elements: Seq<ElementModel>,
    parent: Option<Seq<char>>,
    group: Seq<char>,
    prefix: Seq<Seq<char>>,
    scope: Seq<Seq<char>>,
)
    ensures
        schema::placed(
            elements,
            match parent {
                Some(g) => Some(g),
                None => Some(group),
            },
            prefix + scope,
        ) == Seq::new(
            schema::placed(elements, parent, scope).len(),
            |i: int| moved_into(schema::placed(elements, parent, scope)[i], group, prefix),
        ),
    decreases elements,
{
    let up = match parent {
        Some(g) => Some(g),
        None => Some(group),
    };
    let here = schema::placed(elements, parent, scope);
    let there = schema::placed(elements, up, prefix + scope);
    let moved = Seq::new(here.len(), |i: int| moved_into(here[i], group, prefix));
    if elements.len() > 0 {
        let rest = elements.drop_last();
        trees_move(rest, parent, group, prefix, scope);
        tree_moves(elements.last(), parent, group, prefix, scope);
    }
    assert(there =~= moved);
}

proof fn tree_moves(
    e: ElementModel,
    parent: Option<Seq<char>>,
    group: Seq<char>,
    prefix: Seq<Seq<char>>,
    scope: Seq<Seq<char>>,
)
    ensures
        schema::placed_one(
            e,
            match parent {
                Some(g) => Some(g),
                None => Some(group),
            },
            prefix + scope,
        ) == Seq::new(
            schema::placed_one(e, parent, scope).len(),
            |i: int| moved_into(schema::placed_one(e, parent, scope)[i], group, prefix),
        ),
    decreases e,
{
    let up = match parent {
        Some(g) => Some(g),
        None => Some(group),
    };
    let here = schema::placed_one(e, parent, scope);
    let there = schema::placed_one(e, up, prefix + scope);
    let moved = Seq::new(here.len(), |i: int| moved_into(here[i], group, prefix));
    if let ElementModel::Group(g) = e {
        let inner = schema::inner_scope(g.cardinality, g.id, scope);
        assert(schema::inner_scope(g.cardinality, g.id, prefix + scope) =~= prefix + inner);
        trees_move(g.children, Some(g.id), group, prefix, inner);
    }
    assert(there =~= moved);
}

/// A schema with one more column at its end has the same elements and
/// this column, outside any group.
pub proof fn a_column_is_one_element(s: SchemaModel, c: ColumnModel)
    ensures
        schema::schema_elements(SchemaModel { root: s.root.push(ElementModel::Column(c)), ..s })
            == schema::schema_elements(s).push(
            PlacedModel {
                shell: ShellModel::Column(c),
                parent: None,
                scope: Seq::empty(),
                within: Seq::empty(),
            },
        ),
{
    let more = s.root.push(ElementModel::Column(c));
    assert(more.drop_last() =~= s.root);
    assert(schema::placed(more, None, Seq::empty()) =~= schema::placed(s.root, None, Seq::empty()) + schema::placed_one(
        ElementModel::Column(c),
        None,
        Seq::empty(),
    ));
    assert(schema::schema_elements(SchemaModel { root: more, ..s }) =~= schema::schema_elements(s).push(
        PlacedModel {
            shell: ShellModel::Column(c),
            parent: None,
            scope: Seq::empty(),
            within: Seq::empty(),
        },
    ));
}

/// A schema with one more group at its end has the same elements, then
/// the group, then what the group holds: those of a schema of its own,
/// inside the group, and one scope deeper where the group is of many.
pub proof fn a_group_holds_its_elements(s: SchemaModel, g: GroupModel)
    ensures
        ({
            let more = SchemaModel { root: s.root.push(ElementModel::Group(g)), ..s };
            let own = schema::schema_elements(
                SchemaModel { root: g.children, resolvers: Seq::empty() },
            );
            let prefix = if g.cardinality is Many {
                seq![g.id]
            } else {
                Seq::empty()
            };
            schema::schema_elements(more) == schema::schema_elements(s).push(
                PlacedModel {
                    shell: ShellModel::Group(
                        GroupShellModel {
                            id: g.id,
                            label: g.label,
                            cardinality: g.cardinality,
                            included_from: g.included_from,
                        },
                    ),
                    parent: None,
                    scope: Seq::empty(),
                    within: prefix,
                },
            ) + Seq::new(own.len(), |i: int| moved_into(own[i], g.id, prefix))
        }),
{
    let more = s.root.push(ElementModel::Group(g));
    let prefix = if g.cardinality is Many {
        seq![g.id]
    } else {
        Seq::<Seq<char>>::empty()
    };
    assert(more.drop_last() =~= s.root);
    assert(schema::inner_scope(g.cardinality, g.id, Seq::empty()) =~= prefix);
    assert(prefix + Seq::<Seq<char>>::empty() =~= prefix);
    trees_move(g.children, None, g.id, prefix, Seq::empty());
    let own = schema::schema_elements(SchemaModel { root: g.children, resolvers: Seq::empty() });
    let all = schema::placed(more, None, Seq::empty());
    assert(all =~= schema::placed(s.root, None, Seq::empty()) + schema::placed_one(
        ElementModel::Group(g),
        None,
        Seq::empty(),
    ));
    assert(schema::schema_elements(SchemaModel { root: more, ..s }) =~= schema::schema_elements(s).push(
        PlacedModel {
            shell: ShellModel::Group(schema::shell_of(g)),
            parent: None,
            scope: Seq::empty(),
            within: prefix,
        },
    ) + Seq::new(own.len(), |i: int| moved_into(own[i], g.id, prefix)));
}

/// Whether an element is the last column with its id.
pub open spec fn is_last_column(s: Seq<PlacedModel>, i: int, id: Seq<char>) -> bool {
    &&& 0 <= i < s.len()
    &&& s[i].shell matches ShellModel::Column(c) && c.id == id
    &&& forall|j: int|
        i < j < s.len() ==> !((#[trigger] s[j]).shell matches ShellModel::Column(c) && c.id == id)
}

/// Whether an element is the last group with its id.
pub open spec fn is_last_group(s: Seq<PlacedModel>, i: int, id: Seq<char>) -> bool {
    &&& 0 <= i < s.len()
    &&& s[i].shell matches ShellModel::Group(g) && g.id == id
    &&& forall|j: int|
        i < j < s.len() ==> !((#[trigger] s[j]).shell matches ShellModel::Group(g) && g.id == id)
}

proof fn last_elements_are_indexed(s: Seq<PlacedModel>, id: Seq<char>)
    ensures
        conformance::index_of(s).columns.dom().contains(id) <==> exists|i: int| #[trigger]
            is_last_column(s, i, id),
        forall|i: int| #[trigger]
            is_last_column(s, i, id) ==> (s[i].shell matches ShellModel::Column(c)
                && conformance::index_of(s).columns[id] == (ColumnInfoModel {
                ty: c.ty,
                arity: c.arity,
                scope: s[i].scope,
            })),
        conformance::index_of(s).groups.dom().contains(id) <==> exists|i: int| #[trigger]
            is_last_group(s, i, id),
        forall|i: int| #[trigger]
            is_last_group(s, i, id) ==> (s[i].shell matches ShellModel::Group(g)
                && conformance::index_of(s).groups[id] == (GroupInfoModel {
                cardinality: g.cardinality,
                parent_scope: s[i].scope,
            })),
    decreases s.len(),
{
    if s.len() > 0 {
        let rest = s.drop_last();
        let n = s.len() - 1;
        last_elements_are_indexed(rest, id);
        assert(s[n] == s.last());
        let hits_column = s[n].shell matches ShellModel::Column(c) && c.id == id;
        let hits_group = s[n].shell matches ShellModel::Group(g) && g.id == id;
        assert forall|i: int| i != n implies #[trigger] is_last_column(s, i, id) == (is_last_column(
            rest,
            i,
            id,
        ) && !hits_column) by {
            if is_last_column(s, i, id) {
                assert forall|j: int| i < j < rest.len() implies !((
                #[trigger] rest[j]).shell matches ShellModel::Column(c) && c.id == id) by {
                    assert(rest[j] == s[j]);
                }
                assert(!(s[n].shell matches ShellModel::Column(c) && c.id == id));
                assert(rest[i] == s[i]);
            }
            if is_last_column(rest, i, id) && !hits_column {
                assert(rest[i] == s[i]);
                assert forall|j: int| i < j < s.len() implies !((
                #[trigger] s[j]).shell matches ShellModel::Column(c) && c.id == id) by {
                    if j < n {
                        assert(rest[j] == s[j]);
                    }
                }
            }
        }
        assert forall|i: int| i != n implies #[trigger] is_last_group(s, i, id) == (is_last_group(
            rest,
            i,
            id,
        ) && !hits_group) by {
            if is_last_group(s, i, id) {
                assert forall|j: int| i < j < rest.len() implies !((
                #[trigger] rest[j]).shell matches ShellModel::Group(g) && g.id == id) by {
                    assert(rest[j] == s[j]);
                }
                assert(!(s[n].shell matches ShellModel::Group(g) && g.id == id));
                assert(rest[i] == s[i]);
            }
            if is_last_group(rest, i, id) && !hits_group {
                assert(rest[i] == s[i]);
                assert forall|j: int| i < j < s.len() implies !((
                #[trigger] s[j]).shell matches ShellModel::Group(g) && g.id == id) by {
                    if j < n {
                        assert(rest[j] == s[j]);
                    }
                }
            }
        }
        assert(is_last_column(s, n, id) == hits_column);
        assert(is_last_group(s, n, id) == hits_group);
        if conformance::index_of(rest).columns.dom().contains(id) && !hits_column {
            let i = choose|i: int| #[trigger] is_last_column(rest, i, id);
            assert(is_last_column(s, i, id));
        }
        if conformance::index_of(rest).groups.dom().contains(id) && !hits_group {
            let i = choose|i: int| #[trigger] is_last_group(rest, i, id);
            assert(is_last_group(s, i, id));
        }
    }
}

/// A schema's index has the columns and groups that stand in its tree,
/// each with what the tree says of it: type, arity or cardinality, and
/// the groups of many around it. Of two with one id the later counts.
pub proof fn the_index_says_what_the_tree_says(s: SchemaModel, id: Seq<char>)
    ensures
        ({
            let all = schema::schema_elements(s);
            let index = conformance::schema_index(s);
            &&& index.columns.dom().contains(id) <==> exists|i: int| #[trigger]
                is_last_column(all, i, id)
            &&& forall|i: int| #[trigger]
                is_last_column(all, i, id) ==> (all[i].shell matches ShellModel::Column(c)
                    && index.columns[id] == (ColumnInfoModel {
                    ty: c.ty,
                    arity: c.arity,
                    scope: all[i].scope,
                }))
            &&& index.groups.dom().contains(id) <==> exists|i: int| #[trigger]
                is_last_group(all, i, id)
            &&& forall|i: int| #[trigger]
                is_last_group(all, i, id) ==> (all[i].shell matches ShellModel::Group(g)
                    && index.groups[id] == (GroupInfoModel {
                    cardinality: g.cardinality,
                    parent_scope: all[i].scope,
                }))
        }),
{
    last_elements_are_indexed(schema::schema_elements(s), id);
}

/// Whether an element is a column with this id.
pub open spec fn is_column_at(s: Seq<PlacedModel>, i: int, id: Seq<char>) -> bool {
    0 <= i < s.len() && (s[i].shell matches ShellModel::Column(c) && c.id == id)
}

/// Whether an element is a group with this id.
pub open spec fn is_group_at(s: Seq<PlacedModel>, i: int, id: Seq<char>) -> bool {
    0 <= i < s.len() && (s[i].shell matches ShellModel::Group(g) && g.id == id)
}

/// Whether two types are of one kind, whatever their units, options or
/// constraints.
pub open spec fn are_of_one_kind(a: ScalarTypeModel, b: ScalarTypeModel) -> bool {
    match a {
        ScalarTypeModel::Text => b is Text,
        ScalarTypeModel::Boolean => b is Boolean,
        ScalarTypeModel::Integer(_) => b is Integer,
        ScalarTypeModel::Decimal(_) => b is Decimal,
        ScalarTypeModel::Date => b is Date,
        ScalarTypeModel::Datetime => b is Datetime,
        ScalarTypeModel::Enum(_) => b is Enum,
        ScalarTypeModel::Attachment(_) => b is Attachment,
        ScalarTypeModel::Geometry => b is Geometry,
    }
}

/// Whether this is the first field of a result with its name.
pub open spec fn is_first_field(fields: Seq<ResultFieldModel>, k: int, name: Seq<char>) -> bool {
    &&& 0 <= k < fields.len()
    &&& fields[k].name == name
    &&& forall|j: int| 0 <= j < k ==> (#[trigger] fields[j]).name != name
}

/// Whether this is the first column with its id.
pub open spec fn is_first_column(s: Seq<PlacedModel>, i: int, id: Seq<char>) -> bool {
    &&& is_column_at(s, i, id)
    &&& forall|j: int| 0 <= j < i ==> !#[trigger] is_column_at(s, j, id)
}

/// Whether something is wrong with a schema in this way.
pub open spec fn is_at_fault(schema: SchemaModel, max: usize, e: SchemaErrorModel) -> bool {
    let s = schema::schema_elements(schema);
    match e {
        SchemaErrorModel::DuplicateColumnId(id) => exists|i: int, j: int|
            i < j && #[trigger] is_column_at(s, i, id) && #[trigger] is_column_at(s, j, id),
        SchemaErrorModel::DuplicateGroupId(id) => exists|i: int, j: int|
            i < j && #[trigger] is_group_at(s, i, id) && #[trigger] is_group_at(s, j, id),
        SchemaErrorModel::DepthExceeded { group, depth, max: m } => m == max && exists|i: int|
            #[trigger] is_group_at(s, i, group) && s[i].within.len() > max
                && s[i].within.len() as usize == depth,
        SchemaErrorModel::UnknownInputColumn { resolver, column } => exists|r: int, k: int|
            {
                &&& 0 <= r < schema.resolvers.len()
                &&& 0 <= k < schema.resolvers[r].input.len()
                &&& schema.resolvers[r].id == resolver
                &&& (#[trigger] schema.resolvers[r].input[k]).0 == column
                &&& forall|i: int| !#[trigger] is_column_at(s, i, column)
            },
        SchemaErrorModel::UnknownMappingField { resolver, field } => exists|r: int, k: int|
            {
                &&& 0 <= r < schema.resolvers.len()
                &&& 0 <= k < schema.resolvers[r].mapping.len()
                &&& schema.resolvers[r].id == resolver
                &&& (#[trigger] schema.resolvers[r].mapping[k]).result_field == field
                &&& forall|f: int| !#[trigger] is_first_field(schema.resolvers[r].result_type, f, field)
            },
        SchemaErrorModel::UnknownMappingTarget { resolver, target } => exists|r: int, k: int|
            {
                &&& 0 <= r < schema.resolvers.len()
                &&& 0 <= k < schema.resolvers[r].mapping.len()
                &&& schema.resolvers[r].id == resolver
                &&& (#[trigger] schema.resolvers[r].mapping[k]).target == target
                &&& exists|f: int| #[trigger] is_first_field(
                    schema.resolvers[r].result_type,
                    f,
                    schema.resolvers[r].mapping[k].result_field,
                )
                &&& forall|i: int| !#[trigger] is_column_at(s, i, target)
            },
        SchemaErrorModel::MappingTypeMismatch { resolver, field, target } => exists|
            r: int,
            k: int,
            f: int,
            i: int,
        |
            {
                &&& 0 <= r < schema.resolvers.len()
                &&& 0 <= k < schema.resolvers[r].mapping.len()
                &&& schema.resolvers[r].id == resolver
                &&& (#[trigger] schema.resolvers[r].mapping[k]).target == target
                &&& schema.resolvers[r].mapping[k].result_field == field
                &&& #[trigger] is_first_field(schema.resolvers[r].result_type, f, field)
                &&& #[trigger] is_first_column(s, i, target)
                &&& s[i].shell matches ShellModel::Column(c) && !are_of_one_kind(
                    schema.resolvers[r].result_type[f].ty,
                    c.ty,
                )
            },
    }
}

proof fn structure_faults(s: Seq<PlacedModel>, max: usize, e: SchemaErrorModel)
    ensures
        schema::structure_errors(s, max).contains(e) <==> exists|n: int|
            0 <= n < s.len() && schema::element_errors(s.take(n), #[trigger] s[n], max).contains(e),
    decreases s.len(),
{
    if s.len() > 0 {
        let rest = s.drop_last();
        let last = s.len() - 1;
        structure_faults(rest, max, e);
        assert(s[last] == s.last());
        assert(s.take(last) =~= rest);
        join_contains(schema::structure_errors(rest, max), schema::element_errors(rest, s.last(), max), e);
        if schema::structure_errors(rest, max).contains(e) {
            let n = choose|n: int|
                0 <= n < rest.len() && schema::element_errors(rest.take(n), #[trigger] rest[n], max).contains(
                    e,
                );
            assert(rest.take(n) =~= s.take(n));
            assert(schema::element_errors(s.take(n), s[n], max).contains(e));
        }
        assert forall|n: int|
            0 <= n < s.len() && schema::element_errors(s.take(n), #[trigger] s[n], max).contains(
                e,
            ) implies schema::structure_errors(s, max).contains(e) by {
            if n < last {
                assert(rest.take(n) =~= s.take(n));
                assert(rest[n] == s[n]);
            }
        }
    }
}

proof fn columns_are_found(s: Seq<PlacedModel>, id: Seq<char>)
    ensures
        schema::has_column(s, id) <==> exists|i: int| #[trigger] is_column_at(s, i, id),
        schema::has_group(s, id) <==> exists|i: int| #[trigger] is_group_at(s, i, id),
{
    if schema::has_column(s, id) {
        let i = choose|i: int| 0 <= i < s.len() && (#[trigger] s[i]).shell.is_column(id);
        assert(is_column_at(s, i, id));
    }
    if schema::has_group(s, id) {
        let i = choose|i: int| 0 <= i < s.len() && (#[trigger] s[i]).shell.is_group(id);
        assert(is_group_at(s, i, id));
    }
    assert forall|i: int| #[trigger] is_column_at(s, i, id) implies schema::has_column(s, id) by {
        assert(s[i].shell.is_column(id));
    }
    assert forall|i: int| #[trigger] is_group_at(s, i, id) implies schema::has_group(s, id) by {
        assert(s[i].shell.is_group(id));
    }
}

proof fn element_faults(s: Seq<PlacedModel>, n: int, max: usize, e: SchemaErrorModel)
    requires
        0 <= n < s.len(),
    ensures
        schema::element_errors(s.take(n), s[n], max).contains(e) == is_faulty_at(s, n, max, e),
{
    let before = s.take(n);
    let p = s[n];
    match p.shell {
        ShellModel::Column(c) => {
            columns_are_found(before, c.id);
            assert forall|i: int| #[trigger] is_column_at(before, i, c.id) == (i < n
                && is_column_at(s, i, c.id)) by {}
            if exists|i: int| i < n && #[trigger] is_column_at(s, i, c.id) {
                let i = choose|i: int| i < n && #[trigger] is_column_at(s, i, c.id);
                assert(is_column_at(before, i, c.id));
            }
            let out = seq![SchemaErrorModel::DuplicateColumnId(c.id)];
            assert(out[0] == SchemaErrorModel::DuplicateColumnId(c.id));
            if schema::has_column(before, c.id) {
                assert(schema::element_errors(before, p, max) == out);
                let i = choose|i: int| #[trigger] is_column_at(before, i, c.id);
                assert(is_column_at(s, i, c.id));
                assert(out.contains(e) == (e == out[0]));
            } else {
                assert(schema::element_errors(before, p, max).len() == 0);
            }
            assert(schema::element_errors(before, p, max).contains(e) == (schema::has_column(before, c.id) && e
                == SchemaErrorModel::DuplicateColumnId(c.id)));
            assert(is_column_at(s, n, c.id));
            match e {
                SchemaErrorModel::DuplicateColumnId(id) => {
                    if id != c.id {
                        assert(!is_column_at(s, n, id));
                        assert(!is_faulty_at(s, n, max, e));
                    } else {
                        assert(is_faulty_at(s, n, max, e) == schema::has_column(before, c.id));
                    }
                },
                SchemaErrorModel::DuplicateGroupId(id) => {
                    assert(!is_group_at(s, n, id));
                    assert(!is_faulty_at(s, n, max, e));
                },
                SchemaErrorModel::DepthExceeded { group, .. } => {
                    assert(!is_group_at(s, n, group));
                    assert(!is_faulty_at(s, n, max, e));
                },
                _ => {
                    assert(!is_faulty_at(s, n, max, e));
                },
            }
            assert(is_faulty_at(s, n, max, e) == (schema::has_column(before, c.id) && e
                == SchemaErrorModel::DuplicateColumnId(c.id)));
        },
        ShellModel::Group(g) => {
            columns_are_found(before, g.id);
            assert forall|i: int| #[trigger] is_group_at(before, i, g.id) == (i < n && is_group_at(
                s,
                i,
                g.id,
            )) by {}
            if exists|i: int| i < n && #[trigger] is_group_at(s, i, g.id) {
                let i = choose|i: int| i < n && #[trigger] is_group_at(s, i, g.id);
                assert(is_group_at(before, i, g.id));
            }
            let first = if schema::has_group(before, g.id) {
                seq![SchemaErrorModel::DuplicateGroupId(g.id)]
            } else {
                Seq::empty()
            };
            let deep = SchemaErrorModel::DepthExceeded {
                group: g.id,
                depth: p.within.len() as usize,
                max,
            };
            let second = if p.within.len() > max {
                seq![deep]
            } else {
                Seq::empty()
            };
            join_contains(first, second, e);
            assert(schema::element_errors(before, p, max) == first + second);
            if schema::has_group(before, g.id) {
                assert(first[0] == SchemaErrorModel::DuplicateGroupId(g.id));
                let i = choose|i: int| #[trigger] is_group_at(before, i, g.id);
                assert(is_group_at(s, i, g.id));
            }
            if p.within.len() > max {
                assert(second[0] == deep);
                assert(second.contains(e) == (e == deep));
            }
            assert(schema::element_errors(before, p, max).contains(e) == ((schema::has_group(before, g.id) && e
                == SchemaErrorModel::DuplicateGroupId(g.id)) || (p.within.len() > max && e
                == deep)));
            assert(is_group_at(s, n, g.id));
            match e {
                SchemaErrorModel::DuplicateColumnId(id) => {
                    assert(!is_column_at(s, n, id));
                },
                SchemaErrorModel::DuplicateGroupId(id) => {
                    if id != g.id {
                        assert(!is_group_at(s, n, id));
                    } else {
                        assert(is_faulty_at(s, n, max, e) == schema::has_group(before, g.id));
                    }
                },
                SchemaErrorModel::DepthExceeded { group, .. } => {
                    if group != g.id {
                        assert(!is_group_at(s, n, group));
                    }
                },
                _ => {},
            }
        },
    }
}

/// A result's type under a name is that of its first field with it.
pub proof fn first_fields_are_found(fields: Seq<ResultFieldModel>, name: Seq<char>)
    ensures
        schema::field_type(fields, name) is Some <==> exists|k: int| #[trigger]
            is_first_field(fields, k, name),
        forall|k: int| #[trigger]
            is_first_field(fields, k, name) ==> schema::field_type(fields, name) == Some(fields[k].ty),
    decreases fields.len(),
{
    if fields.len() > 0 {
        let rest = fields.drop_first();
        first_fields_are_found(rest, name);
        if fields[0].name == name {
            assert(is_first_field(fields, 0, name));
            assert forall|k: int| #[trigger] is_first_field(fields, k, name) implies k == 0 by {
                if k > 0 {
                    assert(fields[0].name != name);
                }
            }
        } else {
            assert forall|k: int| #[trigger] is_first_field(fields, k, name) implies is_first_field(
                rest,
                k - 1,
                name,
            ) by {
                assert(rest[k - 1] == fields[k]);
                assert forall|j: int| 0 <= j < k - 1 implies (#[trigger] rest[j]).name != name by {
                    assert(rest[j] == fields[j + 1]);
                }
            }
            if schema::field_type(rest, name) is Some {
                let k = choose|k: int| #[trigger] is_first_field(rest, k, name);
                assert forall|j: int| 0 <= j < k + 1 implies (#[trigger] fields[j]).name
                    != name by {
                    if j > 0 {
                        assert(rest[j - 1] == fields[j]);
                    }
                }
                assert(fields[k + 1] == rest[k]);
                assert(is_first_field(fields, k + 1, name));
            }
        }
    }
}

proof fn first_columns_are_found(s: Seq<PlacedModel>, id: Seq<char>)
    ensures
        schema::column_type(s, id) is Some <==> exists|i: int| #[trigger] is_first_column(s, i, id),
        forall|i: int| #[trigger]
            is_first_column(s, i, id) ==> (s[i].shell matches ShellModel::Column(c) && schema::column_type(
                s,
                id,
            ) == Some(c.ty)),
        (exists|i: int| #[trigger] is_column_at(s, i, id)) <==> schema::column_type(s, id) is Some,
    decreases s.len(),
{
    if s.len() > 0 {
        let rest = s.drop_first();
        first_columns_are_found(rest, id);
        assert forall|i: int| #[trigger] is_column_at(rest, i, id) == (i >= 0 && is_column_at(
            s,
            i + 1,
            id,
        )) by {
            if 0 <= i < rest.len() {
                assert(rest[i] == s[i + 1]);
            }
        }
        if is_column_at(s, 0, id) {
            assert(is_first_column(s, 0, id));
            assert forall|i: int| #[trigger] is_first_column(s, i, id) implies i == 0 by {
                if i > 0 {
                    assert(!is_column_at(s, 0, id));
                }
            }
        } else {
            assert forall|i: int| #[trigger] is_first_column(s, i, id) implies is_first_column(
                rest,
                i - 1,
                id,
            ) && rest[i - 1] == s[i] by {
                assert(is_column_at(rest, i - 1, id));
                assert forall|j: int| 0 <= j < i - 1 implies !#[trigger] is_column_at(
                    rest,
                    j,
                    id,
                ) by {
                    assert(!is_column_at(s, j + 1, id));
                }
            }
            if schema::column_type(rest, id) is Some {
                let i = choose|i: int| #[trigger] is_first_column(rest, i, id);
                assert(is_column_at(s, i + 1, id));
                assert forall|j: int| 0 <= j < i + 1 implies !#[trigger] is_column_at(
                    s,
                    j,
                    id,
                ) by {
                    if j > 0 {
                        assert(!is_column_at(rest, j - 1, id));
                    }
                }
                assert(is_first_column(s, i + 1, id));
            }
            if exists|i: int| #[trigger] is_column_at(s, i, id) {
                let i = choose|i: int| #[trigger] is_column_at(s, i, id);
                assert(is_column_at(rest, i - 1, id));
            }
        }
    }
}

proof fn input_faults(
    s: Seq<PlacedModel>,
    resolver: Seq<char>,
    input: Seq<(Seq<char>, ScalarTypeModel)>,
    e: SchemaErrorModel,
)
    ensures
        schema::input_errors(s, resolver, input).contains(e) <==> exists|k: int|
            0 <= k < input.len() && e == (SchemaErrorModel::UnknownInputColumn {
                resolver,
                column: (#[trigger] input[k]).0,
            }) && !schema::has_column(s, input[k].0),
    decreases input.len(),
{
    if input.len() > 0 {
        let rest = input.drop_last();
        let last = input.len() - 1;
        input_faults(s, resolver, rest, e);
        assert(input[last] == input.last());
        let own = SchemaErrorModel::UnknownInputColumn { resolver, column: input.last().0 };
        let more = if schema::has_column(s, input.last().0) {
            Seq::empty()
        } else {
            seq![own]
        };
        join_contains(schema::input_errors(s, resolver, rest), more, e);
        if !schema::has_column(s, input.last().0) {
            assert(more[0] == own);
        }
        if schema::input_errors(s, resolver, rest).contains(e) {
            let k = choose|k: int|
                0 <= k < rest.len() && e == (SchemaErrorModel::UnknownInputColumn {
                    resolver,
                    column: (#[trigger] rest[k]).0,
                }) && !schema::has_column(s, rest[k].0);
            assert(input[k] == rest[k]);
        }
        assert forall|k: int|
            0 <= k < input.len() && e == (SchemaErrorModel::UnknownInputColumn {
                resolver,
                column: (#[trigger] input[k]).0,
            }) && !schema::has_column(s, input[k].0) implies schema::input_errors(s, resolver, input).contains(
            e,
        ) by {
            if k < last {
                assert(rest[k] == input[k]);
            }
        }
    }
}

proof fn mapping_faults(
    s: Seq<PlacedModel>,
    r: ResolverDeclarationModel,
    mapping: Seq<MappingModel>,
    e: SchemaErrorModel,
)
    ensures
        schema::mapping_errors(s, r, mapping).contains(e) <==> exists|k: int|
            0 <= k < mapping.len() && schema::mapping_error(s, r, #[trigger] mapping[k]) == Some(e),
    decreases mapping.len(),
{
    if mapping.len() > 0 {
        let rest = mapping.drop_last();
        let last = mapping.len() - 1;
        mapping_faults(s, r, rest, e);
        assert(mapping[last] == mapping.last());
        let before = schema::mapping_errors(s, r, rest);
        let all = schema::mapping_errors(s, r, mapping);
        let more = match schema::mapping_error(s, r, mapping.last()) {
            Some(x) => seq![x],
            None => Seq::empty(),
        };
        assert(all =~= before + more);
        join_contains(before, more, e);
        if let Some(x) = schema::mapping_error(s, r, mapping.last()) {
            assert(more[0] == x);
        }
        if before.contains(e) {
            let k = choose|k: int|
                0 <= k < rest.len() && schema::mapping_error(s, r, #[trigger] rest[k]) == Some(e);
            assert(mapping[k] == rest[k]);
        }
        assert forall|k: int|
            0 <= k < mapping.len() && schema::mapping_error(s, r, #[trigger] mapping[k]) == Some(
                e,
            ) implies all.contains(e) by {
            if k < last {
                assert(rest[k] == mapping[k]);
            }
        }
    }
}

proof fn resolver_faults(
    s: Seq<PlacedModel>,
    resolvers: Seq<ResolverDeclarationModel>,
    e: SchemaErrorModel,
)
    ensures
        schema::resolver_errors(s, resolvers).contains(e) <==> exists|r: int|
            0 <= r < resolvers.len() && (schema::input_errors(
                s,
                (#[trigger] resolvers[r]).id,
                resolvers[r].input,
            ).contains(e) || schema::mapping_errors(s, resolvers[r], resolvers[r].mapping).contains(e)),
    decreases resolvers.len(),
{
    if resolvers.len() > 0 {
        let rest = resolvers.drop_last();
        let last = resolvers.len() - 1;
        let r = resolvers.last();
        resolver_faults(s, rest, e);
        assert(resolvers[last] == r);
        let before = schema::resolver_errors(s, rest);
        let a = schema::input_errors(s, r.id, r.input);
        let b = schema::mapping_errors(s, r, r.mapping);
        join_contains(before, a, e);
        join_contains(before + a, b, e);
        if before.contains(e) {
            let k = choose|k: int|
                0 <= k < rest.len() && (schema::input_errors(
                    s,
                    (#[trigger] rest[k]).id,
                    rest[k].input,
                ).contains(e) || schema::mapping_errors(s, rest[k], rest[k].mapping).contains(e));
            assert(resolvers[k] == rest[k]);
        }
        assert forall|k: int|
            0 <= k < resolvers.len() && (schema::input_errors(
                s,
                (#[trigger] resolvers[k]).id,
                resolvers[k].input,
            ).contains(e) || schema::mapping_errors(s, resolvers[k], resolvers[k].mapping).contains(
                e,
            )) implies schema::resolver_errors(s, resolvers).contains(e) by {
            if k < last {
                assert(rest[k] == resolvers[k]);
            }
        }
    }
}

/// Types of one kind have one constructor.
pub proof fn kinds_agree(a: ScalarTypeModel, b: ScalarTypeModel)
    ensures
        a.same_constructor(b) == are_of_one_kind(a, b),
{
}

/// A schema's errors are exactly its faults: two columns or two groups
/// with one id, groups of many nested too deep, resolvers that read
/// unknown columns, and mappings from an unknown field, to an unknown
/// column, or between types of different kinds.
pub proof fn errors_are_faults(schema: SchemaModel, max: usize, e: SchemaErrorModel)
    ensures
        schema::schema_errors(schema, max).contains(e) <==> is_at_fault(schema, max, e),
{
    let s = schema::schema_elements(schema);
    join_contains(schema::structure_errors(s, max), schema::resolver_errors(s, schema.resolvers), e);
    structure_faults(s, max, e);
    resolver_faults(s, schema.resolvers, e);
    assert forall|n: int| 0 <= n < s.len() implies schema::element_errors(
        s.take(n),
        #[trigger] s[n],
        max,
    ).contains(e) == is_faulty_at(s, n, max, e) by {
        element_faults(s, n, max, e);
    }
    assert forall|r: int| 0 <= r < schema.resolvers.len() implies (schema::input_errors(
        s,
        (#[trigger] schema.resolvers[r]).id,
        schema.resolvers[r].input,
    ).contains(e) || schema::mapping_errors(s, schema.resolvers[r], schema.resolvers[r].mapping).contains(
        e,
    )) == is_faulty_resolver(schema, r, e) by {
        resolver_is_faulty(schema, r, e);
    }
    assert((exists|n: int| 0 <= n < s.len() && #[trigger] is_faulty_at(s, n, max, e)) <==> (
    exists|n: int|
        0 <= n < s.len() && schema::element_errors(s.take(n), #[trigger] s[n], max).contains(e))) by {
        if exists|n: int| 0 <= n < s.len() && #[trigger] is_faulty_at(s, n, max, e) {
            let n = choose|n: int| 0 <= n < s.len() && #[trigger] is_faulty_at(s, n, max, e);
            assert(schema::element_errors(s.take(n), s[n], max).contains(e));
        }
    }
    assert((exists|r: int|
        0 <= r < schema.resolvers.len() && #[trigger] is_faulty_resolver(schema, r, e)) <==> (
    exists|r: int|
        0 <= r < schema.resolvers.len() && (schema::input_errors(
            s,
            (#[trigger] schema.resolvers[r]).id,
            schema.resolvers[r].input,
        ).contains(e) || schema::mapping_errors(
            s,
            schema.resolvers[r],
            schema.resolvers[r].mapping,
        ).contains(e)))) by {
        if exists|r: int|
            0 <= r < schema.resolvers.len() && #[trigger] is_faulty_resolver(schema, r, e) {
            let r = choose|r: int|
                0 <= r < schema.resolvers.len() && #[trigger] is_faulty_resolver(schema, r, e);
            assert(schema::input_errors(s, schema.resolvers[r].id, schema.resolvers[r].input).contains(e)
                || schema::mapping_errors(s, schema.resolvers[r], schema.resolvers[r].mapping).contains(e));
        }
    }
    faults_by_place(schema, max, e);
}

/// Whether the element at a place brings an error.
spec fn is_faulty_at(s: Seq<PlacedModel>, n: int, max: usize, e: SchemaErrorModel) -> bool {
    match e {
        SchemaErrorModel::DuplicateColumnId(id) => is_column_at(s, n, id) && exists|i: int|
            i < n && #[trigger] is_column_at(s, i, id),
        SchemaErrorModel::DuplicateGroupId(id) => is_group_at(s, n, id) && exists|i: int|
            i < n && #[trigger] is_group_at(s, i, id),
        SchemaErrorModel::DepthExceeded { group, depth, max: m } => m == max && is_group_at(
            s,
            n,
            group,
        ) && s[n].within.len() > max && s[n].within.len() as usize == depth,
        _ => false,
    }
}

/// Whether a resolver brings an error.
spec fn is_faulty_resolver(schema: SchemaModel, r: int, e: SchemaErrorModel) -> bool {
    let s = schema::schema_elements(schema);
    let decl = schema.resolvers[r];
    match e {
        SchemaErrorModel::UnknownInputColumn { resolver, column } => decl.id == resolver && exists|
            k: int,
        |
            0 <= k < decl.input.len() && (#[trigger] decl.input[k]).0 == column && forall|i: int|
                !#[trigger] is_column_at(s, i, column),
        SchemaErrorModel::UnknownMappingField { resolver, field } => decl.id == resolver && exists|
            k: int,
        |
            0 <= k < decl.mapping.len() && (#[trigger] decl.mapping[k]).result_field == field
                && forall|f: int| !#[trigger] is_first_field(decl.result_type, f, field),
        SchemaErrorModel::UnknownMappingTarget { resolver, target } => decl.id == resolver
            && exists|k: int|
            0 <= k < decl.mapping.len() && (#[trigger] decl.mapping[k]).target == target && (
            exists|f: int| #[trigger]
                is_first_field(decl.result_type, f, decl.mapping[k].result_field)) && forall|i: int|
                !#[trigger] is_column_at(s, i, target),
        SchemaErrorModel::MappingTypeMismatch { resolver, field, target } => decl.id == resolver
            && exists|k: int, f: int, i: int|
            {
                &&& 0 <= k < decl.mapping.len()
                &&& (#[trigger] decl.mapping[k]).target == target
                &&& decl.mapping[k].result_field == field
                &&& #[trigger] is_first_field(decl.result_type, f, field)
                &&& #[trigger] is_first_column(s, i, target)
                &&& s[i].shell matches ShellModel::Column(c) && !are_of_one_kind(
                    decl.result_type[f].ty,
                    c.ty,
                )
            },
        _ => false,
    }
}

proof fn faults_by_place(schema: SchemaModel, max: usize, e: SchemaErrorModel)
    ensures
        is_at_fault(schema, max, e) <==> {
            ||| exists|n: int|
                0 <= n < schema::schema_elements(schema).len() && #[trigger] is_faulty_at(
                    schema::schema_elements(schema),
                    n,
                    max,
                    e,
                )
            ||| exists|r: int|
                0 <= r < schema.resolvers.len() && #[trigger] is_faulty_resolver(schema, r, e)
        },
{
    let s = schema::schema_elements(schema);
    match e {
        SchemaErrorModel::DuplicateColumnId(id) => {
            assert forall|i: int, j: int|
                i < j && #[trigger] is_column_at(s, i, id) && #[trigger] is_column_at(
                    s,
                    j,
                    id,
                ) implies is_faulty_at(s, j, max, e) by {}
        },
        SchemaErrorModel::DuplicateGroupId(id) => {
            assert forall|i: int, j: int|
                i < j && #[trigger] is_group_at(s, i, id) && #[trigger] is_group_at(
                    s,
                    j,
                    id,
                ) implies is_faulty_at(s, j, max, e) by {}
        },
        SchemaErrorModel::DepthExceeded { group, depth, max: m } => {
            assert forall|i: int|
                m == max && #[trigger] is_group_at(s, i, group) && s[i].within.len() > max
                    && s[i].within.len() as usize == depth implies is_faulty_at(
                s,
                i,
                max,
                e,
            ) by {}
        },
        _ => {
            assert forall|r: int|
                0 <= r < schema.resolvers.len() && #[trigger] is_faulty_resolver(
                    schema,
                    r,
                    e,
                ) implies is_at_fault(schema, max, e) by {
                resolver_is_at_fault(schema, max, r, e);
            }
            if is_at_fault(schema, max, e) {
                some_resolver_is_faulty(schema, max, e);
            }
        },
    }
}

proof fn resolver_is_at_fault(schema: SchemaModel, max: usize, r: int, e: SchemaErrorModel)
    requires
        0 <= r < schema.resolvers.len(),
        is_faulty_resolver(schema, r, e),
    ensures
        is_at_fault(schema, max, e),
{
    let s = schema::schema_elements(schema);
    let decl = schema.resolvers[r];
    match e {
        SchemaErrorModel::UnknownInputColumn { resolver, column } => {
            let k = choose|k: int|
                0 <= k < decl.input.len() && (#[trigger] decl.input[k]).0 == column && forall|i: int|
                    !#[trigger] is_column_at(s, i, column);
            assert(schema.resolvers[r].input[k].0 == column);
        },
        SchemaErrorModel::UnknownMappingField { resolver, field } => {
            let k = choose|k: int|
                0 <= k < decl.mapping.len() && (#[trigger] decl.mapping[k]).result_field == field
                    && forall|f: int| !#[trigger] is_first_field(decl.result_type, f, field);
            assert(schema.resolvers[r].mapping[k].result_field == field);
        },
        SchemaErrorModel::UnknownMappingTarget { resolver, target } => {
            let k = choose|k: int|
                0 <= k < decl.mapping.len() && (#[trigger] decl.mapping[k]).target == target && (
                exists|f: int| #[trigger]
                    is_first_field(decl.result_type, f, decl.mapping[k].result_field)) && forall|
                    i: int,
                |
                    !#[trigger] is_column_at(s, i, target);
            assert(schema.resolvers[r].mapping[k].target == target);
        },
        SchemaErrorModel::MappingTypeMismatch { resolver, field, target } => {
            let (k, f, i) = choose|k: int, f: int, i: int|
                {
                    &&& 0 <= k < decl.mapping.len()
                    &&& (#[trigger] decl.mapping[k]).target == target
                    &&& decl.mapping[k].result_field == field
                    &&& #[trigger] is_first_field(decl.result_type, f, field)
                    &&& #[trigger] is_first_column(s, i, target)
                    &&& s[i].shell matches ShellModel::Column(c) && !are_of_one_kind(
                        decl.result_type[f].ty,
                        c.ty,
                    )
                };
            assert(schema.resolvers[r].mapping[k].target == target);
            assert(is_first_field(schema.resolvers[r].result_type, f, field));
        },
        _ => {},
    }
}

proof fn some_resolver_is_faulty(schema: SchemaModel, max: usize, e: SchemaErrorModel)
    requires
        is_at_fault(schema, max, e),
        !(e is DuplicateColumnId),
        !(e is DuplicateGroupId),
        !(e is DepthExceeded),
    ensures
        exists|r: int|
            0 <= r < schema.resolvers.len() && #[trigger] is_faulty_resolver(schema, r, e),
{
    let s = schema::schema_elements(schema);
    match e {
        SchemaErrorModel::UnknownInputColumn { resolver, column } => {
            let (r, k) = choose|r: int, k: int|
                {
                    &&& 0 <= r < schema.resolvers.len()
                    &&& 0 <= k < schema.resolvers[r].input.len()
                    &&& schema.resolvers[r].id == resolver
                    &&& (#[trigger] schema.resolvers[r].input[k]).0 == column
                    &&& forall|i: int| !#[trigger] is_column_at(s, i, column)
                };
            assert(is_faulty_resolver(schema, r, e));
        },
        SchemaErrorModel::UnknownMappingField { resolver, field } => {
            let (r, k) = choose|r: int, k: int|
                {
                    &&& 0 <= r < schema.resolvers.len()
                    &&& 0 <= k < schema.resolvers[r].mapping.len()
                    &&& schema.resolvers[r].id == resolver
                    &&& (#[trigger] schema.resolvers[r].mapping[k]).result_field == field
                    &&& forall|f: int|
                        !#[trigger] is_first_field(schema.resolvers[r].result_type, f, field)
                };
            assert(is_faulty_resolver(schema, r, e));
        },
        SchemaErrorModel::UnknownMappingTarget { resolver, target } => {
            let (r, k) = choose|r: int, k: int|
                {
                    &&& 0 <= r < schema.resolvers.len()
                    &&& 0 <= k < schema.resolvers[r].mapping.len()
                    &&& schema.resolvers[r].id == resolver
                    &&& (#[trigger] schema.resolvers[r].mapping[k]).target == target
                    &&& exists|f: int| #[trigger] is_first_field(
                        schema.resolvers[r].result_type,
                        f,
                        schema.resolvers[r].mapping[k].result_field,
                    )
                    &&& forall|i: int| !#[trigger] is_column_at(s, i, target)
                };
            assert(is_faulty_resolver(schema, r, e));
        },
        SchemaErrorModel::MappingTypeMismatch { resolver, field, target } => {
            let (r, k, f, i) = choose|r: int, k: int, f: int, i: int|
                {
                    &&& 0 <= r < schema.resolvers.len()
                    &&& 0 <= k < schema.resolvers[r].mapping.len()
                    &&& schema.resolvers[r].id == resolver
                    &&& (#[trigger] schema.resolvers[r].mapping[k]).target == target
                    &&& schema.resolvers[r].mapping[k].result_field == field
                    &&& #[trigger] is_first_field(schema.resolvers[r].result_type, f, field)
                    &&& #[trigger] is_first_column(s, i, target)
                    &&& s[i].shell matches ShellModel::Column(c) && !are_of_one_kind(
                        schema.resolvers[r].result_type[f].ty,
                        c.ty,
                    )
                };
            assert(is_faulty_resolver(schema, r, e));
        },
        _ => {},
    }
}

proof fn resolver_is_faulty(schema: SchemaModel, r: int, e: SchemaErrorModel)
    requires
        0 <= r < schema.resolvers.len(),
    ensures
        (schema::input_errors(
            schema::schema_elements(schema),
            schema.resolvers[r].id,
            schema.resolvers[r].input,
        ).contains(e) || schema::mapping_errors(
            schema::schema_elements(schema),
            schema.resolvers[r],
            schema.resolvers[r].mapping,
        ).contains(e)) == is_faulty_resolver(schema, r, e),
{
    let s = schema::schema_elements(schema);
    let decl = schema.resolvers[r];
    input_faults(s, decl.id, decl.input, e);
    mapping_faults(s, decl, decl.mapping, e);
    assert forall|k: int| 0 <= k < decl.input.len() implies schema::has_column(
        s,
        (#[trigger] decl.input[k]).0,
    ) == exists|i: int| #[trigger] is_column_at(s, i, decl.input[k].0) by {
        columns_are_found(s, decl.input[k].0);
    }
    assert forall|k: int| 0 <= k < decl.mapping.len() implies (schema::mapping_error(
        s,
        decl,
        #[trigger] decl.mapping[k],
    ) == Some(e)) == is_faulty_mapping(schema, r, k, e) by {
        mapping_is_faulty(schema, r, k, e);
    }
    if exists|k: int|
        0 <= k < decl.mapping.len() && schema::mapping_error(s, decl, #[trigger] decl.mapping[k]) == Some(
            e,
        ) {
        let k = choose|k: int|
            0 <= k < decl.mapping.len() && schema::mapping_error(s, decl, #[trigger] decl.mapping[k])
                == Some(e);
        assert(is_faulty_mapping(schema, r, k, e));
    }
    if is_faulty_resolver(schema, r, e) {
        match e {
            SchemaErrorModel::UnknownInputColumn { resolver, column } => {
                let k = choose|k: int|
                    0 <= k < decl.input.len() && (#[trigger] decl.input[k]).0 == column && forall|
                        i: int,
                    |
                        !#[trigger] is_column_at(s, i, column);
                assert(!schema::has_column(s, decl.input[k].0));
            },
            SchemaErrorModel::UnknownMappingField { resolver, field } => {
                let k = choose|k: int|
                    0 <= k < decl.mapping.len() && (#[trigger] decl.mapping[k]).result_field
                        == field && forall|f: int|
                        !#[trigger] is_first_field(decl.result_type, f, field);
                assert(is_faulty_mapping(schema, r, k, e));
            },
            SchemaErrorModel::UnknownMappingTarget { resolver, target } => {
                let k = choose|k: int|
                    0 <= k < decl.mapping.len() && (#[trigger] decl.mapping[k]).target == target
                        && (exists|f: int| #[trigger]
                        is_first_field(decl.result_type, f, decl.mapping[k].result_field))
                        && forall|i: int| !#[trigger] is_column_at(s, i, target);
                assert(is_faulty_mapping(schema, r, k, e));
            },
            SchemaErrorModel::MappingTypeMismatch { resolver, field, target } => {
                let (k, f, i) = choose|k: int, f: int, i: int|
                    {
                        &&& 0 <= k < decl.mapping.len()
                        &&& (#[trigger] decl.mapping[k]).target == target
                        &&& decl.mapping[k].result_field == field
                        &&& #[trigger] is_first_field(decl.result_type, f, field)
                        &&& #[trigger] is_first_column(s, i, target)
                        &&& s[i].shell matches ShellModel::Column(c) && !are_of_one_kind(
                            decl.result_type[f].ty,
                            c.ty,
                        )
                    };
                assert(is_faulty_mapping(schema, r, k, e));
            },
            _ => {},
        }
    }
}

/// Whether a mapping brings an error.
spec fn is_faulty_mapping(schema: SchemaModel, r: int, k: int, e: SchemaErrorModel) -> bool {
    let s = schema::schema_elements(schema);
    let decl = schema.resolvers[r];
    let m = decl.mapping[k];
    match e {
        SchemaErrorModel::UnknownMappingField { resolver, field } => decl.id == resolver
            && m.result_field == field && forall|f: int|
            !#[trigger] is_first_field(decl.result_type, f, field),
        SchemaErrorModel::UnknownMappingTarget { resolver, target } => decl.id == resolver
            && m.target == target && (exists|f: int| #[trigger]
            is_first_field(decl.result_type, f, m.result_field)) && forall|i: int|
            !#[trigger] is_column_at(s, i, target),
        SchemaErrorModel::MappingTypeMismatch { resolver, field, target } => decl.id == resolver
            && m.target == target && m.result_field == field && exists|f: int, i: int|
            {
                &&& #[trigger] is_first_field(decl.result_type, f, field)
                &&& #[trigger] is_first_column(s, i, target)
                &&& s[i].shell matches ShellModel::Column(c) && !are_of_one_kind(
                    decl.result_type[f].ty,
                    c.ty,
                )
            },
        _ => false,
    }
}

proof fn mapping_is_faulty(schema: SchemaModel, r: int, k: int, e: SchemaErrorModel)
    ensures
        (schema::mapping_error(
            schema::schema_elements(schema),
            schema.resolvers[r],
            schema.resolvers[r].mapping[k],
        ) == Some(e)) == is_faulty_mapping(schema, r, k, e),
{
    let s = schema::schema_elements(schema);
    let decl = schema.resolvers[r];
    let m = decl.mapping[k];
    first_fields_are_found(decl.result_type, m.result_field);
    first_columns_are_found(s, m.target);
    if schema::field_type(decl.result_type, m.result_field) is Some && schema::column_type(s, m.target) is Some {
        let f = choose|f: int| #[trigger] is_first_field(decl.result_type, f, m.result_field);
        let i = choose|i: int| #[trigger] is_first_column(s, i, m.target);
        if let ShellModel::Column(c) = s[i].shell {
            kinds_agree(decl.result_type[f].ty, c.ty);
        }
    }
    assert forall|f: int, i: int|
        #![trigger is_first_field(decl.result_type, f, m.result_field), is_first_column(s, i, m.target)]
        is_first_field(decl.result_type, f, m.result_field) && is_first_column(
            s,
            i,
            m.target,
        ) implies (s[i].shell matches ShellModel::Column(c) && schema::field_type(
        decl.result_type,
        m.result_field,
    ) == Some(decl.result_type[f].ty) && schema::column_type(s, m.target) == Some(c.ty) && (
    decl.result_type[f].ty).same_constructor(c.ty) == are_of_one_kind(
        decl.result_type[f].ty,
        c.ty,
    )) by {
        if let ShellModel::Column(c) = s[i].shell {
            kinds_agree(decl.result_type[f].ty, c.ty);
        }
    }
}

} // verus!
