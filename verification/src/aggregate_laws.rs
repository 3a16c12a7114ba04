//! What the aggregate of a history holds: which columns, as which
//! revision left them, and what is reported of their past.

use vstd::prelude::*;
use crate::aggregate;
use crate::collections;
use crate::conformance;
use crate::impact;
use crate::schema;
use crate::schema_laws;
use crate::aggregate::{AggregateColumnModel, AggregatePolicy, OccurrenceModel, aggregate};
use crate::conformance::ColumnInfoModel;
use crate::ids::ColumnId;
use crate::schema::{
    Arity, Column, OptionRowModel, PlacedModel, ScalarTypeModel, SchemaModel, ShellModel,
};

verus! {

/// Whether a revision of a history has a column.
pub open spec fn has_it(history: Seq<(Seq<char>, SchemaModel)>, r: int, c: Seq<char>) -> bool {
    0 <= r < history.len() && conformance::schema_index(history[r].1).columns.dom().contains(c)
}

/// Whether a revision is the latest that has a column.
pub open spec fn has_it_last(history: Seq<(Seq<char>, SchemaModel)>, r: int, c: Seq<char>) -> bool {
    has_it(history, r, c) && forall|q: int| r < q ==> !#[trigger] has_it(history, q, c)
}

/// What a revision says of a column.
pub open spec fn info_in(
    history: Seq<(Seq<char>, SchemaModel)>,
    r: int,
    c: Seq<char>,
) -> ColumnInfoModel {
    conformance::schema_index(history[r].1).columns[c]
}

proof fn occurrences_are(history: Seq<(Seq<char>, SchemaModel)>, c: Seq<char>)
    requires
        history.len() <= usize::MAX,
    ensures
        ({
            let occs = aggregate::occurrences(history, c);
            &&& forall|i: int|
                0 <= i < occs.len() ==> has_it(history, (#[trigger] occs[i]).revision as int, c)
                    && occs[i].ty == info_in(history, occs[i].revision as int, c).ty
                    && occs[i].arity == info_in(history, occs[i].revision as int, c).arity
                    && occs[i].scope == info_in(history, occs[i].revision as int, c).scope
                    && occs[i].label == aggregate::label_in(history[occs[i].revision as int].1, c)
            &&& forall|i: int, j: int|
                #![trigger occs[i], occs[j]]
                0 <= i < j < occs.len() ==> occs[i].revision < occs[j].revision
            &&& forall|r: int| #[trigger]
                has_it(history, r, c) ==> exists|i: int|
                    0 <= i < occs.len() && (#[trigger] occs[i]).revision == r
        }),
    decreases history.len(),
{
    let occs = aggregate::occurrences(history, c);
    if history.len() > 0 {
        let rest = history.drop_last();
        let n = history.len() - 1;
        let before = aggregate::occurrences(rest, c);
        occurrences_are(rest, c);
        assert(history[n] == history.last());
        assert forall|r: int| r != n implies #[trigger] has_it(history, r, c) == has_it(
            rest,
            r,
            c,
        ) by {
            if 0 <= r < n {
                assert(rest[r] == history[r]);
            }
        }
        assert forall|i: int| 0 <= i < before.len() implies #[trigger] occs[i] == before[i]
            && before[i].revision < n by {
            assert(has_it(rest, before[i].revision as int, c));
        }
        assert forall|i: int| 0 <= i < occs.len() implies has_it(
            history,
            (#[trigger] occs[i]).revision as int,
            c,
        ) && occs[i].ty == info_in(history, occs[i].revision as int, c).ty && occs[i].arity
            == info_in(history, occs[i].revision as int, c).arity && occs[i].scope == info_in(
            history,
            occs[i].revision as int,
            c,
        ).scope && occs[i].label == aggregate::label_in(history[occs[i].revision as int].1, c) by {
            if i < before.len() {
                assert(occs[i] == before[i]);
                assert(has_it(rest, before[i].revision as int, c));
                assert(rest[before[i].revision as int] == history[before[i].revision as int]);
            }
        }
        assert forall|r: int| #[trigger] has_it(history, r, c) implies exists|i: int|
            0 <= i < occs.len() && (#[trigger] occs[i]).revision == r by {
            if r < n {
                assert(has_it(rest, r, c));
                let i = choose|i: int| 0 <= i < before.len() && (#[trigger] before[i]).revision == r;
                assert(occs[i].revision == r);
            } else {
                assert(occs[before.len() as int].revision == r);
            }
        }
    }
}

proof fn last_occurrence(history: Seq<(Seq<char>, SchemaModel)>, c: Seq<char>)
    requires
        history.len() <= usize::MAX,
        aggregate::occurrences(history, c).len() > 0,
    ensures
        has_it_last(history, aggregate::occurrences(history, c).last().revision as int, c),
{
    let occs = aggregate::occurrences(history, c);
    let last = occs.len() - 1;
    occurrences_are(history, c);
    assert(occs[last] == occs.last());
    assert forall|q: int| occs.last().revision < q implies !#[trigger] has_it(history, q, c) by {
        if has_it(history, q, c) {
            let i = choose|i: int| 0 <= i < occs.len() && (#[trigger] occs[i]).revision == q;
            if i < last {
                assert(occs[i].revision < occs[last].revision);
            }
        }
    }
}

proof fn columns_seen_are(history: Seq<(Seq<char>, SchemaModel)>, c: Seq<char>)
    ensures
        aggregate::columns_seen(history).finite(),
        aggregate::columns_seen(history).contains(c) <==> exists|r: int| #[trigger] has_it(history, r, c),
    decreases history.len(),
{
    if history.len() > 0 {
        let rest = history.drop_last();
        let n = history.len() - 1;
        columns_seen_are(rest, c);
        conformance::index_is_finite(history.last().1);
        assert(history[n] == history.last());
        assert forall|r: int| r != n implies #[trigger] has_it(history, r, c) == has_it(
            rest,
            r,
            c,
        ) by {
            if 0 <= r < n {
                assert(rest[r] == history[r]);
            }
        }
        if exists|r: int| #[trigger] has_it(rest, r, c) {
            let r = choose|r: int| #[trigger] has_it(rest, r, c);
            assert(has_it(history, r, c));
        }
        if exists|r: int| #[trigger] has_it(history, r, c) {
            let r = choose|r: int| #[trigger] has_it(history, r, c);
            if r < n {
                assert(has_it(rest, r, c));
            }
        }
        assert(has_it(history, n, c) == conformance::schema_index(history.last().1).columns.dom().contains(c));
    }
}

/// How the types of a column in its latest groups join.
pub open spec fn its_join(
    history: Seq<(Seq<char>, SchemaModel)>,
    noms: Map<(Seq<char>, u32), Seq<OptionRowModel>>,
    c: Seq<char>,
) -> Option<(ScalarTypeModel, Arity, bool)> {
    aggregate::joined_type(aggregate::in_latest_scope(aggregate::occurrences(history, c)), noms)->Ok_0
}

proof fn aggregated_are(
    keys: Seq<Seq<char>>,
    history: Seq<(Seq<char>, SchemaModel)>,
    noms: Map<(Seq<char>, u32), Seq<OptionRowModel>>,
)
    ensures
        aggregate::aggregated(keys, history, noms) matches Ok(out) ==> {
            &&& forall|c: Seq<char>| #[trigger]
                out.0.dom().contains(c) <==> keys.contains(c) && its_join(history, noms, c) is Some
            &&& forall|c: Seq<char>| #[trigger]
                out.0.dom().contains(c) ==> out.0[c] == aggregate::aggregate_column(
                    history,
                    c,
                    (its_join(history, noms, c)->0).0,
                    (its_join(history, noms, c)->0).1,
                )
            &&& forall|e: (Seq<char>, AggregatePolicy)| #[trigger]
                out.1.contains(e) <==> keys.contains(e.0) && aggregate::policies(
                    e.0,
                    aggregate::occurrences(history, e.0),
                    its_join(history, noms, e.0),
                ).contains(e)
        },
    decreases keys.len(),
{
    if keys.len() > 0 {
        let rest = keys.drop_last();
        let last = keys.last();
        aggregated_are(rest, history, noms);
        assert(keys =~= rest + seq![last]);
        assert forall|c: Seq<char>| #[trigger] keys.contains(c) <==> rest.contains(c) || c
            == last by {
            schema_laws::join_contains(rest, seq![last], c);
            assert(seq![last][0] == last);
            assert(seq![last].contains(c) == (c == last));
        }
        if let Ok(out) = aggregate::aggregated(keys, history, noms) {
            let before = aggregate::aggregated(rest, history, noms)->Ok_0;
            let occs = aggregate::occurrences(history, last);
            let joined = its_join(history, noms, last);
            let own = aggregate::policies(last, occs, joined);
            assert forall|e: (Seq<char>, AggregatePolicy)| #[trigger] out.1.contains(e)
                <==> keys.contains(e.0) && aggregate::policies(
                e.0,
                aggregate::occurrences(history, e.0),
                its_join(history, noms, e.0),
            ).contains(e) by {
                schema_laws::join_contains(before.1, own, e);
                policies_are(last, occs, joined, e);
            }
        }
    }
}

proof fn policies_are(
    c: Seq<char>,
    occs: Seq<OccurrenceModel>,
    joined: Option<(ScalarTypeModel, Arity, bool)>,
    e: (Seq<char>, AggregatePolicy),
)
    ensures
        aggregate::policies(c, occs, joined).contains(e) <==> e.0 == c && match e.1 {
            AggregatePolicy::ScopeKeptLatest => aggregate::scope_moved(occs),
            AggregatePolicy::ReAddedRetyped => aggregate::re_added_retyped(occs),
            AggregatePolicy::Omitted => joined is None,
            AggregatePolicy::ViaText => joined matches Some(j) && j.2,
        },
{
    let a = aggregate::if_hit(aggregate::scope_moved(occs), c, AggregatePolicy::ScopeKeptLatest);
    let b = aggregate::if_hit(aggregate::re_added_retyped(occs), c, AggregatePolicy::ReAddedRetyped);
    let d = match joined {
        None => seq![(c, AggregatePolicy::Omitted)],
        Some((_, _, via_text)) => aggregate::if_hit(via_text, c, AggregatePolicy::ViaText),
    };
    schema_laws::join_contains(a, b, e);
    schema_laws::join_contains(a + b, d, e);
    hits_are(aggregate::scope_moved(occs), c, AggregatePolicy::ScopeKeptLatest, e);
    hits_are(aggregate::re_added_retyped(occs), c, AggregatePolicy::ReAddedRetyped, e);
    hits_are(true, c, AggregatePolicy::Omitted, e);
    if let Some((_, _, via_text)) = joined {
        hits_are(via_text, c, AggregatePolicy::ViaText, e);
    }
}

proof fn hits_are(
    hit: bool,
    c: Seq<char>,
    policy: AggregatePolicy,
    e: (Seq<char>, AggregatePolicy),
)
    ensures
        aggregate::if_hit(hit, c, policy).contains(e) == (hit && e == (c, policy)),
{
    if hit {
        assert(aggregate::if_hit(hit, c, policy)[0] == (c, policy));
    }
}

proof fn keys_are_the_columns(history: Seq<(Seq<char>, SchemaModel)>)
    ensures
        forall|c: Seq<char>| #[trigger]
            collections::key_order::<ColumnId>(aggregate::columns_seen(history)).contains(c) <==> aggregate::columns_seen(
                history,
            ).contains(c),
{
    columns_seen_are(history, Seq::empty());
    collections::finite_is_listed::<ColumnId>(aggregate::columns_seen(history));
}

/// What is reported of a column is its past: that it lay in other groups
/// than in the end, that it was away and came back as another type, that
/// its types have no join, or that they meet as text only.
pub proof fn the_past_is_reported(
    history: Seq<(Seq<char>, SchemaModel)>,
    noms: Map<(Seq<char>, u32), Seq<OptionRowModel>>,
    c: Seq<char>,
)
    requires
        history.len() <= usize::MAX,
    ensures
        aggregate::aggregate_of(history, noms) matches Ok(out) ==> {
            let entries = out.1.entries;
            let seen = exists|r: int| #[trigger] has_it(history, r, c);
            &&& entries.contains((c, AggregatePolicy::ScopeKeptLatest)) <==> exists|
                r: int,
                q: int,
            | #[trigger]
                has_it(history, r, c) && #[trigger] has_it_last(history, q, c) && info_in(
                    history,
                    r,
                    c,
                ).scope != info_in(history, q, c).scope
            &&& entries.contains((c, AggregatePolicy::ReAddedRetyped)) <==> exists|r: int, q: int|
                #[trigger] came_back_retyped(history, r, q, c)
            &&& entries.contains((c, AggregatePolicy::Omitted)) <==> seen && its_join(
                history,
                noms,
                c,
            ) is None
            &&& entries.contains((c, AggregatePolicy::ViaText)) <==> seen && (its_join(
                history,
                noms,
                c,
            ) matches Some(j) && j.2)
        },
{
    if let Ok(out) = aggregate::aggregate_of(history, noms) {
        let keys = collections::key_order::<ColumnId>(aggregate::columns_seen(history));
        let occs = aggregate::occurrences(history, c);
        aggregated_are(keys, history, noms);
        keys_are_the_columns(history);
        columns_seen_are(history, c);
        occurrences_are(history, c);
        let seen = exists|r: int| #[trigger] has_it(history, r, c);
        let joined = its_join(history, noms, c);
        policies_are(c, occs, joined, (c, AggregatePolicy::ScopeKeptLatest));
        policies_are(c, occs, joined, (c, AggregatePolicy::ReAddedRetyped));
        policies_are(c, occs, joined, (c, AggregatePolicy::Omitted));
        policies_are(c, occs, joined, (c, AggregatePolicy::ViaText));
        if seen {
            let r = choose|r: int| #[trigger] has_it(history, r, c);
            let i = choose|i: int| 0 <= i < occs.len() && (#[trigger] occs[i]).revision == r;
            assert(occs.len() > 0);
            last_occurrence(history, c);
            scopes_moved(history, c);
            returns_are_retyped(history, c);
        }
    }
}

/// Whether a column was away between two revisions that have it, and came
/// back as another type or arity.
pub open spec fn came_back_retyped(
    history: Seq<(Seq<char>, SchemaModel)>,
    r: int,
    q: int,
    c: Seq<char>,
) -> bool {
    &&& has_it(history, r, c) && has_it(history, q, c)
    &&& r + 1 < q
    &&& forall|k: int| r < k < q ==> !#[trigger] has_it(history, k, c)
    &&& info_in(history, r, c).ty != info_in(history, q, c).ty || info_in(history, r, c).arity
        != info_in(history, q, c).arity
}

proof fn scopes_moved(history: Seq<(Seq<char>, SchemaModel)>, c: Seq<char>)
    requires
        history.len() <= usize::MAX,
        aggregate::occurrences(history, c).len() > 0,
    ensures
        aggregate::scope_moved(aggregate::occurrences(history, c)) <==> exists|r: int, q: int| #[trigger]
            has_it(history, r, c) && #[trigger] has_it_last(history, q, c) && info_in(
                history,
                r,
                c,
            ).scope != info_in(history, q, c).scope,
{
    let occs = aggregate::occurrences(history, c);
    let last = occs.len() - 1;
    occurrences_are(history, c);
    last_occurrence(history, c);
    assert(occs[last] == occs.last());
    if aggregate::scope_moved(occs) {
        let i = choose|i: int|
            0 <= i < occs.len() && (#[trigger] occs[i]).scope != occs.last().scope;
        assert(has_it(history, occs[i].revision as int, c));
        assert(has_it_last(history, occs.last().revision as int, c));
    }
    assert forall|r: int, q: int| #[trigger]
        has_it(history, r, c) && #[trigger] has_it_last(history, q, c) && info_in(
            history,
            r,
            c,
        ).scope != info_in(history, q, c).scope implies aggregate::scope_moved(occs) by {
        let i = choose|i: int| 0 <= i < occs.len() && (#[trigger] occs[i]).revision == r;
        let z = occs.last().revision as int;
        assert(has_it(history, z, c));
        assert(has_it(history, q, c));
        assert(q == z);
        assert(occs[i].scope != occs.last().scope);
    }
}

proof fn returns_are_retyped(history: Seq<(Seq<char>, SchemaModel)>, c: Seq<char>)
    requires
        history.len() <= usize::MAX,
    ensures
        aggregate::re_added_retyped(aggregate::occurrences(history, c)) <==> exists|r: int, q: int| #[trigger]
            came_back_retyped(history, r, q, c),
{
    let occs = aggregate::occurrences(history, c);
    occurrences_are(history, c);
    if aggregate::re_added_retyped(occs) {
        let i = choose|i: int|
            0 <= i < occs.len() - 1 && aggregate::is_retyped_return(#[trigger] occs[i], occs[i + 1]);
        let r = occs[i].revision as int;
        let q = occs[i + 1].revision as int;
        assert forall|k: int| r < k < q implies !#[trigger] has_it(history, k, c) by {
            if has_it(history, k, c) {
                let j = choose|j: int| 0 <= j < occs.len() && (#[trigger] occs[j]).revision == k;
                if j < i {
                    assert(occs[j].revision < occs[i].revision);
                }
                if j > i + 1 {
                    assert(occs[i + 1].revision < occs[j].revision);
                }
            }
        }
        assert(came_back_retyped(history, r, q, c));
    }
    assert forall|r: int, q: int| #[trigger]
        came_back_retyped(history, r, q, c) implies aggregate::re_added_retyped(occs) by {
        let i = choose|i: int| 0 <= i < occs.len() && (#[trigger] occs[i]).revision == r;
        let j = choose|j: int| 0 <= j < occs.len() && (#[trigger] occs[j]).revision == q;
        if j < i {
            assert(occs[j].revision < occs[i].revision);
        }
        if i + 1 < j {
            let k = occs[i + 1].revision as int;
            assert(occs[i].revision < occs[i + 1].revision);
            assert(occs[i + 1].revision < occs[j].revision);
            assert(has_it(history, k, c));
        }
        assert(aggregate::is_retyped_return(occs[i], occs[i + 1]));
    }
}

proof fn listed_are(
    order: Seq<Seq<char>>,
    m: Map<Seq<char>, AggregateColumnModel>,
    x: AggregateColumnModel,
)
    ensures
        aggregate::listed_columns(order, m).contains(x) <==> exists|c: Seq<char>| #[trigger]
            order.contains(c) && m.dom().contains(c) && m[c] == x,
    decreases order.len(),
{
    if order.len() > 0 {
        let rest = order.drop_last();
        let last = order.last();
        listed_are(rest, m, x);
        assert(order =~= rest + seq![last]);
        assert forall|c: Seq<char>| #[trigger] order.contains(c) <==> rest.contains(c) || c
            == last by {
            schema_laws::join_contains(rest, seq![last], c);
            assert(seq![last][0] == last);
            assert(seq![last].contains(c) == (c == last));
        }
        let more = if m.dom().contains(last) && !rest.contains(last) {
            seq![m[last]]
        } else {
            Seq::empty()
        };
        assert(aggregate::listed_columns(order, m) =~= aggregate::listed_columns(rest, m) + more);
        schema_laws::join_contains(aggregate::listed_columns(rest, m), more, x);
        if m.dom().contains(last) && !rest.contains(last) {
            assert(more[0] == m[last]);
        }
        if aggregate::listed_columns(rest, m).contains(x) {
            let c = choose|c: Seq<char>| #[trigger]
                rest.contains(c) && m.dom().contains(c) && m[c] == x;
            assert(order.contains(c));
        }
        assert(order.contains(last));
        if exists|c: Seq<char>| #[trigger] order.contains(c) && m.dom().contains(c) && m[c] == x {
            let c = choose|c: Seq<char>| #[trigger]
                order.contains(c) && m.dom().contains(c) && m[c] == x;
            if rest.contains(c) {
                assert(aggregate::listed_columns(rest, m).contains(x));
            }
        }
    }
}

proof fn kept_are<A>(s: Seq<A>, p: spec_fn(A) -> bool, x: A)
    ensures
        impact::kept(s, p).contains(x) <==> s.contains(x) && p(x),
    decreases s.len(),
{
    if s.len() > 0 {
        let rest = s.drop_last();
        let last = s.last();
        kept_are(rest, p, x);
        assert(s =~= rest + seq![last]);
        schema_laws::join_contains(rest, seq![last], x);
        assert(seq![last][0] == last);
        assert(seq![last].contains(x) == (x == last));
        if p(last) {
            assert(impact::kept(s, p) =~= impact::kept(rest, p) + seq![last]);
            schema_laws::join_contains(impact::kept(rest, p), seq![last], x);
        }
    }
}

proof fn old_are(
    order: Seq<Seq<char>>,
    m: Map<Seq<char>, AggregateColumnModel>,
    history: Seq<(Seq<char>, SchemaModel)>,
    n: nat,
    x: AggregateColumnModel,
)
    requires
        m.dom().finite(),
    ensures
        aggregate::old_columns(order, m, history, n).contains(x) <==> exists|c: Seq<char>| #[trigger]
            m.dom().contains(c) && m[c] == x && !order.contains(c) && aggregate::occurrences(history, c).len()
                > 0 && aggregate::occurrences(history, c)[0].revision < n,
    decreases n,
{
    if n > 0 {
        let before = (n - 1) as nat;
        old_are(order, m, history, before, x);
        let keys = collections::key_order::<ColumnId>(m.dom());
        collections::finite_is_listed::<ColumnId>(m.dom());
        let p = aggregate::is_old_since(order, history, n - 1);
        let mine = impact::kept(keys, p);
        let own = aggregate::values_at(mine, m);
        schema_laws::join_contains(aggregate::old_columns(order, m, history, before), own, x);
        if own.contains(x) {
            let i = choose|i: int| 0 <= i < own.len() && own[i] == x;
            let c = mine[i];
            assert(mine.contains(c));
            kept_are(keys, p, c);
            assert(m.dom().contains(c) && m[c] == x);
        }
        if aggregate::old_columns(order, m, history, before).contains(x) {
            let c = choose|c: Seq<char>| #[trigger]
                m.dom().contains(c) && m[c] == x && !order.contains(c) && aggregate::occurrences(
                    history,
                    c,
                ).len() > 0 && aggregate::occurrences(history, c)[0].revision < before;
            assert(m.dom().contains(c) && m[c] == x);
        }
        assert forall|c: Seq<char>| #[trigger]
            m.dom().contains(c) && m[c] == x && !order.contains(c) && aggregate::occurrences(history, c).len()
                > 0 && aggregate::occurrences(history, c)[0].revision < n implies aggregate::old_columns(
            order,
            m,
            history,
            n,
        ).contains(x) by {
            if aggregate::occurrences(history, c)[0].revision == n - 1 {
                kept_are(keys, p, c);
                assert(keys.contains(c));
                let i = choose|i: int| 0 <= i < mine.len() && mine[i] == c;
                assert(own[i] == x);
            }
        }
    }
}

/// Whether an aggregated column is as the latest revision that has it
/// leaves it: its id, its groups, the label of its last appearance in the
/// tree, and the next revision as the one since which it is gone.
pub open spec fn is_as_left(
    history: Seq<(Seq<char>, SchemaModel)>,
    x: AggregateColumnModel,
    c: Seq<char>,
    r: int,
    i: int,
) -> bool {
    let all = schema::schema_elements(history[r].1);
    &&& x.column == c
    &&& x.scope == info_in(history, r, c).scope
    &&& schema_laws::is_last_column(all, i, c) && x.label == (all[i].shell->Column_0).label
    &&& x.deprecated_since == if r + 1 < history.len() {
        Some(history[r + 1].0)
    } else {
        None
    }
}

proof fn labels_are(s: Seq<PlacedModel>, id: Seq<char>)
    ensures
        aggregate::labels_of(s).dom().contains(id) <==> exists|i: int| #[trigger] schema_laws::is_last_column(s, i, id),
        forall|i: int| #[trigger]
            schema_laws::is_last_column(s, i, id) ==> aggregate::labels_of(s)[id] == (s[i].shell->Column_0).label,
    decreases s.len(),
{
    if s.len() > 0 {
        let rest = s.drop_last();
        let n = s.len() - 1;
        labels_are(rest, id);
        assert(s[n] == s.last());
        let hits = s[n].shell matches ShellModel::Column(c) && c.id == id;
        assert forall|i: int| i != n implies #[trigger] schema_laws::is_last_column(s, i, id) == (schema_laws::is_last_column(
            rest,
            i,
            id,
        ) && !hits) by {
            if schema_laws::is_last_column(s, i, id) {
                assert(rest[i] == s[i]);
                assert(!(s[n].shell matches ShellModel::Column(c) && c.id == id));
                assert forall|j: int| i < j < rest.len() implies !((
                #[trigger] rest[j]).shell matches ShellModel::Column(c) && c.id == id) by {
                    assert(rest[j] == s[j]);
                }
            }
            if schema_laws::is_last_column(rest, i, id) && !hits {
                assert(rest[i] == s[i]);
                assert forall|j: int| i < j < s.len() implies !((
                #[trigger] s[j]).shell matches ShellModel::Column(c) && c.id == id) by {
                    if j < n {
                        assert(rest[j] == s[j]);
                    }
                }
            }
        }
        assert(schema_laws::is_last_column(s, n, id) == hits);
        if aggregate::labels_of(rest).dom().contains(id) && !hits {
            let i = choose|i: int| #[trigger] schema_laws::is_last_column(rest, i, id);
            assert(schema_laws::is_last_column(s, i, id));
        }
    }
}

/// The aggregate has every column of the history whose types join, and no
/// other, each as the latest revision that has it leaves it.
pub proof fn columns_are_as_last_left(
    history: Seq<(Seq<char>, SchemaModel)>,
    noms: Map<(Seq<char>, u32), Seq<OptionRowModel>>,
    c: Seq<char>,
)
    requires
        history.len() <= usize::MAX,
    ensures
        aggregate::aggregate_of(history, noms) matches Ok(out) ==> {
            let columns = out.0.columns;
            &&& (exists|k: int| 0 <= k < columns.len() && (#[trigger] columns[k]).column == c)
                <==> (exists|r: int| #[trigger] has_it(history, r, c)) && its_join(
                history,
                noms,
                c,
            ) is Some
            &&& forall|k: int|
                0 <= k < columns.len() && (#[trigger] columns[k]).column == c ==> columns[k].ty == (
                its_join(history, noms, c)->0).0 && columns[k].arity == (its_join(
                    history,
                    noms,
                    c,
                )->0).1 && exists|r: int, i: int| #[trigger]
                    has_it_last(history, r, c) && #[trigger] is_as_left(
                        history,
                        columns[k],
                        c,
                        r,
                        i,
                    )
        },
{
    if let Ok(out) = aggregate::aggregate_of(history, noms) {
        let keys = collections::key_order::<ColumnId>(aggregate::columns_seen(history));
        let m = (aggregate::aggregated(keys, history, noms)->Ok_0).0;
        let order = aggregate::latest_order(history);
        let columns = out.0.columns;
        let occs = aggregate::occurrences(history, c);
        aggregated_are(keys, history, noms);
        keys_are_the_columns(history);
        columns_seen_are(history, c);
        occurrences_are(history, c);
        assert(m.dom().subset_of(aggregate::columns_seen(history))) by {
            assert forall|x: Seq<char>| m.dom().contains(x) implies aggregate::columns_seen(history).contains(
                x,
            ) by {
                assert(keys.contains(x));
            }
        }
        vstd::set_lib::lemma_len_subset(m.dom(), aggregate::columns_seen(history));
        assert forall|x: AggregateColumnModel| #[trigger] columns.contains(x) <==> exists|
            d: Seq<char>,
        | #[trigger]
            m.dom().contains(d) && m[d] == x by {
            listed_are(order, m, x);
            old_are(order, m, history, history.len(), x);
            schema_laws::join_contains(
                aggregate::listed_columns(order, m),
                aggregate::old_columns(order, m, history, history.len()),
                x,
            );
            if exists|d: Seq<char>| #[trigger] m.dom().contains(d) && m[d] == x {
                let d = choose|d: Seq<char>| #[trigger] m.dom().contains(d) && m[d] == x;
                if order.contains(d) {
                } else {
                    first_is_early(history, d);
                    columns_seen_are(history, d);
                    assert(aggregate::columns_seen(history).contains(d));
                }
            }
        }
        if m.dom().contains(c) {
            assert(columns.contains(m[c]));
            let k = choose|k: int| 0 <= k < columns.len() && columns[k] == m[c];
            assert(columns[k].column == c);
        }
        assert forall|k: int|
            0 <= k < columns.len() && (#[trigger] columns[k]).column == c implies m.dom().contains(
            c,
        ) && columns[k] == m[c] by {
            assert(columns.contains(columns[k]));
            let d = choose|d: Seq<char>| #[trigger] m.dom().contains(d) && m[d] == columns[k];
            assert(m[d].column == d);
        }
        if m.dom().contains(c) {
            first_is_early(history, c);
            last_occurrence(history, c);
            let r = occs.last().revision as int;
            let all = schema::schema_elements(history[r].1);
            assert(occs[occs.len() - 1] == occs.last());
            labels_are(all, c);
            schema_laws::the_index_says_what_the_tree_says(history[r].1, c);
            let i = choose|i: int| #[trigger] schema_laws::is_last_column(all, i, c);
            assert(is_as_left(history, m[c], c, r, i));
        }
    }
}

proof fn first_is_early(history: Seq<(Seq<char>, SchemaModel)>, c: Seq<char>)
    requires
        history.len() <= usize::MAX,
    ensures
        aggregate::columns_seen(history).contains(c) ==> aggregate::occurrences(history, c).len() > 0 && aggregate::occurrences(
            history,
            c,
        )[0].revision < history.len(),
{
    columns_seen_are(history, c);
    occurrences_are(history, c);
    let occs = aggregate::occurrences(history, c);
    if aggregate::columns_seen(history).contains(c) {
        let r = choose|r: int| #[trigger] has_it(history, r, c);
        let i = choose|i: int| 0 <= i < occs.len() && (#[trigger] occs[i]).revision == r;
        assert(has_it(history, occs[0].revision as int, c));
    }
}

} // verus!
