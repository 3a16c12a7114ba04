//! Whether rules can be evaluated one after the other: no column may
//! depend on itself through the columns that its rule reads.

use vstd::prelude::*;
use crate::collections;
use crate::logic;
use crate::collections::OrderedMap;
use crate::ids::ColumnId;
use crate::logic::{Expr, ExprModel, sources};
use crate::order::{Modeled, contains_model};

verus! {

/// Columns whose rules depend on each other in a circle: each reads the
/// next, and the last is the first.
#[derive(Clone, Debug, PartialEq, Eq)]
pub struct RuleCycle {
    pub cycle: Vec<ColumnId>,
}

/// The model of [`RuleCycle`].
#[verifier::ext_equal]
pub struct RuleCycleModel {
    pub cycle: Seq<Seq<char>>,
}

impl DeepView for RuleCycle {
    type V = RuleCycleModel;

    open spec fn deep_view(&self) -> RuleCycleModel {
        RuleCycleModel {
            cycle: self.cycle.deep_view(),
        }
    }
}

impl View for RuleCycle {
    type V = RuleCycleModel;

    open spec fn view(&self) -> RuleCycleModel {
        self.deep_view()
    }
}

impl Modeled for RuleCycle {
    fn dup(&self) -> (r: Self) {
        RuleCycle {
            cycle: self.cycle.dup(),
        }
    }

    fn same(&self, other: &Self) -> (b: bool) {
        self.cycle.same(&other.cycle)
    }
}

impl RuleCycle {
    /// The columns of the cycle, with arrows between them.
    pub fn to_string(&self) -> (r: String)
        ensures
            r@ == "visibility rules form a cycle: "@ + crate::table::joined(
                self@.cycle,
                " \u{2192} "@,
            ),
    {
        let mut out: Vec<char> = Vec::new();
        crate::text::push_text(&mut out, "visibility rules form a cycle: ");
        let ghost start = out@;
        let ghost m = self@.cycle;
        let mut i: usize = 0;
        assert(m.take(0) =~= Seq::<Seq<char>>::empty());
        while i < self.cycle.len()
            invariant
                i <= self.cycle@.len(),
                m == self@.cycle,
                out@ == start + crate::table::joined(m.take(i as int), " \u{2192} "@),
            decreases self.cycle@.len() - i,
        {
            let ghost t = m.take(i + 1);
            proof {
                assert(t.drop_last() =~= m.take(i as int));
                assert(t.last() == self.cycle@[i as int]@);
            }
            if i > 0 {
                crate::text::push_text(&mut out, " \u{2192} ");
            }
            crate::text::push_text(&mut out, self.cycle[i].as_str());
            assert(out@ =~= start + crate::table::joined(t, " \u{2192} "@));
            i += 1;
        }
        assert(m.take(m.len() as int) =~= m);
        crate::text::text_of(&out)
    }
}

/// The order so far after visiting a column: the ruled columns that it
/// depends on come first, then the column itself. A column on the stack
/// closes a cycle.
pub open spec fn visited(
    rules: Map<Seq<char>, ExprModel>,
    n: nat,
    order: Seq<Seq<char>>,
    stack: Seq<Seq<char>>,
    column: Seq<char>,
) -> Result<Seq<Seq<char>>, Seq<Seq<char>>>
    decreases n - stack.len(), 1nat, 0nat,
{
    if !rules.dom().contains(column) || order.contains(column) {
        Ok(order)
    } else if stack.contains(column) {
        Err(stack.skip(stack.index_of_first(column)->0).push(column))
    } else if stack.len() >= n {
        Err(Seq::empty())
    } else {
        let needed = collections::key_order::<ColumnId>(logic::reads(rules[column]));
        match visited_all(rules, n, order, stack.push(column), needed) {
            Ok(after) => Ok(after.push(column)),
            Err(cycle) => Err(cycle),
        }
    }
}

/// The order so far after visiting some columns.
pub open spec fn visited_all(
    rules: Map<Seq<char>, ExprModel>,
    n: nat,
    order: Seq<Seq<char>>,
    stack: Seq<Seq<char>>,
    columns: Seq<Seq<char>>,
) -> Result<Seq<Seq<char>>, Seq<Seq<char>>>
    decreases n - stack.len(), 2nat, columns.len(),
{
    if columns.len() == 0 {
        Ok(order)
    } else {
        match visited_all(rules, n, order, stack, columns.drop_last()) {
            Ok(so_far) => visited(rules, n, so_far, stack, columns.last()),
            Err(cycle) => Err(cycle),
        }
    }
}

/// An evaluation order of ruled columns, or a cycle.
pub open spec fn evaluation_order(rules: Map<Seq<char>, ExprModel>) -> Result<
    Seq<Seq<char>>,
    Seq<Seq<char>>,
> {
    let keys = collections::key_order::<ColumnId>(rules.dom());
    visited_all(rules, keys.len(), Seq::empty(), Seq::empty(), keys)
}

/// Whether every column of a list needs only ruled columns that stand
/// before it.
pub open spec fn is_settled(rules: Map<Seq<char>, ExprModel>, order: Seq<Seq<char>>) -> bool {
    &&& order.no_duplicates()
    &&& forall|i: int| 0 <= i < order.len() ==> rules.dom().contains(#[trigger] order[i])
    &&& forall|i: int, c: Seq<char>|
        0 <= i < order.len() && #[trigger] logic::reads(rules[order[i]]).contains(c)
            && rules.dom().contains(c) ==> order.take(i).contains(c)
}

/// Whether each column of a list is ruled and reads the next.
pub open spec fn is_chain(rules: Map<Seq<char>, ExprModel>, s: Seq<Seq<char>>) -> bool {
    &&& forall|i: int| 0 <= i < s.len() ==> rules.dom().contains(#[trigger] s[i])
    &&& forall|i: int| 0 <= i < s.len() - 1 ==> logic::reads(rules[#[trigger] s[i]]).contains(s[i + 1])
}

/// Whether a list of columns goes round in a circle.
pub open spec fn is_cycle(rules: Map<Seq<char>, ExprModel>, s: Seq<Seq<char>>) -> bool {
    s.len() >= 2 && s[0] == s[s.len() - 1] && is_chain(rules, s)
}

/// Visits one column.
fn visit(
    column: &ColumnId,
    rules: &OrderedMap<ColumnId, Expr>,
    n: usize,
    order: &mut Vec<ColumnId>,
    stack: &mut Vec<ColumnId>,
) -> (r: Result<(), RuleCycle>)
    requires
        old(stack)@.len() <= n,
    ensures
        match visited(
            rules@,
            n as nat,
            old(order).deep_view(),
            old(stack).deep_view(),
            column@,
        ) {
            Ok(after) => r is Ok && final(order).deep_view() == after && final(stack).deep_view()
                == old(stack).deep_view() && final(stack)@.len() == old(stack)@.len(),
            Err(cycle) => r matches Err(x) && x@.cycle == cycle,
        },
    decreases n - old(stack)@.len(), 1nat, 0nat,
{
    let expr = match rules.get(column) {
        Some(e) => e,
        None => {
            return Ok(());
        },
    };
    if contains_model(order, column) {
        return Ok(());
    }
    let ghost path = stack.deep_view();
    if contains_model(stack, column) {
        let mut start: usize = 0;
        while start < stack.len() && !stack[start].same(column)
            invariant
                start <= stack@.len(),
                path == stack.deep_view(),
                forall|j: int| 0 <= j < start ==> #[trigger] path[j] != column@,
            decreases stack@.len() - start,
        {
            assert(path[start as int] == stack@[start as int]@);
            start += 1;
        }
        proof {
            path.index_of_first_ensures(column@);
            if start < path.len() {
                assert(path[start as int] == stack@[start as int]@);
            }
            let first = path.index_of_first(column@)->0;
            if first < start {
                assert(path[first] != column@);
            }
            assert(first == start);
        }
        let mut cycle: Vec<ColumnId> = Vec::new();
        let mut i: usize = start;
        assert(cycle.deep_view() =~= path.subrange(start as int, start as int));
        while i < stack.len()
            invariant
                start <= i <= stack@.len(),
                path == stack.deep_view(),
                cycle.deep_view() == path.subrange(start as int, i as int),
            decreases stack@.len() - i,
        {
            let ghost had = cycle.deep_view();
            cycle.push(stack[i].dup());
            assert(cycle.deep_view() =~= had.push(path[i as int]));
            assert(had.push(path[i as int]) =~= path.subrange(start as int, i + 1));
            i += 1;
        }
        let ghost had = cycle.deep_view();
        cycle.push(column.dup());
        proof {
            assert(cycle.deep_view() =~= had.push(column@));
            assert(had =~= path.skip(start as int));
        }
        return Err(RuleCycle { cycle });
    }
    if stack.len() >= n {
        let cycle: Vec<ColumnId> = Vec::new();
        assert(cycle.deep_view() =~= Seq::<Seq<char>>::empty());
        return Err(RuleCycle { cycle });
    }
    let ghost before = stack@;
    stack.push(column.dup());
    assert(stack.deep_view() =~= path.push(column@));
    let needed = sources(expr).to_vec();
    match visit_all(&needed, rules, n, order, stack) {
        Ok(_) => {},
        Err(c) => {
            return Err(c);
        },
    }
    let ghost on_top = stack.deep_view();
    stack.pop();
    assert(stack.deep_view() =~= on_top.drop_last());
    assert(path.push(column@).drop_last() =~= path);
    let ghost had = order.deep_view();
    order.push(column.dup());
    assert(order.deep_view() =~= had.push(column@));
    Ok(())
}

proof fn visited_all_stops(
    rules: Map<Seq<char>, ExprModel>,
    n: nat,
    order: Seq<Seq<char>>,
    stack: Seq<Seq<char>>,
    columns: Seq<Seq<char>>,
    k: int,
)
    requires
        0 <= k <= columns.len(),
        visited_all(rules, n, order, stack, columns.take(k)) is Err,
    ensures
        visited_all(rules, n, order, stack, columns) == visited_all(
            rules,
            n,
            order,
            stack,
            columns.take(k),
        ),
    decreases columns.len() - k,
{
    if k == columns.len() {
        assert(columns.take(k) =~= columns);
    } else {
        assert(columns.take(k + 1).drop_last() =~= columns.take(k));
        visited_all_stops(rules, n, order, stack, columns, k + 1);
    }
}

/// Visits some columns, one after the other.
fn visit_all(
    columns: &Vec<ColumnId>,
    rules: &OrderedMap<ColumnId, Expr>,
    n: usize,
    order: &mut Vec<ColumnId>,
    stack: &mut Vec<ColumnId>,
) -> (r: Result<(), RuleCycle>)
    requires
        old(stack)@.len() <= n,
    ensures
        match visited_all(
            rules@,
            n as nat,
            old(order).deep_view(),
            old(stack).deep_view(),
            columns.deep_view(),
        ) {
            Ok(after) => r is Ok && final(order).deep_view() == after && final(stack).deep_view()
                == old(stack).deep_view() && final(stack)@.len() == old(stack)@.len(),
            Err(cycle) => r matches Err(x) && x@.cycle == cycle,
        },
    decreases n - old(stack)@.len(), 2nat, columns@.len(),
{
    let ghost m = columns.deep_view();
    let ghost start = order.deep_view();
    let ghost path = stack.deep_view();
    let mut i: usize = 0;
    assert(m.take(0) =~= Seq::<Seq<char>>::empty());
    while i < columns.len()
        invariant
            i <= columns@.len(),
            m == columns.deep_view(),
            start == old(order).deep_view(),
            path == old(stack).deep_view(),
            stack.deep_view() == path,
            stack@.len() == old(stack)@.len(),
            stack@.len() <= n,
            visited_all(rules@, n as nat, start, path, m.take(i as int)) == Ok::<
                Seq<Seq<char>>,
                Seq<Seq<char>>,
            >(order.deep_view()),
        decreases columns@.len() - i,
    {
        proof {
            assert(m.take(i + 1).drop_last() =~= m.take(i as int));
            assert(m.take(i + 1).last() == columns@[i as int]@);
        }
        match visit(&columns[i], rules, n, order, stack) {
            Ok(_) => {},
            Err(c) => {
                proof {
                    visited_all_stops(rules@, n as nat, start, path, m, i + 1);
                }
                return Err(c);
            },
        }
        i += 1;
    }
    assert(m.take(m.len() as int) =~= m);
    Ok(())
}

/// Checks that no ruled column depends on itself, and gives an order in
/// which to evaluate the rules.
pub fn check_acyclic(rules: &OrderedMap<ColumnId, Expr>) -> (r: Result<Vec<ColumnId>, RuleCycle>)
    ensures
        match evaluation_order(rules@) {
            Ok(order) => r matches Ok(x) && x.deep_view() == order,
            Err(cycle) => r matches Err(x) && x@.cycle == cycle,
        },
{
    let n = rules.len();
    let ghost keys = rules.keys();
    let mut columns: Vec<ColumnId> = Vec::new();
    let mut i: usize = 0;
    assert(columns.deep_view() =~= keys.take(0));
    while i < n
        invariant
            i <= n == keys.len(),
            keys == rules.keys(),
            columns.deep_view() == keys.take(i as int),
        decreases n - i,
    {
        let ghost had = columns.deep_view();
        columns.push(rules.key_at(i).dup());
        assert(columns.deep_view() =~= had.push(keys[i as int]));
        assert(had.push(keys[i as int]) =~= keys.take(i + 1));
        i += 1;
    }
    assert(keys.take(n as int) =~= keys);
    let mut order: Vec<ColumnId> = Vec::new();
    let mut stack: Vec<ColumnId> = Vec::new();
    assert(order.deep_view() =~= Seq::<Seq<char>>::empty());
    assert(stack.deep_view() =~= Seq::<Seq<char>>::empty());
    match visit_all(&columns, rules, n, &mut order, &mut stack) {
        Ok(_) => Ok(order),
        Err(c) => Err(c),
    }
}

/// Whether a column can be visited next: nothing is on the way, or the
/// last column on the way reads it.
spec fn is_next(
    rules: Map<Seq<char>, ExprModel>,
    stack: Seq<Seq<char>>,
    column: Seq<char>,
) -> bool {
    stack.len() == 0 || logic::reads(rules[stack.last()]).contains(column)
}

/// What holds between visits.
spec fn is_consistent(
    rules: Map<Seq<char>, ExprModel>,
    order: Seq<Seq<char>>,
    stack: Seq<Seq<char>>,
) -> bool {
    &&& rules.dom().finite()
    &&& is_settled(rules, order)
    &&& is_chain(rules, stack)
    &&& stack.no_duplicates()
    &&& forall|c: Seq<char>| #[trigger] stack.contains(c) ==> !order.contains(c)
}

/// What a visit of some columns leaves.
spec fn is_visit(
    rules: Map<Seq<char>, ExprModel>,
    order: Seq<Seq<char>>,
    stack: Seq<Seq<char>>,
    columns: Seq<Seq<char>>,
    r: Result<Seq<Seq<char>>, Seq<Seq<char>>>,
) -> bool {
    match r {
        Ok(after) => {
            &&& is_consistent(rules, after, stack)
            &&& order.is_prefix_of(after)
            &&& forall|c: Seq<char>| #[trigger]
                columns.contains(c) && rules.dom().contains(c) ==> after.contains(c)
        },
        Err(cycle) => is_cycle(rules, cycle),
    }
}

proof fn visit_is_sound(
    rules: Map<Seq<char>, ExprModel>,
    n: nat,
    order: Seq<Seq<char>>,
    stack: Seq<Seq<char>>,
    column: Seq<char>,
)
    requires
        n == collections::key_order::<ColumnId>(rules.dom()).len(),
        is_consistent(rules, order, stack),
        is_next(rules, stack, column),
    ensures
        is_visit(rules, order, stack, seq![column], visited(rules, n, order, stack, column)),
    decreases n - stack.len(), 1nat, 0nat,
{
    assert(seq![column][0] == column);
    assert forall|c: Seq<char>| #[trigger] seq![column].contains(c) implies c == column by {}
    if !rules.dom().contains(column) || order.contains(column) {
        assert(order.is_prefix_of(order));
    } else if stack.contains(column) {
        stack.index_of_first_ensures(column);
        let start = stack.index_of_first(column)->0;
        let cycle = stack.skip(start).push(column);
        assert(cycle[0] == stack[start]);
        assert forall|i: int| 0 <= i < cycle.len() implies rules.dom().contains(
            #[trigger] cycle[i],
        ) by {
            if i < cycle.len() - 1 {
                assert(cycle[i] == stack[start + i]);
            }
        }
        assert forall|i: int| 0 <= i < cycle.len() - 1 implies logic::reads(
            rules[#[trigger] cycle[i]],
        ).contains(cycle[i + 1]) by {
            assert(cycle[i] == stack[start + i]);
            if i + 1 < cycle.len() - 1 {
                assert(cycle[i + 1] == stack[start + i + 1]);
            } else {
                assert(cycle[i] == stack.last());
            }
        }
    } else {
        let longer = stack.push(column);
        assert forall|i: int| 0 <= i < longer.len() implies rules.dom().contains(
            #[trigger] longer[i],
        ) by {
            if i < stack.len() {
                assert(longer[i] == stack[i]);
            }
        }
        assert forall|i: int, j: int|
            0 <= i < longer.len() && 0 <= j < longer.len() && i != j implies longer[i]
            != longer[j] by {
            if i < stack.len() && j < stack.len() {
            } else if i < stack.len() {
                assert(stack.contains(stack[i]));
            } else {
                assert(stack.contains(stack[j]));
            }
        }
        collections::distinct_is_short::<ColumnId>(longer, rules.dom());
        assert(stack.len() < n);
        assert forall|i: int| 0 <= i < longer.len() - 1 implies logic::reads(
            rules[#[trigger] longer[i]],
        ).contains(longer[i + 1]) by {
            assert(longer[i] == stack[i]);
            if i + 1 < stack.len() {
                assert(longer[i + 1] == stack[i + 1]);
            }
        }
        assert forall|c: Seq<char>| #[trigger] longer.contains(c) implies !order.contains(c) by {
            let i = longer.index_of(c);
            if i < stack.len() {
                assert(stack[i] == c);
                assert(stack.contains(c));
            }
        }
        let needs = logic::reads(rules[column]);
        let needed = collections::key_order::<ColumnId>(needs);
        logic::reads_are_finite(rules[column]);
        collections::finite_is_listed::<ColumnId>(needs);
        assert forall|c: Seq<char>| #[trigger] needed.contains(c) implies is_next(
            rules,
            longer,
            c,
        ) by {}
        visits_are_sound(rules, n, order, longer, needed);
        match visited_all(rules, n, order, longer, needed) {
            Ok(middle) => {
                let after = middle.push(column);
                assert(longer[stack.len() as int] == column);
                assert(longer.contains(column));
                assert(!middle.contains(column));
                assert(order.is_prefix_of(after)) by {
                    assert(order =~= after.subrange(0, order.len() as int));
                }
                assert forall|i: int, c: Seq<char>|
                    0 <= i < after.len() && #[trigger] logic::reads(rules[after[i]]).contains(c)
                        && rules.dom().contains(c) implies after.take(i).contains(c) by {
                    if i < middle.len() {
                        assert(after[i] == middle[i]);
                        assert(after.take(i) =~= middle.take(i));
                    } else {
                        assert(after[i] == column);
                        assert(needs.contains(c));
                        assert(needed.contains(c));
                        assert(after.take(i) =~= middle);
                    }
                }
                assert forall|i: int| 0 <= i < after.len() implies rules.dom().contains(
                    #[trigger] after[i],
                ) by {
                    if i < middle.len() {
                        assert(after[i] == middle[i]);
                    }
                }
                assert forall|i: int, j: int|
                    0 <= i < after.len() && 0 <= j < after.len() && i != j implies after[i]
                    != after[j] by {
                    if i < middle.len() && j < middle.len() {
                    } else if i < middle.len() {
                        assert(middle.contains(middle[i]));
                    } else {
                        assert(middle.contains(middle[j]));
                    }
                }
                assert forall|c: Seq<char>| #[trigger] stack.contains(c) implies !after.contains(
                    c,
                ) by {
                    let i = stack.index_of(c);
                    assert(longer[i] == c);
                    assert(longer.contains(c));
                    if after.contains(c) {
                        let j = after.index_of(c);
                        if j < middle.len() {
                            assert(middle[j] == c);
                            assert(middle.contains(c));
                        }
                    }
                }
                assert(after[middle.len() as int] == column);
            },
            Err(_) => {},
        }
    }
}

proof fn visits_are_sound(
    rules: Map<Seq<char>, ExprModel>,
    n: nat,
    order: Seq<Seq<char>>,
    stack: Seq<Seq<char>>,
    columns: Seq<Seq<char>>,
)
    requires
        n == collections::key_order::<ColumnId>(rules.dom()).len(),
        is_consistent(rules, order, stack),
        forall|c: Seq<char>| #[trigger] columns.contains(c) ==> is_next(rules, stack, c),
    ensures
        is_visit(rules, order, stack, columns, visited_all(rules, n, order, stack, columns)),
    decreases n - stack.len(), 2nat, columns.len(),
{
    if columns.len() == 0 {
        assert(order.is_prefix_of(order));
    } else {
        let rest = columns.drop_last();
        assert forall|c: Seq<char>| #[trigger] rest.contains(c) implies is_next(
            rules,
            stack,
            c,
        ) by {
            let i = rest.index_of(c);
            assert(columns[i] == c);
            assert(columns.contains(c));
        }
        visits_are_sound(rules, n, order, stack, rest);
        match visited_all(rules, n, order, stack, rest) {
            Ok(middle) => {
                assert(columns.contains(columns.last()));
                visit_is_sound(rules, n, middle, stack, columns.last());
                match visited(rules, n, middle, stack, columns.last()) {
                    Ok(after) => {
                        assert(order =~= after.subrange(0, order.len() as int)) by {
                            assert(order =~= middle.subrange(0, order.len() as int));
                            assert(middle =~= after.subrange(0, middle.len() as int));
                        }
                        assert forall|c: Seq<char>| #[trigger]
                            columns.contains(c) && rules.dom().contains(c) implies after.contains(
                            c,
                        ) by {
                            let i = columns.index_of(c);
                            if i < rest.len() {
                                assert(rest[i] == c);
                                assert(rest.contains(c));
                                let j = middle.index_of(c);
                                assert(after[j] == middle[j]);
                            } else {
                                assert(seq![columns.last()][0] == c);
                                assert(seq![columns.last()].contains(c));
                            }
                        }
                    },
                    Err(_) => {},
                }
            },
            Err(_) => {},
        }
    }
}

/// An evaluation order lists every ruled column once, each after the
/// ruled columns that it reads; and a refusal names columns that do go
/// round in a circle.
pub proof fn order_is_topological(rules: Map<Seq<char>, ExprModel>)
    requires
        rules.dom().finite(),
    ensures
        match evaluation_order(rules) {
            Ok(order) => is_settled(rules, order) && order.to_set() == rules.dom(),
            Err(cycle) => is_cycle(rules, cycle),
        },
{
    let keys = collections::key_order::<ColumnId>(rules.dom());
    collections::finite_is_listed::<ColumnId>(rules.dom());
    let none = Seq::<Seq<char>>::empty();
    visits_are_sound(rules, keys.len(), none, none, keys);
    match evaluation_order(rules) {
        Ok(order) => {
            assert forall|c: Seq<char>| order.to_set().contains(c) <==> rules.dom().contains(
                c,
            ) by {
                if rules.dom().contains(c) {
                    assert(keys.contains(c));
                }
                if order.contains(c) {
                    assert(rules.dom().contains(order[order.index_of(c)]));
                }
            }
            assert(order.to_set() =~= rules.dom());
        },
        Err(_) => {},
    }
}

proof fn chain_moves_back(
    rules: Map<Seq<char>, ExprModel>,
    order: Seq<Seq<char>>,
    s: Seq<Seq<char>>,
    k: int,
)
    requires
        is_settled(rules, order),
        is_chain(rules, s),
        order.to_set() == rules.dom(),
        0 <= k < s.len(),
    ensures
        order.contains(s[k]),
        order.index_of(s[k]) <= order.index_of(s[0]) - k,
    decreases k,
{
    assert(rules.dom().contains(s[k]));
    assert(order.to_set().contains(s[k]));
    if k > 0 {
        chain_moves_back(rules, order, s, k - 1);
        let i = order.index_of(s[k - 1]);
        assert(logic::reads(rules[s[k - 1]]).contains(s[k - 1 + 1]));
        assert(logic::reads(rules[order[i]]).contains(s[k]));
        let before = order.take(i);
        assert(before.contains(s[k]));
        let j = before.index_of(s[k]);
        assert(order[j] == s[k]);
        assert(order.index_of(s[k]) == j);
    }
}

/// Rules that go round in a circle are refused.
pub proof fn cyclic_rules_are_refused(rules: Map<Seq<char>, ExprModel>, cycle: Seq<Seq<char>>)
    requires
        rules.dom().finite(),
        is_cycle(rules, cycle),
    ensures
        evaluation_order(rules) is Err,
{
    order_is_topological(rules);
    if let Ok(order) = evaluation_order(rules) {
        chain_moves_back(rules, order, cycle, cycle.len() - 1);
    }
}

proof fn unruled_are_passed_over(
    rules: Map<Seq<char>, ExprModel>,
    n: nat,
    order: Seq<Seq<char>>,
    stack: Seq<Seq<char>>,
    columns: Seq<Seq<char>>,
)
    requires
        forall|c: Seq<char>| #[trigger] columns.contains(c) ==> !rules.dom().contains(c),
    ensures
        visited_all(rules, n, order, stack, columns) == Ok::<_, Seq<Seq<char>>>(order),
    decreases columns.len(),
{
    if columns.len() > 0 {
        let rest = columns.drop_last();
        assert forall|c: Seq<char>| #[trigger] rest.contains(c) implies !rules.dom().contains(
            c,
        ) by {
            assert(columns[rest.index_of(c)] == c);
            assert(columns.contains(c));
        }
        unruled_are_passed_over(rules, n, order, stack, rest);
        assert(columns.contains(columns[columns.len() - 1]));
        assert(visited(rules, n, order, stack, columns.last()) == Ok::<_, Seq<Seq<char>>>(order));
    }
}

proof fn independent_are_taken_in_turn(
    rules: Map<Seq<char>, ExprModel>,
    n: nat,
    columns: Seq<Seq<char>>,
)
    requires
        forall|c: Seq<char>, d: Seq<char>|
            rules.dom().contains(c) && #[trigger] logic::reads(rules[c]).contains(d)
                ==> !rules.dom().contains(d),
        columns.no_duplicates(),
        forall|c: Seq<char>| #[trigger] columns.contains(c) ==> rules.dom().contains(c),
        n > 0 || columns.len() == 0,
    ensures
        visited_all(rules, n, Seq::empty(), Seq::empty(), columns) == Ok::<_, Seq<Seq<char>>>(
            columns,
        ),
    decreases columns.len(),
{
    if columns.len() > 0 {
        let none = Seq::<Seq<char>>::empty();
        let rest = columns.drop_last();
        let last = columns.last();
        assert forall|c: Seq<char>| #[trigger] rest.contains(c) implies rules.dom().contains(c) by {
            assert(columns[rest.index_of(c)] == c);
            assert(columns.contains(c));
        }
        assert(columns.contains(columns[columns.len() - 1]));
        independent_are_taken_in_turn(rules, n, rest);
        assert(!rest.contains(last)) by {
            if rest.contains(last) {
                let i = rest.index_of(last);
                assert(columns[i] == columns[columns.len() - 1]);
            }
        }
        let needed = collections::key_order::<ColumnId>(logic::reads(rules[last]));
        logic::reads_are_finite(rules[last]);
        collections::finite_is_listed::<ColumnId>(logic::reads(rules[last]));
        assert forall|c: Seq<char>| #[trigger] needed.contains(c) implies !rules.dom().contains(
            c,
        ) by {
            assert(logic::reads(rules[last]).contains(c));
        }
        unruled_are_passed_over(rules, n, rest, none.push(last), needed);
        assert(rest.push(last) =~= columns);
        assert(visited(rules, n, rest, none, last) == Ok::<_, Seq<Seq<char>>>(columns));
    } else {
        assert(columns =~= Seq::<Seq<char>>::empty());
    }
}

/// Rules that read no ruled column are evaluated in the order of their
/// columns' ids.
pub proof fn independent_rules_go_by_id(rules: Map<Seq<char>, ExprModel>)
    requires
        rules.dom().finite(),
        forall|c: Seq<char>, d: Seq<char>|
            rules.dom().contains(c) && #[trigger] logic::reads(rules[c]).contains(d)
                ==> !rules.dom().contains(d),
    ensures
        evaluation_order(rules) == Ok::<_, Seq<Seq<char>>>(collections::key_order::<ColumnId>(rules.dom())),
{
    let keys = collections::key_order::<ColumnId>(rules.dom());
    collections::finite_is_listed::<ColumnId>(rules.dom());
    collections::in_order_is_distinct::<ColumnId>(keys);
    independent_are_taken_in_turn(rules, keys.len(), keys);
}

} // verus!
