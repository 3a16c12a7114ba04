//! Three-way merge of schemas. Columns, groups and resolver declarations
//! merge one by one, by identity; the merged tree keeps the left side's
//! order, with what only the right side has appended to each container.
//! Conflicts are reported, never guessed.

use vstd::prelude::*;
use crate::collections;
use crate::schema;
use crate::collections::{OrderedMap, OrderedSet};
use crate::ids::{ColumnId, GroupId, ResolverId};
use crate::order::{Key, Modeled, Order, contains_model};
use crate::schema::{
    Column, Element, ElementModel, Group, GroupModel, GroupShellModel, Placed, PlacedModel,
    ResolverDeclaration, ResolverDeclarationModel, Schema, SchemaModel, Shell, ShellModel,
};

verus! {

/// The identity of an element.
#[derive(Clone, Debug, PartialEq, Eq)]
pub enum ElementId {
    Column(ColumnId),
    Group(GroupId),
}

/// The model of [`ElementId`].
#[verifier::ext_equal]
pub enum ElementIdModel {
    Column(Seq<char>),
    Group(Seq<char>),
}

impl DeepView for ElementId {
    type V = ElementIdModel;

    open spec fn deep_view(&self) -> ElementIdModel {
        match self {
            ElementId::Column(x) => ElementIdModel::Column(x.deep_view()),
            ElementId::Group(x) => ElementIdModel::Group(x.deep_view()),
        }
    }
}

impl View for ElementId {
    type V = ElementIdModel;

    open spec fn view(&self) -> ElementIdModel {
        self.deep_view()
    }
}

impl Modeled for ElementId {
    fn dup(&self) -> (r: Self) {
        match self {
            ElementId::Column(x) => ElementId::Column(x.dup()),
            ElementId::Group(x) => ElementId::Group(x.dup()),
        }
    }

    fn same(&self, other: &Self) -> (b: bool) {
        match (self, other) {
            (ElementId::Column(x), ElementId::Column(y)) => x.same(y),
            (ElementId::Group(x), ElementId::Group(y)) => x.same(y),
            _ => false,
        }
    }
}

impl Key for ElementId {
    /// Columns before groups.
    open spec fn order(a: ElementIdModel, b: ElementIdModel) -> Order {
        match (a, b) {
            (ElementIdModel::Column(x), ElementIdModel::Column(y)) => ColumnId::order(x, y),
            (ElementIdModel::Group(x), ElementIdModel::Group(y)) => GroupId::order(x, y),
            (ElementIdModel::Column(_), ElementIdModel::Group(_)) => Order::Less,
            (ElementIdModel::Group(_), ElementIdModel::Column(_)) => Order::Greater,
        }
    }

    proof fn order_equal(a: ElementIdModel, b: ElementIdModel) {
        match (a, b) {
            (ElementIdModel::Column(x), ElementIdModel::Column(y)) => ColumnId::order_equal(x, y),
            (ElementIdModel::Group(x), ElementIdModel::Group(y)) => GroupId::order_equal(x, y),
            _ => {},
        }
    }

    proof fn order_flip(a: ElementIdModel, b: ElementIdModel) {
        match (a, b) {
            (ElementIdModel::Column(x), ElementIdModel::Column(y)) => ColumnId::order_flip(x, y),
            (ElementIdModel::Group(x), ElementIdModel::Group(y)) => GroupId::order_flip(x, y),
            _ => {},
        }
    }

    proof fn order_transitive(a: ElementIdModel, b: ElementIdModel, c: ElementIdModel) {
        match (a, b, c) {
            (
                ElementIdModel::Column(x),
                ElementIdModel::Column(y),
                ElementIdModel::Column(z),
            ) => ColumnId::order_transitive(x, y, z),
            (
                ElementIdModel::Group(x),
                ElementIdModel::Group(y),
                ElementIdModel::Group(z),
            ) => GroupId::order_transitive(x, y, z),
            _ => {},
        }
    }

    fn compare(&self, other: &Self) -> (o: Order) {
        match (self, other) {
            (ElementId::Column(x), ElementId::Column(y)) => x.compare(y),
            (ElementId::Group(x), ElementId::Group(y)) => x.compare(y),
            (ElementId::Column(_), ElementId::Group(_)) => Order::Less,
            (ElementId::Group(_), ElementId::Column(_)) => Order::Greater,
        }
    }
}

/// An element without what it holds, and the group that directly holds
/// it.
#[derive(Clone, Debug, PartialEq, Eq)]
pub struct Def {
    pub shell: Shell,
    pub parent: Option<GroupId>,
}

/// The model of [`Def`].
#[verifier::ext_equal]
pub struct DefModel {
    pub shell: ShellModel,
    pub parent: Option<Seq<char>>,
}

impl DeepView for Def {
    type V = DefModel;

    open spec fn deep_view(&self) -> DefModel {
        DefModel {
            shell: self.shell.deep_view(),
            parent: self.parent.deep_view(),
        }
    }
}

impl View for Def {
    type V = DefModel;

    open spec fn view(&self) -> DefModel {
        self.deep_view()
    }
}

impl Modeled for Def {
    fn dup(&self) -> (r: Self) {
        Def {
            shell: self.shell.dup(),
            parent: self.parent.dup(),
        }
    }

    fn same(&self, other: &Self) -> (b: bool) {
        self.shell.same(&other.shell)
            && self.parent.same(&other.parent)
    }
}

/// Why two sides do not merge.
#[derive(Clone, Debug, PartialEq, Eq)]
pub enum MergeConflict {
    /// Both sides changed the column, differently.
    Column(ColumnId),
    /// Both sides changed the group, differently; or the two sides' moves
    /// put it, in a circle, below itself.
    Group(GroupId),
    /// Both sides changed the resolver, differently.
    Resolver(ResolverId),
    /// One side deleted a group in which the other added or changed an
    /// element: the element would have nowhere to live.
    OrphanedByDeletedGroup { group: GroupId, element: String },
}

/// The model of [`MergeConflict`].
#[verifier::ext_equal]
pub enum MergeConflictModel {
    Column(Seq<char>),
    Group(Seq<char>),
    Resolver(Seq<char>),
    OrphanedByDeletedGroup { group: Seq<char>, element: Seq<char> },
}

impl DeepView for MergeConflict {
    type V = MergeConflictModel;

    open spec fn deep_view(&self) -> MergeConflictModel {
        match self {
            MergeConflict::Column(x) => MergeConflictModel::Column(x.deep_view()),
            MergeConflict::Group(x) => MergeConflictModel::Group(x.deep_view()),
            MergeConflict::Resolver(x) => MergeConflictModel::Resolver(x.deep_view()),
            MergeConflict::OrphanedByDeletedGroup { group, element } => MergeConflictModel::OrphanedByDeletedGroup {
                group: group.deep_view(),
                element: element.deep_view(),
            },
        }
    }
}

impl View for MergeConflict {
    type V = MergeConflictModel;

    open spec fn view(&self) -> MergeConflictModel {
        self.deep_view()
    }
}

impl Modeled for MergeConflict {
    fn dup(&self) -> (r: Self) {
        match self {
            MergeConflict::Column(x) => MergeConflict::Column(x.dup()),
            MergeConflict::Group(x) => MergeConflict::Group(x.dup()),
            MergeConflict::Resolver(x) => MergeConflict::Resolver(x.dup()),
            MergeConflict::OrphanedByDeletedGroup { group, element } => MergeConflict::OrphanedByDeletedGroup {
                group: group.dup(),
                element: element.dup(),
            },
        }
    }

    fn same(&self, other: &Self) -> (b: bool) {
        match (self, other) {
            (MergeConflict::Column(x), MergeConflict::Column(y)) => x.same(y),
            (MergeConflict::Group(x), MergeConflict::Group(y)) => x.same(y),
            (MergeConflict::Resolver(x), MergeConflict::Resolver(y)) => x.same(y),
            (
                MergeConflict::OrphanedByDeletedGroup { group, element },
                MergeConflict::OrphanedByDeletedGroup { group: group2, element: element2 },
            ) => {
                group.same(group2)
                    && element.same(element2)
            },
            _ => false,
        }
    }
}

/// The identity of an element.
pub open spec fn id_of(s: ShellModel) -> ElementIdModel {
    match s {
        ShellModel::Column(c) => ElementIdModel::Column(c.id),
        ShellModel::Group(g) => ElementIdModel::Group(g.id),
    }
}

fn element_id(s: &Shell) -> (r: ElementId)
    ensures
        r@ == id_of(s@),
{
    match s {
        Shell::Column(c) => ElementId::Column(c.id.dup()),
        Shell::Group(g) => ElementId::Group(g.id.dup()),
    }
}

/// Elements by identity; of two with one identity the later counts.
pub open spec fn defs_of(s: Seq<PlacedModel>) -> Map<ElementIdModel, DefModel>
    decreases s.len(),
{
    if s.len() == 0 {
        Map::empty()
    } else {
        defs_of(s.drop_last()).insert(
            id_of(s.last().shell),
            DefModel { shell: s.last().shell, parent: s.last().parent },
        )
    }
}

fn flatten(elements: &Vec<Placed>) -> (r: OrderedMap<ElementId, Def>)
    ensures
        r@ == defs_of(elements.deep_view()),
{
    let ghost s = elements.deep_view();
    let mut r: OrderedMap<ElementId, Def> = OrderedMap::new();
    let mut i: usize = 0;
    assert(s.take(0) =~= Seq::<PlacedModel>::empty());
    while i < elements.len()
        invariant
            i <= elements@.len(),
            s == elements.deep_view(),
            r@ == defs_of(s.take(i as int)),
        decreases elements@.len() - i,
    {
        let e = &elements[i];
        proof {
            assert(s.take(i + 1).drop_last() =~= s.take(i as int));
            assert(s.take(i + 1).last() == e@);
        }
        r.insert(element_id(&e.shell), Def { shell: e.shell.dup(), parent: e.parent.dup() });
        i += 1;
    }
    assert(s.take(s.len() as int) =~= s);
    r
}

/// The three-way rule: where one side did not change, the other counts;
/// where both changed alike, they agree; else they conflict, and nothing
/// comes out.
pub open spec fn merged3<T>(base: Option<T>, left: Option<T>, right: Option<T>) -> Option<
    Option<T>,
> {
    if left == right {
        Some(left)
    } else if left == base {
        Some(right)
    } else if right == base {
        Some(left)
    } else {
        None
    }
}

fn same_option<T: Modeled>(a: Option<&T>, b: Option<&T>) -> (r: bool)
    ensures
        r == (model_of(a) == model_of(b)),
{
    match (a, b) {
        (None, None) => true,
        (Some(x), Some(y)) => x.same(y),
        _ => false,
    }
}

/// The model of what a reference may point to.
pub open spec fn model_of<T: Modeled>(a: Option<&T>) -> Option<T::V> {
    match a {
        Some(x) => Some(x.deep_view()),
        None => None,
    }
}

fn merge3<'a, T: Modeled>(
    base: Option<&'a T>,
    left: Option<&'a T>,
    right: Option<&'a T>,
) -> (r: Option<Option<&'a T>>)
    ensures
        match r {
            Some(x) => merged3(model_of(base), model_of(left), model_of(right)) == Some(
                model_of(x),
            ),
            None => merged3(model_of(base), model_of(left), model_of(right)) is None,
        },
{
    if same_option(left, right) {
        Some(left)
    } else if same_option(left, base) {
        Some(right)
    } else if same_option(right, base) {
        Some(left)
    } else {
        None
    }
}

/// What a map holds under a key.
pub open spec fn at<K, V>(m: Map<K, V>, k: K) -> Option<V> {
    if m.dom().contains(k) {
        Some(m[k])
    } else {
        None
    }
}

/// What three maps have, merged: what does not conflict, by key.
pub open spec fn merged_defs(
    b: Map<ElementIdModel, DefModel>,
    l: Map<ElementIdModel, DefModel>,
    r: Map<ElementIdModel, DefModel>,
) -> Map<ElementIdModel, DefModel> {
    Map::new(
        |k: ElementIdModel| merged3(at(b, k), at(l, k), at(r, k)) matches Some(Some(_)),
        |k: ElementIdModel| merged3(at(b, k), at(l, k), at(r, k))->0->0,
    )
}

/// The conflict on an element.
pub open spec fn element_conflict(k: ElementIdModel) -> MergeConflictModel {
    match k {
        ElementIdModel::Column(c) => MergeConflictModel::Column(c),
        ElementIdModel::Group(g) => MergeConflictModel::Group(g),
    }
}

/// The elements among some that both sides changed differently.
pub open spec fn element_conflicts(
    keys: Seq<ElementIdModel>,
    b: Map<ElementIdModel, DefModel>,
    l: Map<ElementIdModel, DefModel>,
    r: Map<ElementIdModel, DefModel>,
) -> Seq<MergeConflictModel>
    decreases keys.len(),
{
    if keys.len() == 0 {
        Seq::empty()
    } else {
        let rest = element_conflicts(keys.drop_last(), b, l, r);
        let k = keys.last();
        if merged3(at(b, k), at(l, k), at(r, k)) is None {
            rest.push(element_conflict(k))
        } else {
            rest
        }
    }
}

/// All keys of three maps, in order.
pub open spec fn all_elements(
    b: Map<ElementIdModel, DefModel>,
    l: Map<ElementIdModel, DefModel>,
    r: Map<ElementIdModel, DefModel>,
) -> Seq<ElementIdModel> {
    collections::key_order::<ElementId>(b.dom().union(l.dom()).union(r.dom()))
}

/// Declarations by identity; of two the later counts.
pub open spec fn resolvers_by_id(s: Seq<ResolverDeclarationModel>) -> Map<
    Seq<char>,
    ResolverDeclarationModel,
>
    decreases s.len(),
{
    if s.len() == 0 {
        Map::empty()
    } else {
        resolvers_by_id(s.drop_last()).insert(s.last().id, s.last())
    }
}

/// The merged declarations of some identities, in their order.
pub open spec fn merged_resolvers(
    keys: Seq<Seq<char>>,
    b: Map<Seq<char>, ResolverDeclarationModel>,
    l: Map<Seq<char>, ResolverDeclarationModel>,
    r: Map<Seq<char>, ResolverDeclarationModel>,
) -> Seq<ResolverDeclarationModel>
    decreases keys.len(),
{
    if keys.len() == 0 {
        Seq::empty()
    } else {
        let rest = merged_resolvers(keys.drop_last(), b, l, r);
        let k = keys.last();
        match merged3(at(b, k), at(l, k), at(r, k)) {
            Some(Some(d)) => rest.push(d),
            _ => rest,
        }
    }
}

/// The declarations among some that both sides changed differently.
pub open spec fn resolver_conflicts(
    keys: Seq<Seq<char>>,
    b: Map<Seq<char>, ResolverDeclarationModel>,
    l: Map<Seq<char>, ResolverDeclarationModel>,
    r: Map<Seq<char>, ResolverDeclarationModel>,
) -> Seq<MergeConflictModel>
    decreases keys.len(),
{
    if keys.len() == 0 {
        Seq::empty()
    } else {
        let rest = resolver_conflicts(keys.drop_last(), b, l, r);
        let k = keys.last();
        if merged3(at(b, k), at(l, k), at(r, k)) is None {
            rest.push(MergeConflictModel::Resolver(k))
        } else {
            rest
        }
    }
}

/// All identities of three sets of declarations, in order.
pub open spec fn all_resolvers(
    b: Map<Seq<char>, ResolverDeclarationModel>,
    l: Map<Seq<char>, ResolverDeclarationModel>,
    r: Map<Seq<char>, ResolverDeclarationModel>,
) -> Seq<Seq<char>> {
    collections::key_order::<ResolverId>(b.dom().union(l.dom()).union(r.dom()))
}

/// The text of an element's identity.
pub open spec fn element_text(k: ElementIdModel) -> Seq<char> {
    match k {
        ElementIdModel::Column(c) => c,
        ElementIdModel::Group(g) => g,
    }
}

/// The elements among some whose group did not survive the merge.
pub open spec fn orphans(
    keys: Seq<ElementIdModel>,
    merged: Map<ElementIdModel, DefModel>,
) -> Seq<MergeConflictModel>
    decreases keys.len(),
{
    if keys.len() == 0 {
        Seq::empty()
    } else {
        let rest = orphans(keys.drop_last(), merged);
        match merged[keys.last()].parent {
            Some(group) => if merged.dom().contains(ElementIdModel::Group(group)) {
                rest
            } else {
                rest.push(
                    MergeConflictModel::OrphanedByDeletedGroup {
                        group,
                        element: element_text(keys.last()),
                    },
                )
            },
            None => rest,
        }
    }
}

/// Whether going up from a container, from group to group, ends within
/// some steps: at the root, or at a group that is not there.
pub open spec fn ends_within(
    merged: Map<ElementIdModel, DefModel>,
    container: Option<Seq<char>>,
    n: nat,
) -> bool
    decreases n,
{
    match container {
        None => true,
        Some(g) => if merged.dom().contains(ElementIdModel::Group(g)) {
            n > 0 && ends_within(merged, merged[ElementIdModel::Group(g)].parent, (n - 1) as nat)
        } else {
            true
        },
    }
}

/// Whether going up from a container ends.
pub open spec fn chain_ends(
    merged: Map<ElementIdModel, DefModel>,
    container: Option<Seq<char>>,
) -> bool {
    exists|n: nat| ends_within(merged, container, n)
}

/// The groups among some that stand, in a circle, below themselves: the
/// two sides' moves cannot both hold.
pub open spec fn circles(
    keys: Seq<ElementIdModel>,
    merged: Map<ElementIdModel, DefModel>,
) -> Seq<MergeConflictModel>
    decreases keys.len(),
{
    if keys.len() == 0 {
        Seq::empty()
    } else {
        let rest = circles(keys.drop_last(), merged);
        match keys.last() {
            ElementIdModel::Group(g) if !chain_ends(merged, Some(g)) => rest.push(
                MergeConflictModel::Group(g),
            ),
            _ => rest,
        }
    }
}

/// How many groups are above a container, itself with them.
pub open spec fn rank(
    merged: Map<ElementIdModel, DefModel>,
    container: Option<Seq<char>>,
    n: nat,
) -> nat
    decreases n,
{
    match container {
        None => 0,
        Some(g) => if merged.dom().contains(ElementIdModel::Group(g)) && n > 0 {
            1 + rank(merged, merged[ElementIdModel::Group(g)].parent, (n - 1) as nat)
        } else {
            0
        },
    }
}

/// The groups above a container, itself with them.
pub open spec fn groups_above(
    merged: Map<ElementIdModel, DefModel>,
    container: Option<Seq<char>>,
    n: nat,
) -> Set<ElementIdModel>
    decreases n,
{
    match container {
        None => Set::empty(),
        Some(g) => if merged.dom().contains(ElementIdModel::Group(g)) && n > 0 {
            groups_above(
                merged,
                merged[ElementIdModel::Group(g)].parent,
                (n - 1) as nat,
            ).insert(ElementIdModel::Group(g))
        } else {
            Set::empty()
        },
    }
}

/// Once going up ends, more steps change nothing.
pub proof fn more_steps_change_nothing(
    merged: Map<ElementIdModel, DefModel>,
    c: Option<Seq<char>>,
    n: nat,
    m: nat,
)
    requires
        ends_within(merged, c, n),
        n <= m,
    ensures
        ends_within(merged, c, m),
        rank(merged, c, m) == rank(merged, c, n),
        groups_above(merged, c, m) == groups_above(merged, c, n),
    decreases n,
{
    if let Some(g) = c {
        if merged.dom().contains(ElementIdModel::Group(g)) {
            more_steps_change_nothing(
                merged,
                merged[ElementIdModel::Group(g)].parent,
                (n - 1) as nat,
                (m - 1) as nat,
            );
        }
    }
}

/// As many groups are above a container as its rank says, each merged
/// and of no higher rank.
pub proof fn groups_above_are(
    merged: Map<ElementIdModel, DefModel>,
    c: Option<Seq<char>>,
    n: nat,
)
    requires
        ends_within(merged, c, n),
    ensures
        ends_within(merged, c, rank(merged, c, n)),
        rank(merged, c, n) <= n,
        groups_above(merged, c, n).finite(),
        groups_above(merged, c, n).len() == rank(merged, c, n),
        groups_above(merged, c, n).subset_of(merged.dom()),
        forall|k: ElementIdModel| #[trigger]
            groups_above(merged, c, n).contains(k) ==> k is Group && ends_within(
                merged,
                Some(k->Group_0),
                n,
            ) && rank(merged, Some(k->Group_0), n) <= rank(merged, c, n),
    decreases n,
{
    if let Some(g) = c {
        let key = ElementIdModel::Group(g);
        if merged.dom().contains(key) {
            let p = merged[key].parent;
            let m = (n - 1) as nat;
            groups_above_are(merged, p, m);
            let above = groups_above(merged, p, m);
            assert forall|k: ElementIdModel| #[trigger] above.contains(k) implies ends_within(
                merged,
                Some(k->Group_0),
                n,
            ) && rank(merged, Some(k->Group_0), n) <= rank(merged, p, m) by {
                more_steps_change_nothing(merged, Some(k->Group_0), m, n);
            }
            if above.contains(key) {
                assert(rank(merged, Some(g), n) <= rank(merged, p, m));
            }
        }
    }
}

/// Where going up ends at all, it ends within as many steps as there are
/// elements.
pub proof fn chains_are_short(
    merged: Map<ElementIdModel, DefModel>,
    c: Option<Seq<char>>,
    n: nat,
)
    requires
        merged.dom().finite(),
        ends_within(merged, c, n),
    ensures
        ends_within(merged, c, merged.dom().len()),
{
    groups_above_are(merged, c, n);
    vstd::set_lib::lemma_len_subset(groups_above(merged, c, n), merged.dom());
    more_steps_change_nothing(merged, c, rank(merged, c, n), merged.dom().len());
}

fn goes_up_to_an_end(merged: &OrderedMap<ElementId, Def>, group: &GroupId) -> (r: bool)
    ensures
        r == chain_ends(merged@, Some(group@)),
{
    let n = merged.len();
    let ghost m = merged@;
    let ghost start = Some(group@);
    let mut at: Option<GroupId> = Some(group.dup());
    let mut i: usize = 0;
    proof {
        let keys = merged.keys();
        assert(keys.no_duplicates()) by {
            collections::in_order_is_distinct::<ElementId>(keys);
        }
        keys.unique_seq_to_set();
        assert(keys.to_set() =~= m.dom());
    }
    loop
        invariant
            m == merged@,
            m.dom().finite(),
            m.dom().len() == n,
            start == Some(group@),
            i <= n,
            forall|k: nat|
                k >= i ==> #[trigger] ends_within(m, start, k) == ends_within(
                    m,
                    at.deep_view(),
                    (k - i) as nat,
                ),
        decreases n - i,
    {
        let g = match &at {
            None => {
                assert(ends_within(m, start, i as nat));
                return true;
            },
            Some(g) => g,
        };
        match merged.get(&ElementId::Group(g.dup())) {
            None => {
                assert(ends_within(m, start, i as nat));
                return true;
            },
            Some(def) => {
                if i == n {
                    proof {
                        if chain_ends(m, start) {
                            let k = choose|k: nat| ends_within(m, start, k);
                            chains_are_short(m, start, k);
                            assert(ends_within(m, start, n as nat));
                        }
                    }
                    return false;
                }
                let up = def.parent.dup();
                proof {
                    assert forall|k: nat| k >= i + 1 implies #[trigger] ends_within(m, start, k)
                        == ends_within(m, up.deep_view(), (k - (i + 1)) as nat) by {}
                }
                at = up;
                i += 1;
            },
        }
    }
}

fn find_circles(merged: &OrderedMap<ElementId, Def>, conflicts: &mut Vec<MergeConflict>)
    ensures
        final(conflicts).deep_view() == old(conflicts).deep_view() + circles(
            collections::key_order::<ElementId>(merged@.dom()),
            merged@,
        ),
{
    let n = merged.len();
    let ghost keys = merged.keys();
    let ghost start = conflicts.deep_view();
    let mut i: usize = 0;
    assert(keys.take(0) =~= Seq::<ElementIdModel>::empty());
    assert(start =~= start + Seq::<MergeConflictModel>::empty());
    while i < n
        invariant
            i <= n == keys.len(),
            keys == merged.keys(),
            start == old(conflicts).deep_view(),
            conflicts.deep_view() == start + circles(keys.take(i as int), merged@),
        decreases n - i,
    {
        proof {
            assert(keys.take(i + 1).drop_last() =~= keys.take(i as int));
        }
        if let ElementId::Group(g) = merged.key_at(i) {
            if !goes_up_to_an_end(merged, g) {
                let ghost had = conflicts.deep_view();
                let ghost so_far = circles(keys.take(i as int), merged@);
                let ghost c = MergeConflictModel::Group(g@);
                conflicts.push(MergeConflict::Group(g.dup()));
                assert(conflicts.deep_view() =~= had.push(c));
                assert(conflicts.deep_view() =~= start + so_far.push(c));
            }
        }
        i += 1;
    }
    assert(keys.take(n as int) =~= keys);
}

/// The elements that a container holds, in order.
pub open spec fn held_by(s: Seq<PlacedModel>, container: Option<Seq<char>>) -> Seq<ElementIdModel>
    decreases s.len(),
{
    if s.len() == 0 {
        Seq::empty()
    } else {
        let rest = held_by(s.drop_last(), container);
        if s.last().parent == container {
            rest.push(id_of(s.last().shell))
        } else {
            rest
        }
    }
}

/// A list with those of another that it does not have yet, each once.
pub open spec fn with_new(
    list: Seq<ElementIdModel>,
    more: Seq<ElementIdModel>,
) -> Seq<ElementIdModel>
    decreases more.len(),
{
    if more.len() == 0 {
        list
    } else {
        let rest = with_new(list, more.drop_last());
        if rest.contains(more.last()) {
            rest
        } else {
            rest.push(more.last())
        }
    }
}

/// The order of a container's elements: the left side's, then what only
/// the right side has.
pub open spec fn container_order(
    l: Seq<PlacedModel>,
    r: Seq<PlacedModel>,
    container: Option<Seq<char>>,
) -> Seq<ElementIdModel> {
    with_new(with_new(Seq::empty(), held_by(l, container)), held_by(r, container))
}

/// A group with what it holds.
pub open spec fn group_with(g: GroupShellModel, children: Seq<ElementModel>) -> GroupModel {
    GroupModel {
        id: g.id,
        label: g.label,
        cardinality: g.cardinality,
        children,
        included_from: g.included_from,
    }
}

/// The merged elements of a container, nested at most `depth` deep:
/// those that the merge puts there.
pub open spec fn rebuilt(
    container: Option<Seq<char>>,
    merged: Map<ElementIdModel, DefModel>,
    l: Seq<PlacedModel>,
    r: Seq<PlacedModel>,
    depth: nat,
) -> Seq<ElementModel>
    decreases depth, 0nat,
{
    if depth == 0 {
        Seq::empty()
    } else {
        rebuilt_each(
            container_order(l, r, container),
            container,
            merged,
            l,
            r,
            (depth - 1) as nat,
        )
    }
}

/// The merged elements among some that belong in a container.
pub open spec fn rebuilt_each(
    keys: Seq<ElementIdModel>,
    container: Option<Seq<char>>,
    merged: Map<ElementIdModel, DefModel>,
    l: Seq<PlacedModel>,
    r: Seq<PlacedModel>,
    depth: nat,
) -> Seq<ElementModel>
    decreases depth, keys.len() + 1,
{
    if keys.len() == 0 {
        Seq::empty()
    } else {
        let rest = rebuilt_each(keys.drop_last(), container, merged, l, r, depth);
        let k = keys.last();
        if merged.dom().contains(k) && merged[k].parent == container {
            match merged[k].shell {
                ShellModel::Column(c) => rest.push(ElementModel::Column(c)),
                ShellModel::Group(g) => rest.push(
                    ElementModel::Group(
                        group_with(g, rebuilt(Some(g.id), merged, l, r, depth)),
                    ),
                ),
            }
        } else {
            rest
        }
    }
}

/// The conflicts of a merge: elements, then resolvers, then orphans, then
/// groups in a circle.
pub open spec fn merge_conflicts(
    base: SchemaModel,
    left: SchemaModel,
    right: SchemaModel,
) -> Seq<MergeConflictModel> {
    let b = defs_of(schema::schema_elements(base));
    let l = defs_of(schema::schema_elements(left));
    let r = defs_of(schema::schema_elements(right));
    let rb = resolvers_by_id(base.resolvers);
    let rl = resolvers_by_id(left.resolvers);
    let rr = resolvers_by_id(right.resolvers);
    let merged = merged_defs(b, l, r);
    element_conflicts(all_elements(b, l, r), b, l, r) + resolver_conflicts(
        all_resolvers(rb, rl, rr),
        rb,
        rl,
        rr,
    ) + orphans(collections::key_order::<ElementId>(merged.dom()), merged) + circles(
        collections::key_order::<ElementId>(merged.dom()),
        merged,
    )
}

/// The merge of two schemas that come from one base.
pub open spec fn merged_schema(
    base: SchemaModel,
    left: SchemaModel,
    right: SchemaModel,
) -> SchemaModel {
    let merged = merged_defs(
        defs_of(schema::schema_elements(base)),
        defs_of(schema::schema_elements(left)),
        defs_of(schema::schema_elements(right)),
    );
    let rb = resolvers_by_id(base.resolvers);
    let rl = resolvers_by_id(left.resolvers);
    let rr = resolvers_by_id(right.resolvers);
    SchemaModel {
        root: rebuilt(
            None,
            merged,
            schema::schema_elements(left),
            schema::schema_elements(right),
            collections::key_order::<ElementId>(merged.dom()).len(),
        ),
        resolvers: merged_resolvers(all_resolvers(rb, rl, rr), rb, rl, rr),
    }
}

fn add_keys(m: &OrderedMap<ElementId, Def>, out: &mut OrderedSet<ElementId>)
    ensures
        final(out)@ == old(out)@.union(m@.dom()),
{
    let n = m.len();
    let ghost keys = m.keys();
    let ghost start = out@;
    let mut i: usize = 0;
    while i < n
        invariant
            i <= n == keys.len(),
            keys == m.keys(),
            start == old(out)@,
            forall|k: ElementIdModel| #[trigger]
                out@.contains(k) <==> start.contains(k) || keys.take(i as int).contains(k),
        decreases n - i,
    {
        let ghost before = keys.take(i as int);
        let ghost after = keys.take(i + 1);
        proof {
            assert(after =~= before.push(keys[i as int]));
            assert forall|k: ElementIdModel| after.contains(k) <==> before.contains(k) || k
                == keys[i as int] by {
                if before.contains(k) {
                    assert(after[before.index_of(k)] == k);
                }
                assert(after[i as int] == keys[i as int]);
            }
        }
        out.insert(m.key_at(i).dup());
        i += 1;
    }
    proof {
        assert(keys.take(n as int) =~= keys);
        assert(out@ =~= start.union(m@.dom()));
    }
}

fn all_keys(
    b: &OrderedMap<ElementId, Def>,
    l: &OrderedMap<ElementId, Def>,
    r: &OrderedMap<ElementId, Def>,
) -> (keys: Vec<ElementId>)
    ensures
        keys.deep_view() == all_elements(b@, l@, r@),
        collections::lists::<ElementId>(keys.deep_view(), b@.dom().union(l@.dom()).union(r@.dom())),
{
    let mut out: OrderedSet<ElementId> = OrderedSet::new();
    add_keys(b, &mut out);
    add_keys(l, &mut out);
    add_keys(r, &mut out);
    assert(out@ =~= b@.dom().union(l@.dom()).union(r@.dom()));
    let n = out.len();
    out.to_vec()
}

fn merge_elements(
    b: &OrderedMap<ElementId, Def>,
    l: &OrderedMap<ElementId, Def>,
    r: &OrderedMap<ElementId, Def>,
    conflicts: &mut Vec<MergeConflict>,
) -> (merged: OrderedMap<ElementId, Def>)
    requires
        old(conflicts)@.len() == 0,
    ensures
        merged@ == merged_defs(b@, l@, r@),
        final(conflicts).deep_view() == element_conflicts(
            all_elements(b@, l@, r@),
            b@,
            l@,
            r@,
        ),
{
    let keys = all_keys(b, l, r);
    let ghost ks = keys.deep_view();
    let ghost all = merged_defs(b@, l@, r@);
    let mut merged: OrderedMap<ElementId, Def> = OrderedMap::new();
    let mut i: usize = 0;
    assert(ks.take(0) =~= Seq::<ElementIdModel>::empty());
    assert(conflicts.deep_view() =~= Seq::<MergeConflictModel>::empty());
    while i < keys.len()
        invariant
            i <= keys@.len(),
            ks == keys.deep_view(),
            all == merged_defs(b@, l@, r@),
            conflicts.deep_view() == element_conflicts(ks.take(i as int), b@, l@, r@),
            forall|k: ElementIdModel| #[trigger]
                merged@.dom().contains(k) <==> all.dom().contains(k) && ks.take(
                    i as int,
                ).contains(k),
            forall|k: ElementIdModel| #[trigger]
                merged@.dom().contains(k) ==> merged@[k] == all[k],
        decreases keys@.len() - i,
    {
        let key = &keys[i];
        let ghost before = ks.take(i as int);
        let ghost after = ks.take(i + 1);
        proof {
            assert(after.drop_last() =~= before);
            assert(after.last() == key@);
            assert(after =~= before.push(key@));
            assert forall|k: ElementIdModel| after.contains(k) <==> before.contains(k) || k
                == key@ by {
                if before.contains(k) {
                    assert(after[before.index_of(k)] == k);
                }
                assert(after[i as int] == key@);
            }
        }
        match merge3(b.get(key), l.get(key), r.get(key)) {
            Some(Some(def)) => {
                merged.insert(key.dup(), def.dup());
            },
            Some(None) => {},
            None => {
                let ghost had = conflicts.deep_view();
                let conflict = match key {
                    ElementId::Column(c) => MergeConflict::Column(c.dup()),
                    ElementId::Group(g) => MergeConflict::Group(g.dup()),
                };
                let ghost c = conflict@;
                conflicts.push(conflict);
                assert(conflicts.deep_view() =~= had.push(c));
            },
        }
        i += 1;
    }
    proof {
        assert(ks.take(ks.len() as int) =~= ks);
        assert forall|k: ElementIdModel| all.dom().contains(k) implies ks.contains(k) by {
            assert(b@.dom().union(l@.dom()).union(r@.dom()).contains(k));
        }
        assert(merged@ =~= all);
    }
    merged
}

fn resolver_map(resolvers: &Vec<ResolverDeclaration>) -> (r: OrderedMap<
    ResolverId,
    ResolverDeclaration,
>)
    ensures
        r@ == resolvers_by_id(resolvers.deep_view()),
{
    let ghost m = resolvers.deep_view();
    let mut r: OrderedMap<ResolverId, ResolverDeclaration> = OrderedMap::new();
    let mut i: usize = 0;
    assert(m.take(0) =~= Seq::<ResolverDeclarationModel>::empty());
    while i < resolvers.len()
        invariant
            i <= resolvers@.len(),
            m == resolvers.deep_view(),
            r@ == resolvers_by_id(m.take(i as int)),
        decreases resolvers@.len() - i,
    {
        let d = &resolvers[i];
        proof {
            assert(m.take(i + 1).drop_last() =~= m.take(i as int));
            assert(m.take(i + 1).last() == d@);
        }
        r.insert(d.id.dup(), d.dup());
        i += 1;
    }
    assert(m.take(m.len() as int) =~= m);
    r
}

fn add_ids(m: &OrderedMap<ResolverId, ResolverDeclaration>, out: &mut OrderedSet<ResolverId>)
    ensures
        final(out)@ == old(out)@.union(m@.dom()),
{
    let n = m.len();
    let ghost keys = m.keys();
    let ghost start = out@;
    let mut i: usize = 0;
    while i < n
        invariant
            i <= n == keys.len(),
            keys == m.keys(),
            start == old(out)@,
            forall|k: Seq<char>| #[trigger]
                out@.contains(k) <==> start.contains(k) || keys.take(i as int).contains(k),
        decreases n - i,
    {
        let ghost before = keys.take(i as int);
        let ghost after = keys.take(i + 1);
        proof {
            assert(after =~= before.push(keys[i as int]));
            assert forall|k: Seq<char>| after.contains(k) <==> before.contains(k) || k
                == keys[i as int] by {
                if before.contains(k) {
                    assert(after[before.index_of(k)] == k);
                }
                assert(after[i as int] == keys[i as int]);
            }
        }
        out.insert(m.key_at(i).dup());
        i += 1;
    }
    proof {
        assert(keys.take(n as int) =~= keys);
        assert(out@ =~= start.union(m@.dom()));
    }
}

fn merge_resolvers(
    b: &OrderedMap<ResolverId, ResolverDeclaration>,
    l: &OrderedMap<ResolverId, ResolverDeclaration>,
    r: &OrderedMap<ResolverId, ResolverDeclaration>,
    conflicts: &mut Vec<MergeConflict>,
) -> (merged: Vec<ResolverDeclaration>)
    ensures
        merged.deep_view() == merged_resolvers(all_resolvers(b@, l@, r@), b@, l@, r@),
        final(conflicts).deep_view() == old(conflicts).deep_view() + resolver_conflicts(
            all_resolvers(b@, l@, r@),
            b@,
            l@,
            r@,
        ),
{
    let mut ids: OrderedSet<ResolverId> = OrderedSet::new();
    add_ids(b, &mut ids);
    add_ids(l, &mut ids);
    add_ids(r, &mut ids);
    assert(ids@ =~= b@.dom().union(l@.dom()).union(r@.dom()));
    let keys = ids.to_vec();
    let ghost ks = keys.deep_view();
    let ghost start = conflicts.deep_view();
    let mut merged: Vec<ResolverDeclaration> = Vec::new();
    let mut i: usize = 0;
    assert(ks.take(0) =~= Seq::<Seq<char>>::empty());
    assert(merged.deep_view() =~= Seq::<ResolverDeclarationModel>::empty());
    assert(start =~= start + Seq::<MergeConflictModel>::empty());
    while i < keys.len()
        invariant
            i <= keys@.len(),
            ks == keys.deep_view(),
            start == old(conflicts).deep_view(),
            merged.deep_view() == merged_resolvers(ks.take(i as int), b@, l@, r@),
            conflicts.deep_view() == start + resolver_conflicts(ks.take(i as int), b@, l@, r@),
        decreases keys@.len() - i,
    {
        let key = &keys[i];
        proof {
            assert(ks.take(i + 1).drop_last() =~= ks.take(i as int));
            assert(ks.take(i + 1).last() == key@);
        }
        match merge3(b.get(key), l.get(key), r.get(key)) {
            Some(Some(d)) => {
                let ghost had = merged.deep_view();
                merged.push(d.dup());
                assert(merged.deep_view() =~= had.push(d@));
            },
            Some(None) => {},
            None => {
                let ghost had = conflicts.deep_view();
                let ghost so_far = resolver_conflicts(ks.take(i as int), b@, l@, r@);
                conflicts.push(MergeConflict::Resolver(key.dup()));
                assert(conflicts.deep_view() =~= had.push(MergeConflictModel::Resolver(key@)));
                assert(conflicts.deep_view() =~= start + so_far.push(
                    MergeConflictModel::Resolver(key@),
                ));
            },
        }
        i += 1;
    }
    assert(ks.take(ks.len() as int) =~= ks);
    merged
}

fn find_orphans(merged: &OrderedMap<ElementId, Def>, conflicts: &mut Vec<MergeConflict>)
    ensures
        final(conflicts).deep_view() == old(conflicts).deep_view() + orphans(
            collections::key_order::<ElementId>(merged@.dom()),
            merged@,
        ),
{
    let n = merged.len();
    let ghost keys = merged.keys();
    let ghost start = conflicts.deep_view();
    let mut i: usize = 0;
    assert(keys.take(0) =~= Seq::<ElementIdModel>::empty());
    assert(start =~= start + Seq::<MergeConflictModel>::empty());
    while i < n
        invariant
            i <= n == keys.len(),
            keys == merged.keys(),
            start == old(conflicts).deep_view(),
            conflicts.deep_view() == start + orphans(keys.take(i as int), merged@),
        decreases n - i,
    {
        proof {
            assert(keys.take(i + 1).drop_last() =~= keys.take(i as int));
        }
        let key = merged.key_at(i);
        if let Some(group) = &merged.value_at(i).parent {
            if !merged.contains_key(&ElementId::Group(group.dup())) {
                let ghost had = conflicts.deep_view();
                let ghost so_far = orphans(keys.take(i as int), merged@);
                let element = match key {
                    ElementId::Column(c) => c.to_string(),
                    ElementId::Group(g) => g.to_string(),
                };
                let ghost c = MergeConflictModel::OrphanedByDeletedGroup {
                    group: group@,
                    element: element@,
                };
                conflicts.push(
                    MergeConflict::OrphanedByDeletedGroup { group: group.dup(), element },
                );
                assert(conflicts.deep_view() =~= had.push(c));
                assert(conflicts.deep_view() =~= start + so_far.push(c));
            }
        }
        i += 1;
    }
    assert(keys.take(n as int) =~= keys);
}

fn find_held(s: &Vec<Placed>, container: &Option<GroupId>) -> (r: Vec<ElementId>)
    ensures
        r.deep_view() == held_by(s.deep_view(), container.deep_view()),
{
    let ghost m = s.deep_view();
    let mut r: Vec<ElementId> = Vec::new();
    let mut i: usize = 0;
    assert(m.take(0) =~= Seq::<PlacedModel>::empty());
    assert(r.deep_view() =~= Seq::<ElementIdModel>::empty());
    while i < s.len()
        invariant
            i <= s@.len(),
            m == s.deep_view(),
            r.deep_view() == held_by(m.take(i as int), container.deep_view()),
        decreases s@.len() - i,
    {
        let e = &s[i];
        proof {
            assert(m.take(i + 1).drop_last() =~= m.take(i as int));
            assert(m.take(i + 1).last() == e@);
        }
        if e.parent.same(container) {
            let ghost had = r.deep_view();
            r.push(element_id(&e.shell));
            assert(r.deep_view() =~= had.push(id_of(e@.shell)));
        }
        i += 1;
    }
    assert(m.take(m.len() as int) =~= m);
    r
}

fn push_new(list: &mut Vec<ElementId>, more: &Vec<ElementId>)
    ensures
        final(list).deep_view() == with_new(old(list).deep_view(), more.deep_view()),
{
    let ghost m = more.deep_view();
    let ghost start = list.deep_view();
    let mut i: usize = 0;
    assert(m.take(0) =~= Seq::<ElementIdModel>::empty());
    while i < more.len()
        invariant
            i <= more@.len(),
            m == more.deep_view(),
            start == old(list).deep_view(),
            list.deep_view() == with_new(start, m.take(i as int)),
        decreases more@.len() - i,
    {
        let k = &more[i];
        proof {
            assert(m.take(i + 1).drop_last() =~= m.take(i as int));
            assert(m.take(i + 1).last() == k@);
        }
        if !contains_model(list, k) {
            let ghost had = list.deep_view();
            list.push(k.dup());
            assert(list.deep_view() =~= had.push(k@));
        }
        i += 1;
    }
    assert(m.take(m.len() as int) =~= m);
}

fn rebuild(
    container: &Option<GroupId>,
    merged: &OrderedMap<ElementId, Def>,
    l: &Vec<Placed>,
    r: &Vec<Placed>,
    depth: usize,
) -> (out: Vec<Element>)
    ensures
        schema::elements_model(out@) == rebuilt(
            container.deep_view(),
            merged@,
            l.deep_view(),
            r.deep_view(),
            depth as nat,
        ),
    decreases depth,
{
    let mut out: Vec<Element> = Vec::new();
    if depth == 0 {
        assert(schema::elements_model(out@) =~= Seq::<ElementModel>::empty());
        return out;
    }
    let mut ordered: Vec<ElementId> = Vec::new();
    assert(ordered.deep_view() =~= Seq::<ElementIdModel>::empty());
    push_new(&mut ordered, &find_held(l, container));
    push_new(&mut ordered, &find_held(r, container));
    let ghost ks = ordered.deep_view();
    let ghost at = container.deep_view();
    let mut i: usize = 0;
    assert(ks.take(0) =~= Seq::<ElementIdModel>::empty());
    assert(schema::elements_model(out@) =~= Seq::<ElementModel>::empty());
    while i < ordered.len()
        invariant
            i <= ordered@.len(),
            depth > 0,
            ks == ordered.deep_view(),
            at == container.deep_view(),
            schema::elements_model(out@) == rebuilt_each(
                ks.take(i as int),
                at,
                merged@,
                l.deep_view(),
                r.deep_view(),
                (depth - 1) as nat,
            ),
        decreases ordered@.len() - i,
    {
        let key = &ordered[i];
        proof {
            assert(ks.take(i + 1).drop_last() =~= ks.take(i as int));
            assert(ks.take(i + 1).last() == key@);
        }
        if let Some(def) = merged.get(key) {
            if def.parent.same(container) {
                let ghost had = schema::elements_model(out@);
                match &def.shell {
                    Shell::Column(c) => {
                        out.push(Element::Column(c.dup()));
                        assert(schema::elements_model(out@) =~= had.push(ElementModel::Column(c@)));
                    },
                    Shell::Group(g) => {
                        let children = rebuild(
                            &Some(g.id.dup()),
                            merged,
                            l,
                            r,
                            depth - 1,
                        );
                        let group = Group {
                            id: g.id.dup(),
                            label: g.label.dup(),
                            cardinality: g.cardinality,
                            children,
                            included_from: g.included_from.dup(),
                        };
                        let ghost gm = group@;
                        out.push(Element::Group(group));
                        assert(schema::elements_model(out@) =~= had.push(ElementModel::Group(gm)));
                    },
                }
            }
        }
        i += 1;
    }
    assert(ks.take(ks.len() as int) =~= ks);
    out
}

/// Merges two schemas that come from one base, or names every conflict.
pub fn merge(base: &Schema, left: &Schema, right: &Schema) -> (r: Result<
    Schema,
    Vec<MergeConflict>,
>)
    ensures
        match r {
            Ok(s) => merge_conflicts(base@, left@, right@).len() == 0 && s@ == merged_schema(
                base@,
                left@,
                right@,
            ),
            Err(c) => c@.len() > 0 && c.deep_view() == merge_conflicts(base@, left@, right@),
        },
{
    let base_elements = base.elements();
    let left_elements = left.elements();
    let right_elements = right.elements();
    let b = flatten(&base_elements);
    let l = flatten(&left_elements);
    let r = flatten(&right_elements);
    let mut conflicts: Vec<MergeConflict> = Vec::new();
    let merged = merge_elements(&b, &l, &r, &mut conflicts);
    let rb = resolver_map(&base.resolvers);
    let rl = resolver_map(&left.resolvers);
    let rr = resolver_map(&right.resolvers);
    let resolvers = merge_resolvers(&rb, &rl, &rr, &mut conflicts);
    find_orphans(&merged, &mut conflicts);
    find_circles(&merged, &mut conflicts);
    assert(conflicts.deep_view().len() == conflicts@.len());
    if conflicts.len() > 0 {
        return Err(conflicts);
    }
    let n = merged.len();
    let root = rebuild(&None, &merged, &left_elements, &right_elements, n);
    let s = Schema { root, resolvers };
    assert(s@.root =~= schema::elements_model(s.root@));
    Ok(s)
}

/// Merging does not depend on which side is which: the same elements
/// come out, and the same conflicts.
pub proof fn merge_is_symmetric(base: SchemaModel, left: SchemaModel, right: SchemaModel)
    ensures
        merge_conflicts(base, left, right) == merge_conflicts(base, right, left),
        merged_defs(
            defs_of(schema::schema_elements(base)),
            defs_of(schema::schema_elements(left)),
            defs_of(schema::schema_elements(right)),
        ) == merged_defs(
            defs_of(schema::schema_elements(base)),
            defs_of(schema::schema_elements(right)),
            defs_of(schema::schema_elements(left)),
        ),
        merged_schema(base, left, right).resolvers == merged_schema(base, right, left).resolvers,
{
    let b = defs_of(schema::schema_elements(base));
    let l = defs_of(schema::schema_elements(left));
    let r = defs_of(schema::schema_elements(right));
    let rb = resolvers_by_id(base.resolvers);
    let rl = resolvers_by_id(left.resolvers);
    let rr = resolvers_by_id(right.resolvers);
    assert(merged_defs(b, l, r) =~= merged_defs(b, r, l));
    assert(b.dom().union(l.dom()).union(r.dom()) =~= b.dom().union(r.dom()).union(l.dom()));
    assert(rb.dom().union(rl.dom()).union(rr.dom()) =~= rb.dom().union(rr.dom()).union(rl.dom()));
    element_conflicts_are_symmetric(all_elements(b, l, r), b, l, r);
    resolvers_are_symmetric(all_resolvers(rb, rl, rr), rb, rl, rr);
}

proof fn element_conflicts_are_symmetric(
    keys: Seq<ElementIdModel>,
    b: Map<ElementIdModel, DefModel>,
    l: Map<ElementIdModel, DefModel>,
    r: Map<ElementIdModel, DefModel>,
)
    ensures
        element_conflicts(keys, b, l, r) == element_conflicts(keys, b, r, l),
    decreases keys.len(),
{
    if keys.len() > 0 {
        element_conflicts_are_symmetric(keys.drop_last(), b, l, r);
    }
}

proof fn resolvers_are_symmetric(
    keys: Seq<Seq<char>>,
    b: Map<Seq<char>, ResolverDeclarationModel>,
    l: Map<Seq<char>, ResolverDeclarationModel>,
    r: Map<Seq<char>, ResolverDeclarationModel>,
)
    ensures
        resolver_conflicts(keys, b, l, r) == resolver_conflicts(keys, b, r, l),
        merged_resolvers(keys, b, l, r) == merged_resolvers(keys, b, r, l),
    decreases keys.len(),
{
    if keys.len() > 0 {
        resolvers_are_symmetric(keys.drop_last(), b, l, r);
    }
}

/// A merge invents nothing: what comes out under an identity stood there
/// on one of the two sides, just as it is.
pub proof fn merge_invents_nothing(
    b: Map<ElementIdModel, DefModel>,
    l: Map<ElementIdModel, DefModel>,
    r: Map<ElementIdModel, DefModel>,
    k: ElementIdModel,
)
    requires
        merged_defs(b, l, r).dom().contains(k),
    ensures
        at(l, k) == Some(merged_defs(b, l, r)[k]) || at(r, k) == Some(merged_defs(b, l, r)[k]),
{
}

proof fn conflict_is_listed(
    keys: Seq<ElementIdModel>,
    b: Map<ElementIdModel, DefModel>,
    l: Map<ElementIdModel, DefModel>,
    r: Map<ElementIdModel, DefModel>,
    i: int,
)
    requires
        0 <= i < keys.len(),
        merged3(at(b, keys[i]), at(l, keys[i]), at(r, keys[i])) is None,
    ensures
        element_conflicts(keys, b, l, r).contains(element_conflict(keys[i])),
    decreases keys.len(),
{
    let all = element_conflicts(keys, b, l, r);
    if i == keys.len() - 1 {
        assert(all.last() == element_conflict(keys[i]));
    } else {
        conflict_is_listed(keys.drop_last(), b, l, r, i);
        let rest = element_conflicts(keys.drop_last(), b, l, r);
        let j = rest.index_of(element_conflict(keys[i]));
        assert(all[j] == rest[j]);
    }
}

/// The conflict on an element whose group is gone.
pub open spec fn orphan(group: Seq<char>, k: ElementIdModel) -> MergeConflictModel {
    MergeConflictModel::OrphanedByDeletedGroup { group, element: element_text(k) }
}

/// Whether an element stands in a group that is gone.
pub open spec fn is_orphan(merged: Map<ElementIdModel, DefModel>, k: ElementIdModel) -> bool {
    merged[k].parent matches Some(group) && !merged.dom().contains(ElementIdModel::Group(group))
}

proof fn orphan_is_listed(
    keys: Seq<ElementIdModel>,
    merged: Map<ElementIdModel, DefModel>,
    i: int,
)
    requires
        0 <= i < keys.len(),
        is_orphan(merged, keys[i]),
    ensures
        orphans(keys, merged).contains(orphan(merged[keys[i]].parent->0, keys[i])),
    decreases keys.len(),
{
    let all = orphans(keys, merged);
    let it = orphan(merged[keys[i]].parent->0, keys[i]);
    if i == keys.len() - 1 {
        assert(all.last() == it);
    } else {
        orphan_is_listed(keys.drop_last(), merged, i);
        let rest = orphans(keys.drop_last(), merged);
        let j = rest.index_of(it);
        assert(all[j] == rest[j]);
    }
}

/// Nothing is settled in silence: an element that both sides changed in
/// different ways is among the conflicts.
pub proof fn different_changes_conflict(
    base: SchemaModel,
    left: SchemaModel,
    right: SchemaModel,
    k: ElementIdModel,
)
    requires
        ({
            let b = at(defs_of(schema::schema_elements(base)), k);
            let l = at(defs_of(schema::schema_elements(left)), k);
            let r = at(defs_of(schema::schema_elements(right)), k);
            l != b && r != b && l != r
        }),
    ensures
        merge_conflicts(base, left, right).contains(element_conflict(k)),
{
    let b = defs_of(schema::schema_elements(base));
    let l = defs_of(schema::schema_elements(left));
    let r = defs_of(schema::schema_elements(right));
    defs_are_finite(schema::schema_elements(base));
    defs_are_finite(schema::schema_elements(left));
    defs_are_finite(schema::schema_elements(right));
    let dom = b.dom().union(l.dom()).union(r.dom());
    collections::finite_is_listed::<ElementId>(dom);
    let keys = all_elements(b, l, r);
    assert(dom.contains(k));
    assert(keys.contains(k));
    let i = keys.index_of(k);
    conflict_is_listed(keys, b, l, r, i);
    let first = element_conflicts(keys, b, l, r);
    let j = first.index_of(element_conflict(k));
    assert(merge_conflicts(base, left, right)[j] == first[j]);
}

/// An element that one side takes out and the other edits is among the
/// conflicts, whichever side is which.
pub proof fn removal_against_an_edit_conflicts(
    base: SchemaModel,
    taken: SchemaModel,
    edited: SchemaModel,
    k: ElementIdModel,
)
    requires
        defs_of(schema::schema_elements(base)).dom().contains(k),
        !defs_of(schema::schema_elements(taken)).dom().contains(k),
        defs_of(schema::schema_elements(edited)).dom().contains(k),
        defs_of(schema::schema_elements(edited))[k] != defs_of(schema::schema_elements(base))[k],
    ensures
        merge_conflicts(base, taken, edited).contains(element_conflict(k)),
        merge_conflicts(base, edited, taken).contains(element_conflict(k)),
{
    different_changes_conflict(base, taken, edited, k);
    different_changes_conflict(base, edited, taken, k);
}

/// An element that comes through while its group does not, as one put on
/// one side into a group that the other side takes out, is among the
/// conflicts.
pub proof fn elements_of_a_lost_group_conflict(
    base: SchemaModel,
    left: SchemaModel,
    right: SchemaModel,
    k: ElementIdModel,
)
    requires
        ({
            let merged = merged_defs(
                defs_of(schema::schema_elements(base)),
                defs_of(schema::schema_elements(left)),
                defs_of(schema::schema_elements(right)),
            );
            merged.dom().contains(k) && is_orphan(merged, k)
        }),
    ensures
        merge_conflicts(base, left, right).contains(
            orphan(
                merged_defs(
                    defs_of(schema::schema_elements(base)),
                    defs_of(schema::schema_elements(left)),
                    defs_of(schema::schema_elements(right)),
                )[k].parent->0,
                k,
            ),
        ),
{
    let b = defs_of(schema::schema_elements(base));
    let l = defs_of(schema::schema_elements(left));
    let r = defs_of(schema::schema_elements(right));
    let merged = merged_defs(b, l, r);
    defs_are_finite(schema::schema_elements(left));
    defs_are_finite(schema::schema_elements(right));
    assert(merged.dom().subset_of(l.dom().union(r.dom())));
    vstd::set_lib::lemma_set_subset_finite(l.dom().union(r.dom()), merged.dom());
    collections::finite_is_listed::<ElementId>(merged.dom());
    let keys = collections::key_order::<ElementId>(merged.dom());
    assert(keys.contains(k));
    let i = keys.index_of(k);
    orphan_is_listed(keys, merged, i);
    let last = orphans(keys, merged);
    let it = orphan(merged[k].parent->0, k);
    let j = last.index_of(it);
    let all = merge_conflicts(base, left, right);
    let more = circles(keys, merged);
    let offset = all.len() - last.len() - more.len();
    assert(all[offset + j] == last[j]);
}

proof fn circle_is_listed(
    keys: Seq<ElementIdModel>,
    merged: Map<ElementIdModel, DefModel>,
    i: int,
)
    requires
        0 <= i < keys.len(),
        keys[i] is Group,
        !chain_ends(merged, Some(keys[i]->Group_0)),
    ensures
        circles(keys, merged).contains(MergeConflictModel::Group(keys[i]->Group_0)),
    decreases keys.len(),
{
    let all = circles(keys, merged);
    let it = MergeConflictModel::Group(keys[i]->Group_0);
    if i == keys.len() - 1 {
        assert(all.last() == it);
    } else {
        circle_is_listed(keys.drop_last(), merged, i);
        let rest = circles(keys.drop_last(), merged);
        let j = rest.index_of(it);
        assert(all[j] == rest[j]);
    }
}

/// A group that the two sides' moves put, in a circle, below itself is
/// among the conflicts: neither side gave it up.
pub proof fn crossed_moves_conflict(
    base: SchemaModel,
    left: SchemaModel,
    right: SchemaModel,
    g: Seq<char>,
)
    requires
        ({
            let merged = merged_defs(
                defs_of(schema::schema_elements(base)),
                defs_of(schema::schema_elements(left)),
                defs_of(schema::schema_elements(right)),
            );
            merged.dom().contains(ElementIdModel::Group(g)) && !chain_ends(merged, Some(g))
        }),
    ensures
        merge_conflicts(base, left, right).contains(MergeConflictModel::Group(g)),
{
    let b = defs_of(schema::schema_elements(base));
    let l = defs_of(schema::schema_elements(left));
    let r = defs_of(schema::schema_elements(right));
    let merged = merged_defs(b, l, r);
    merged_is_finite(base, left, right);
    collections::finite_is_listed::<ElementId>(merged.dom());
    let keys = collections::key_order::<ElementId>(merged.dom());
    let k = ElementIdModel::Group(g);
    assert(keys.contains(k));
    circle_is_listed(keys, merged, keys.index_of(k));
    let last = circles(keys, merged);
    let j = last.index_of(MergeConflictModel::Group(g));
    let all = merge_conflicts(base, left, right);
    let offset = all.len() - last.len();
    assert(all[offset + j] == last[j]);
}

pub proof fn merged_is_finite(base: SchemaModel, left: SchemaModel, right: SchemaModel)
    ensures
        merged_defs(
            defs_of(schema::schema_elements(base)),
            defs_of(schema::schema_elements(left)),
            defs_of(schema::schema_elements(right)),
        ).dom().finite(),
{
    let b = defs_of(schema::schema_elements(base));
    let l = defs_of(schema::schema_elements(left));
    let r = defs_of(schema::schema_elements(right));
    let merged = merged_defs(b, l, r);
    defs_are_finite(schema::schema_elements(left));
    defs_are_finite(schema::schema_elements(right));
    assert(merged.dom().subset_of(l.dom().union(r.dom())));
    vstd::set_lib::lemma_set_subset_finite(l.dom().union(r.dom()), merged.dom());
}

/// The identities of some elements with what they hold.
pub open spec fn ids_of(s: Seq<PlacedModel>) -> Seq<ElementIdModel> {
    Seq::new(s.len(), |i: int| id_of(s[i].shell))
}

/// Whether no two columns and no two groups of a schema share an
/// identity.
pub open spec fn ids_are_distinct(s: SchemaModel) -> bool {
    ids_of(schema::schema_elements(s)).no_duplicates()
}

/// Whether resolvers stand in the order of their identities, each once.
pub open spec fn resolvers_in_order(s: Seq<ResolverDeclarationModel>) -> bool {
    collections::in_order::<ResolverId>(resolver_ids(s))
}

/// The identities of some declarations.
pub open spec fn resolver_ids(s: Seq<ResolverDeclarationModel>) -> Seq<Seq<char>> {
    Seq::new(s.len(), |i: int| s[i].id)
}

/// An element's own shell.
spec fn own_shell(e: ElementModel) -> ShellModel {
    match e {
        ElementModel::Column(c) => ShellModel::Column(c),
        ElementModel::Group(g) => ShellModel::Group(schema::shell_of(g)),
    }
}

/// The identities of some elements themselves.
spec fn own_ids(s: Seq<ElementModel>) -> Seq<ElementIdModel> {
    Seq::new(s.len(), |i: int| id_of(own_shell(s[i])))
}

/// Whether a group stands among some elements.
spec fn holds_group(s: Seq<PlacedModel>, id: Seq<char>) -> bool {
    ids_of(s).contains(ElementIdModel::Group(id))
}

pub proof fn held_by_both(a: Seq<PlacedModel>, b: Seq<PlacedModel>, d: Option<Seq<char>>)
    ensures
        held_by(a + b, d) == held_by(a, d) + held_by(b, d),
    decreases b.len(),
{
    if b.len() == 0 {
        assert(a + b =~= a);
        assert(held_by(a, d) + held_by(b, d) =~= held_by(a, d));
    } else {
        held_by_both(a, b.drop_last(), d);
        assert((a + b).drop_last() =~= a + b.drop_last());
        assert((a + b).last() == b.last());
        assert(held_by(a + b, d) =~= held_by(a, d) + held_by(b, d));
    }
}

pub proof fn ids_of_both(a: Seq<PlacedModel>, b: Seq<PlacedModel>)
    ensures
        ids_of(a + b) == ids_of(a) + ids_of(b),
{
    assert(ids_of(a + b) =~= ids_of(a) + ids_of(b));
}

/// A list of elements with what they hold is that of the first ones, the
/// next one and the rest.
proof fn placed_splits(
    e: Seq<ElementModel>,
    c: Option<Seq<char>>,
    s: Seq<Seq<char>>,
    k: int,
)
    requires
        0 <= k < e.len(),
    ensures
        schema::placed(e, c, s) == schema::placed(e.take(k), c, s) + schema::placed_one(e[k], c, s) + schema::placed(
            e.skip(k + 1),
            c,
            s,
        ),
    decreases e.len() - k,
{
    if k == e.len() - 1 {
        assert(e.drop_last() =~= e.take(k));
        assert(e.last() == e[k]);
        assert(e.skip(k + 1) =~= Seq::<ElementModel>::empty());
        assert(schema::placed(e, c, s) =~= schema::placed(e.take(k), c, s) + schema::placed_one(e[k], c, s) + schema::placed(
            e.skip(k + 1),
            c,
            s,
        ));
    } else {
        let rest = e.drop_last();
        placed_splits(rest, c, s, k);
        assert(rest.take(k) =~= e.take(k));
        assert(rest.skip(k + 1) =~= e.skip(k + 1).drop_last());
        assert(e.skip(k + 1).last() == e.last());
        assert(schema::placed(e, c, s) =~= schema::placed(e.take(k), c, s) + schema::placed_one(e[k], c, s) + schema::placed(
            e.skip(k + 1),
            c,
            s,
        ));
    }
}

/// A container that is neither that of a list nor a group in it holds
/// nothing of the list.
proof fn strangers_hold_nothing(
    e: Seq<ElementModel>,
    c: Option<Seq<char>>,
    s: Seq<Seq<char>>,
    h: Seq<char>,
)
    requires
        c != Some(h),
        !holds_group(schema::placed(e, c, s), h),
    ensures
        held_by(schema::placed(e, c, s), Some(h)).len() == 0,
    decreases e,
{
    if e.len() > 0 {
        let rest = schema::placed(e.drop_last(), c, s);
        let last = schema::placed_one(e.last(), c, s);
        ids_of_both(rest, last);
        held_by_both(rest, last, Some(h));
        assert(!ids_of(rest).contains(ElementIdModel::Group(h))) by {
            if ids_of(rest).contains(ElementIdModel::Group(h)) {
                let i = ids_of(rest).index_of(ElementIdModel::Group(h));
                assert((ids_of(rest) + ids_of(last))[i] == ElementIdModel::Group(h));
            }
        }
        assert(!ids_of(last).contains(ElementIdModel::Group(h))) by {
            if ids_of(last).contains(ElementIdModel::Group(h)) {
                let i = ids_of(last).index_of(ElementIdModel::Group(h));
                assert((ids_of(rest) + ids_of(last))[rest.len() + i] == ElementIdModel::Group(h));
            }
        }
        strangers_hold_nothing(e.drop_last(), c, s, h);
        stranger_holds_nothing(e.last(), c, s, h);
    }
}

proof fn stranger_holds_nothing(
    e: ElementModel,
    c: Option<Seq<char>>,
    s: Seq<Seq<char>>,
    h: Seq<char>,
)
    requires
        c != Some(h),
        !holds_group(schema::placed_one(e, c, s), h),
    ensures
        held_by(schema::placed_one(e, c, s), Some(h)).len() == 0,
    decreases e,
{
    reveal_with_fuel(held_by, 2);
    match e {
        ElementModel::Column(_) => {},
        ElementModel::Group(g) => {
            let inner = schema::inner_scope(g.cardinality, g.id, s);
            let all = schema::placed_one(e, c, s);
            let first = seq![all[0]];
            let rest = schema::placed(g.children, Some(g.id), inner);
            assert(all =~= first + rest);
            ids_of_both(first, rest);
            held_by_both(first, rest, Some(h));
            assert(ids_of(all)[0] == ElementIdModel::Group(g.id));
            assert(g.id != h);
            assert(!ids_of(rest).contains(ElementIdModel::Group(h))) by {
                if ids_of(rest).contains(ElementIdModel::Group(h)) {
                    let i = ids_of(rest).index_of(ElementIdModel::Group(h));
                    assert(ids_of(all)[i + 1] == ElementIdModel::Group(h));
                }
            }
            strangers_hold_nothing(g.children, Some(g.id), inner, h);
        },
    }
}

/// A list's container holds the list's own elements, in order.
proof fn container_holds_its_own(e: Seq<ElementModel>, c: Option<Seq<char>>, s: Seq<Seq<char>>)
    requires
        c matches Some(h) ==> !holds_group(schema::placed(e, c, s), h),
    ensures
        held_by(schema::placed(e, c, s), c) == own_ids(e),
    decreases e.len(),
{
    reveal_with_fuel(held_by, 2);
    if e.len() == 0 {
        assert(held_by(schema::placed(e, c, s), c) =~= own_ids(e));
    } else {
        let rest = schema::placed(e.drop_last(), c, s);
        let last = schema::placed_one(e.last(), c, s);
        ids_of_both(rest, last);
        held_by_both(rest, last, c);
        if let Some(h) = c {
            assert(!ids_of(rest).contains(ElementIdModel::Group(h))) by {
                if ids_of(rest).contains(ElementIdModel::Group(h)) {
                    let i = ids_of(rest).index_of(ElementIdModel::Group(h));
                    assert((ids_of(rest) + ids_of(last))[i] == ElementIdModel::Group(h));
                }
            }
        }
        container_holds_its_own(e.drop_last(), c, s);
        let id = id_of(own_shell(e.last()));
        match e.last() {
            ElementModel::Column(_) => {
                assert(held_by(last, c) =~= seq![id]);
            },
            ElementModel::Group(g) => {
                let inner = schema::inner_scope(g.cardinality, g.id, s);
                let first = seq![last[0]];
                let below = schema::placed(g.children, Some(g.id), inner);
                assert(last =~= first + below);
                held_by_both(first, below, c);
                ids_of_both(first, below);
                assert(ids_of(last)[0] == ElementIdModel::Group(g.id));
                assert((ids_of(rest) + ids_of(last))[rest.len() as int] == ElementIdModel::Group(
                    g.id,
                ));
                if let Some(h) = c {
                    assert(g.id != h);
                    assert(!ids_of(below).contains(ElementIdModel::Group(h))) by {
                        if ids_of(below).contains(ElementIdModel::Group(h)) {
                            let i = ids_of(below).index_of(ElementIdModel::Group(h));
                            assert((ids_of(rest) + ids_of(last))[rest.len() + 1 + i]
                                == ElementIdModel::Group(h));
                        }
                    }
                    strangers_hold_nothing(g.children, Some(g.id), inner, h);
                } else {
                    roots_hold_nothing_below(g.children, g.id, inner);
                }
                assert(held_by(below, c) =~= Seq::<ElementIdModel>::empty());
                assert(held_by(first, c) =~= seq![id]);
                assert(held_by(last, c) =~= seq![id]);
            },
        }
        assert(own_ids(e) =~= own_ids(e.drop_last()).push(id));
        assert(held_by(schema::placed(e, c, s), c) =~= own_ids(e));
    }
}

/// Nothing inside a group stands at the root.
proof fn roots_hold_nothing_below(e: Seq<ElementModel>, g: Seq<char>, s: Seq<Seq<char>>)
    ensures
        held_by(schema::placed(e, Some(g), s), None).len() == 0,
    decreases e,
{
    if e.len() > 0 {
        let rest = schema::placed(e.drop_last(), Some(g), s);
        let last = schema::placed_one(e.last(), Some(g), s);
        held_by_both(rest, last, None);
        roots_hold_nothing_below(e.drop_last(), g, s);
        root_holds_nothing_below(e.last(), g, s);
    }
}

proof fn root_holds_nothing_below(e: ElementModel, g: Seq<char>, s: Seq<Seq<char>>)
    ensures
        held_by(schema::placed_one(e, Some(g), s), None).len() == 0,
    decreases e,
{
    reveal_with_fuel(held_by, 2);
    match e {
        ElementModel::Column(_) => {},
        ElementModel::Group(h) => {
            let inner = schema::inner_scope(h.cardinality, h.id, s);
            let all = schema::placed_one(e, Some(g), s);
            let first = seq![all[0]];
            let rest = schema::placed(h.children, Some(h.id), inner);
            assert(all =~= first + rest);
            held_by_both(first, rest, None);
            roots_hold_nothing_below(h.children, h.id, inner);
        },
    }
}

pub proof fn def_is_placed(p: Seq<PlacedModel>, k: ElementIdModel)
    requires
        defs_of(p).dom().contains(k),
    ensures
        exists|i: int|
            0 <= i < p.len() && id_of((#[trigger] p[i]).shell) == k && defs_of(p)[k] == (DefModel {
                shell: p[i].shell,
                parent: p[i].parent,
            }),
    decreases p.len(),
{
    if p.len() > 0 {
        if id_of(p.last().shell) == k {
            assert(p[p.len() - 1] == p.last());
        } else {
            def_is_placed(p.drop_last(), k);
            let i = choose|i: int|
                0 <= i < p.drop_last().len() && id_of((#[trigger] p.drop_last()[i]).shell) == k
                    && defs_of(p.drop_last())[k] == (DefModel {
                    shell: p.drop_last()[i].shell,
                    parent: p.drop_last()[i].parent,
                });
            assert(p[i] == p.drop_last()[i]);
        }
    }
}

pub proof fn placed_is_def(p: Seq<PlacedModel>, i: int)
    requires
        0 <= i < p.len(),
    ensures
        defs_of(p).dom().contains(id_of(p[i].shell)),
        ids_of(p).no_duplicates() ==> defs_of(p)[id_of(p[i].shell)] == (DefModel {
            shell: p[i].shell,
            parent: p[i].parent,
        }),
    decreases p.len(),
{
    if i < p.len() - 1 {
        placed_is_def(p.drop_last(), i);
        assert(p.drop_last()[i] == p[i]);
        if ids_of(p).no_duplicates() {
            assert(ids_of(p)[i] != ids_of(p)[p.len() - 1]);
            assert forall|a: int, b: int|
                0 <= a < p.len() - 1 && 0 <= b < p.len() - 1 && a != b implies ids_of(
                p.drop_last(),
            )[a] != ids_of(p.drop_last())[b] by {
                assert(ids_of(p)[a] != ids_of(p)[b]);
            }
        }
    }
}

pub proof fn placed_is_held(p: Seq<PlacedModel>, i: int)
    requires
        0 <= i < p.len(),
    ensures
        held_by(p, p[i].parent).contains(id_of(p[i].shell)),
    decreases p.len(),
{
    let d = p[i].parent;
    let all = held_by(p, d);
    let rest = held_by(p.drop_last(), d);
    if i == p.len() - 1 {
        assert(all[rest.len() as int] == id_of(p[i].shell));
    } else {
        placed_is_held(p.drop_last(), i);
        let j = rest.index_of(id_of(p[i].shell));
        assert(all[j] == id_of(p[i].shell));
    }
}

pub proof fn defs_are_finite(p: Seq<PlacedModel>)
    ensures
        defs_of(p).dom().finite(),
    decreases p.len(),
{
    if p.len() > 0 {
        defs_are_finite(p.drop_last());
    }
}

/// What holds of a subtree that is rebuilt from a whole.
spec fn is_part(
    e: Seq<ElementModel>,
    c: Option<Seq<char>>,
    s: Seq<Seq<char>>,
    p: Seq<PlacedModel>,
) -> bool {
    &&& ids_of(schema::placed(e, c, s)).no_duplicates()
    &&& c matches Some(h) ==> !holds_group(schema::placed(e, c, s), h)
    &&& forall|j: int| 0 <= j < schema::placed(e, c, s).len() ==> p.contains(#[trigger] schema::placed(e, c, s)[j])
    &&& held_by(p, c) == held_by(schema::placed(e, c, s), c)
    &&& forall|h: Seq<char>|
        holds_group(schema::placed(e, c, s), h) ==> #[trigger] held_by(p, Some(h)) == held_by(
            schema::placed(e, c, s),
            Some(h),
        )
}

/// What a group holds is a part of the whole too.
proof fn children_are_part(
    e: Seq<ElementModel>,
    c: Option<Seq<char>>,
    s: Seq<Seq<char>>,
    p: Seq<PlacedModel>,
    k: int,
)
    requires
        is_part(e, c, s, p),
        0 <= k < e.len(),
    ensures
        p.contains(schema::placed_one(e[k], c, s)[0]),
        e[k] matches ElementModel::Group(g) ==> {
            let inner = schema::inner_scope(g.cardinality, g.id, s);
            &&& is_part(g.children, Some(g.id), inner, p)
            &&& schema::placed(g.children, Some(g.id), inner).len() < schema::placed(e, c, s).len()
        },
{
    let all = schema::placed(e, c, s);
    let a = schema::placed(e.take(k), c, s);
    let one = schema::placed_one(e[k], c, s);
    let z = schema::placed(e.skip(k + 1), c, s);
    placed_splits(e, c, s, k);
    assert(all == a + one + z);
    assert(all[a.len() as int] == one[0]);
    if let ElementModel::Group(g) = e[k] {
        let inner = schema::inner_scope(g.cardinality, g.id, s);
        let first = seq![one[0]];
        let below = schema::placed(g.children, Some(g.id), inner);
        assert(one =~= first + below);
        let n = a.len() as int;
        assert forall|j: int| 0 <= j < below.len() implies p.contains(#[trigger] below[j]) by {
            assert(all[n + 1 + j] == below[j]);
        }
        assert forall|i: int, j: int|
            0 <= i < below.len() && 0 <= j < below.len() && i != j implies ids_of(below)[i]
            != ids_of(below)[j] by {
            assert(ids_of(all)[n + 1 + i] == ids_of(below)[i]);
            assert(ids_of(all)[n + 1 + j] == ids_of(below)[j]);
        }
        assert(ids_of(all)[n] == ElementIdModel::Group(g.id));
        assert(!holds_group(below, g.id)) by {
            if holds_group(below, g.id) {
                let j = ids_of(below).index_of(ElementIdModel::Group(g.id));
                assert(ids_of(all)[n + 1 + j] == ElementIdModel::Group(g.id));
            }
        }
        assert forall|h: Seq<char>|
            holds_group(below, h) || h == g.id implies #[trigger] held_by(p, Some(h)) == held_by(
            below,
            Some(h),
        ) by {
            let at_h = if h == g.id {
                n
            } else {
                n + 1 + ids_of(below).index_of(ElementIdModel::Group(h))
            };
            assert(ids_of(all)[at_h] == ElementIdModel::Group(h));
            assert(holds_group(all, h));
            assert(c != Some(h));
            held_by_both(a + one, z, Some(h));
            held_by_both(a, one, Some(h));
            held_by_both(first, below, Some(h));
            assert(!holds_group(a, h)) by {
                if holds_group(a, h) {
                    let j = ids_of(a).index_of(ElementIdModel::Group(h));
                    assert(ids_of(all)[j] == ElementIdModel::Group(h));
                }
            }
            assert(!holds_group(z, h)) by {
                if holds_group(z, h) {
                    let j = ids_of(z).index_of(ElementIdModel::Group(h));
                    assert(ids_of(all)[n + one.len() + j] == ElementIdModel::Group(h));
                }
            }
            strangers_hold_nothing(e.take(k), c, s, h);
            strangers_hold_nothing(e.skip(k + 1), c, s, h);
            assert(first[0].parent == c);
            reveal_with_fuel(held_by, 2);
            assert(held_by(first, Some(h)) =~= Seq::<ElementIdModel>::empty());
            assert(held_by(a, Some(h)) =~= Seq::<ElementIdModel>::empty());
            assert(held_by(z, Some(h)) =~= Seq::<ElementIdModel>::empty());
            assert(held_by(all, Some(h)) =~= held_by(below, Some(h)));
        }
    }
}

proof fn own_ids_are_distinct(
    e: Seq<ElementModel>,
    c: Option<Seq<char>>,
    s: Seq<Seq<char>>,
    i: int,
    j: int,
)
    requires
        ids_of(schema::placed(e, c, s)).no_duplicates(),
        0 <= i < j < e.len(),
    ensures
        own_ids(e)[i] != own_ids(e)[j],
{
    let all = schema::placed(e, c, s);
    placed_splits(e, c, s, j);
    let a = schema::placed(e.take(j), c, s);
    let one = schema::placed_one(e[j], c, s);
    assert(one.len() > 0);
    assert(id_of(one[0].shell) == own_ids(e)[j]);
    assert(ids_of(all)[a.len() as int] == own_ids(e)[j]);
    placed_splits(e.take(j), c, s, i);
    let b = schema::placed(e.take(j).take(i), c, s);
    let other = schema::placed_one(e[i], c, s);
    assert(e.take(j)[i] == e[i]);
    assert(id_of(other[0].shell) == own_ids(e)[i]);
    assert(a[b.len() as int] == other[0]);
    assert(ids_of(all)[b.len() as int] == own_ids(e)[i]);
    assert(b.len() < a.len());
}

proof fn distinct_are_all_new(s: Seq<ElementIdModel>)
    requires
        s.no_duplicates(),
    ensures
        with_new(Seq::empty(), s) == s,
    decreases s.len(),
{
    if s.len() > 0 {
        let rest = s.drop_last();
        assert forall|i: int, j: int|
            0 <= i < rest.len() && 0 <= j < rest.len() && i != j implies rest[i] != rest[j] by {
            assert(s[i] != s[j]);
        }
        distinct_are_all_new(rest);
        assert(!rest.contains(s.last())) by {
            if rest.contains(s.last()) {
                let i = rest.index_of(s.last());
                assert(s[i] == s[s.len() - 1]);
            }
        }
        assert(rest.push(s.last()) =~= s);
    } else {
        assert(s =~= Seq::<ElementIdModel>::empty());
    }
}

/// What only the right side has in a container, and the merge does not
/// put there, adds nothing.
proof fn others_add_nothing(
    list: Seq<ElementIdModel>,
    more: Seq<ElementIdModel>,
    c: Option<Seq<char>>,
    p: Seq<PlacedModel>,
    q: Seq<PlacedModel>,
    depth: nat,
)
    requires
        list == held_by(p, c),
    ensures
        rebuilt_each(with_new(list, more), c, defs_of(p), p, q, depth) == rebuilt_each(
            list,
            c,
            defs_of(p),
            p,
            q,
            depth,
        ),
        forall|k: ElementIdModel| #[trigger]
            list.contains(k) ==> with_new(list, more).contains(k),
    decreases more.len(),
{
    if more.len() > 0 {
        let rest = with_new(list, more.drop_last());
        others_add_nothing(list, more.drop_last(), c, p, q, depth);
        let k = more.last();
        if !rest.contains(k) {
            let longer = rest.push(k);
            assert(longer.drop_last() =~= rest);
            if defs_of(p).dom().contains(k) && defs_of(p)[k].parent == c {
                def_is_placed(p, k);
                let i = choose|i: int|
                    0 <= i < p.len() && id_of((#[trigger] p[i]).shell) == k && defs_of(p)[k] == (
                    DefModel { shell: p[i].shell, parent: p[i].parent });
                placed_is_held(p, i);
                assert(list.contains(k));
            }
            assert forall|x: ElementIdModel| #[trigger] list.contains(x) implies longer.contains(
                x,
            ) by {
                assert(rest.contains(x));
                let i = rest.index_of(x);
                assert(longer[i] == x);
            }
        }
    }
}

/// A part of a schema that stands on the left side as it stands in the
/// merge is rebuilt as it is.
proof fn part_is_rebuilt(
    e: Seq<ElementModel>,
    c: Option<Seq<char>>,
    s: Seq<Seq<char>>,
    p: Seq<PlacedModel>,
    q: Seq<PlacedModel>,
    depth: nat,
)
    requires
        ids_of(p).no_duplicates(),
        is_part(e, c, s, p),
        schema::placed(e, c, s).len() <= depth,
    ensures
        rebuilt(c, defs_of(p), p, q, depth) == e,
    decreases e, e.len() + 1,
{
    container_holds_its_own(e, c, s);
    let ids = own_ids(e);
    assert forall|i: int, j: int| 0 <= i < ids.len() && 0 <= j < ids.len() && i != j implies ids[i]
        != ids[j] by {
        if i < j {
            own_ids_are_distinct(e, c, s, i, j);
        } else {
            own_ids_are_distinct(e, c, s, j, i);
        }
    }
    distinct_are_all_new(ids);
    if depth == 0 {
        if e.len() > 0 {
            placed_splits(e, c, s, 0);
        }
        assert(e =~= Seq::<ElementModel>::empty());
    } else {
        let d = (depth - 1) as nat;
        others_add_nothing(ids, held_by(q, c), c, p, q, d);
        first_are_rebuilt(e, e.len() as int, c, s, p, q, d);
        assert(ids.take(ids.len() as int) =~= ids);
        assert(e.take(e.len() as int) =~= e);
    }
}

proof fn first_are_rebuilt(
    e: Seq<ElementModel>,
    k: int,
    c: Option<Seq<char>>,
    s: Seq<Seq<char>>,
    p: Seq<PlacedModel>,
    q: Seq<PlacedModel>,
    depth: nat,
)
    requires
        ids_of(p).no_duplicates(),
        is_part(e, c, s, p),
        schema::placed(e, c, s).len() <= depth + 1,
        0 <= k <= e.len(),
    ensures
        rebuilt_each(own_ids(e).take(k), c, defs_of(p), p, q, depth) == e.take(k),
    decreases e, k,
{
    let ids = own_ids(e);
    if k == 0 {
        assert(ids.take(0) =~= Seq::<ElementIdModel>::empty());
        assert(e.take(0) =~= Seq::<ElementModel>::empty());
    } else {
        first_are_rebuilt(e, k - 1, c, s, p, q, depth);
        assert(ids.take(k).drop_last() =~= ids.take(k - 1));
        assert(ids.take(k).last() == id_of(own_shell(e[k - 1])));
        children_are_part(e, c, s, p, k - 1);
        let entry = schema::placed_one(e[k - 1], c, s)[0];
        let i = p.index_of(entry);
        placed_is_def(p, i);
        assert(e.take(k) =~= e.take(k - 1).push(e[k - 1]));
        if let ElementModel::Group(g) = e[k - 1] {
            let inner = schema::inner_scope(g.cardinality, g.id, s);
            part_is_rebuilt(g.children, Some(g.id), inner, p, q, depth);
            assert(group_with(schema::shell_of(g), g.children) == g);
        }
    }
}

/// The group that holds an element of a list is the list's container or
/// stands in the list.
proof fn parents_stand(e: Seq<ElementModel>, c: Option<Seq<char>>, s: Seq<Seq<char>>, i: int)
    requires
        0 <= i < schema::placed(e, c, s).len(),
    ensures
        schema::placed(e, c, s)[i].parent == c || (schema::placed(e, c, s)[i].parent matches Some(h)
            && holds_group(schema::placed(e, c, s), h)),
    decreases e,
{
    let rest = schema::placed(e.drop_last(), c, s);
    let last = schema::placed_one(e.last(), c, s);
    let all = schema::placed(e, c, s);
    ids_of_both(rest, last);
    if i < rest.len() {
        parents_stand(e.drop_last(), c, s, i);
        assert(all[i] == rest[i]);
        if let Some(h) = rest[i].parent {
            if holds_group(rest, h) {
                let j = ids_of(rest).index_of(ElementIdModel::Group(h));
                assert(ids_of(all)[j] == ElementIdModel::Group(h));
            }
        }
    } else {
        parent_stands(e.last(), c, s, i - rest.len());
        assert(all[i] == last[i - rest.len()]);
        if let Some(h) = all[i].parent {
            if holds_group(last, h) {
                let j = ids_of(last).index_of(ElementIdModel::Group(h));
                assert(ids_of(all)[rest.len() + j] == ElementIdModel::Group(h));
            }
        }
    }
}

proof fn parent_stands(e: ElementModel, c: Option<Seq<char>>, s: Seq<Seq<char>>, i: int)
    requires
        0 <= i < schema::placed_one(e, c, s).len(),
    ensures
        schema::placed_one(e, c, s)[i].parent == c || (schema::placed_one(e, c, s)[i].parent matches Some(h)
            && holds_group(schema::placed_one(e, c, s), h)),
    decreases e,
{
    if let ElementModel::Group(g) = e {
        let inner = schema::inner_scope(g.cardinality, g.id, s);
        let all = schema::placed_one(e, c, s);
        let below = schema::placed(g.children, Some(g.id), inner);
        if i > 0 {
            parents_stand(g.children, Some(g.id), inner, i - 1);
            assert(all[i] == below[i - 1]);
            assert(ids_of(all)[0] == ElementIdModel::Group(g.id));
            if let Some(h) = all[i].parent {
                if holds_group(below, h) {
                    let j = ids_of(below).index_of(ElementIdModel::Group(h));
                    assert(ids_of(all)[j + 1] == ElementIdModel::Group(h));
                }
            }
        }
    }
}

proof fn parents_come_first(e: Seq<ElementModel>, c: Option<Seq<char>>, s: Seq<Seq<char>>, i: int)
    requires
        0 <= i < schema::placed(e, c, s).len(),
    ensures
        schema::placed(e, c, s)[i].parent == c || (schema::placed(e, c, s)[i].parent matches Some(h) && exists|
            j: int,
        |
            0 <= j < i && id_of((#[trigger] schema::placed(e, c, s)[j]).shell) == ElementIdModel::Group(h)),
    decreases e,
{
    let rest = schema::placed(e.drop_last(), c, s);
    let last = schema::placed_one(e.last(), c, s);
    let all = schema::placed(e, c, s);
    if i < rest.len() {
        parents_come_first(e.drop_last(), c, s, i);
        assert(all[i] == rest[i]);
        if rest[i].parent != c {
            let h = rest[i].parent->0;
            let j = choose|j: int|
                0 <= j < i && id_of((#[trigger] rest[j]).shell) == ElementIdModel::Group(h);
            assert(all[j] == rest[j]);
        }
    } else {
        let k = i - rest.len();
        parent_comes_first(e.last(), c, s, k);
        assert(all[i] == last[k]);
        if last[k].parent != c {
            let h = last[k].parent->0;
            let j = choose|j: int|
                0 <= j < k && id_of((#[trigger] last[j]).shell) == ElementIdModel::Group(h);
            assert(all[rest.len() + j] == last[j]);
        }
    }
}

proof fn parent_comes_first(e: ElementModel, c: Option<Seq<char>>, s: Seq<Seq<char>>, i: int)
    requires
        0 <= i < schema::placed_one(e, c, s).len(),
    ensures
        schema::placed_one(e, c, s)[i].parent == c || (schema::placed_one(e, c, s)[i].parent matches Some(h)
            && exists|j: int|
            0 <= j < i && id_of((#[trigger] schema::placed_one(e, c, s)[j]).shell) == ElementIdModel::Group(
                h,
            )),
    decreases e,
{
    if let ElementModel::Group(g) = e {
        let inner = schema::inner_scope(g.cardinality, g.id, s);
        let all = schema::placed_one(e, c, s);
        let below = schema::placed(g.children, Some(g.id), inner);
        if i > 0 {
            parents_come_first(g.children, Some(g.id), inner, i - 1);
            assert(all[i] == below[i - 1]);
            if below[i - 1].parent == Some(g.id) {
                assert(id_of(all[0].shell) == ElementIdModel::Group(g.id));
            } else {
                let h = below[i - 1].parent->0;
                let j = choose|j: int|
                    0 <= j < i - 1 && id_of((#[trigger] below[j]).shell) == ElementIdModel::Group(h);
                assert(all[j + 1] == below[j]);
            }
        }
    }
}

proof fn trees_end(root: Seq<ElementModel>, i: int)
    requires
        ids_of(schema::placed(root, None, Seq::empty())).no_duplicates(),
        0 <= i < schema::placed(root, None, Seq::empty()).len(),
    ensures
        ends_within(
            defs_of(schema::placed(root, None, Seq::empty())),
            schema::placed(root, None, Seq::empty())[i].parent,
            i as nat,
        ),
    decreases i,
{
    let p = schema::placed(root, None, Seq::empty());
    let d = defs_of(p);
    parents_come_first(root, None, Seq::empty(), i);
    if p[i].parent != None::<Seq<char>> {
        let h = p[i].parent->0;
        let j = choose|j: int|
            0 <= j < i && id_of((#[trigger] p[j]).shell) == ElementIdModel::Group(h);
        placed_is_def(p, j);
        trees_end(root, j);
        more_steps_change_nothing(d, p[j].parent, j as nat, (i - 1) as nat);
    }
}

proof fn no_circles(keys: Seq<ElementIdModel>, root: Seq<ElementModel>)
    requires
        ids_of(schema::placed(root, None, Seq::empty())).no_duplicates(),
        forall|i: int|
            0 <= i < keys.len() ==> defs_of(schema::placed(root, None, Seq::empty())).dom().contains(
                #[trigger] keys[i],
            ),
    ensures
        circles(keys, defs_of(schema::placed(root, None, Seq::empty()))).len() == 0,
    decreases keys.len(),
{
    if keys.len() > 0 {
        let p = schema::placed(root, None, Seq::empty());
        let d = defs_of(p);
        let rest = keys.drop_last();
        assert forall|i: int| 0 <= i < rest.len() implies d.dom().contains(#[trigger] rest[i]) by {
            assert(rest[i] == keys[i]);
        }
        no_circles(rest, root);
        let k = keys.last();
        assert(keys[keys.len() - 1] == k);
        if let ElementIdModel::Group(g) = k {
            def_is_placed(p, k);
            let i = choose|i: int|
                0 <= i < p.len() && id_of((#[trigger] p[i]).shell) == k && d[k] == (DefModel {
                    shell: p[i].shell,
                    parent: p[i].parent,
                });
            trees_end(root, i);
            assert(ends_within(d, Some(g), (i + 1) as nat));
        }
    }
}

proof fn no_orphans(
    keys: Seq<ElementIdModel>,
    root: Seq<ElementModel>,
)
    requires
        forall|i: int|
            0 <= i < keys.len() ==> defs_of(schema::placed(root, None, Seq::empty())).dom().contains(
                #[trigger] keys[i],
            ),
    ensures
        orphans(keys, defs_of(schema::placed(root, None, Seq::empty()))).len() == 0,
    decreases keys.len(),
{
    if keys.len() > 0 {
        let p = schema::placed(root, None, Seq::empty());
        let rest = keys.drop_last();
        assert forall|i: int| 0 <= i < rest.len() implies defs_of(p).dom().contains(
            #[trigger] rest[i],
        ) by {
            assert(rest[i] == keys[i]);
        }
        no_orphans(rest, root);
        let k = keys.last();
        assert(keys[keys.len() - 1] == k);
        def_is_placed(p, k);
        let i = choose|i: int|
            0 <= i < p.len() && id_of((#[trigger] p[i]).shell) == k && defs_of(p)[k] == (DefModel {
                shell: p[i].shell,
                parent: p[i].parent,
            });
        parents_stand(root, None, Seq::empty(), i);
        if let Some(h) = p[i].parent {
            let j = ids_of(p).index_of(ElementIdModel::Group(h));
            placed_is_def(p, j);
            assert(id_of(p[j].shell) == ElementIdModel::Group(h));
        }
    }
}

proof fn no_element_conflicts(
    keys: Seq<ElementIdModel>,
    b: Map<ElementIdModel, DefModel>,
    x: Map<ElementIdModel, DefModel>,
    y: Map<ElementIdModel, DefModel>,
)
    requires
        y == b || y == x,
    ensures
        element_conflicts(keys, b, x, y).len() == 0,
    decreases keys.len(),
{
    if keys.len() > 0 {
        no_element_conflicts(keys.drop_last(), b, x, y);
    }
}

proof fn resolver_map_is(s: Seq<ResolverDeclarationModel>)
    requires
        resolvers_in_order(s),
    ensures
        forall|id: Seq<char>| #[trigger]
            resolvers_by_id(s).dom().contains(id) <==> resolver_ids(s).contains(id),
        forall|i: int| 0 <= i < s.len() ==> resolvers_by_id(s)[(#[trigger] s[i]).id] == s[i],
        resolvers_by_id(s).dom().finite(),
    decreases s.len(),
{
    if s.len() > 0 {
        let rest = s.drop_last();
        assert forall|i: int, j: int|
            #![trigger resolver_ids(rest)[i], resolver_ids(rest)[j]]
            0 <= i < j < rest.len() implies ResolverId::order(
            resolver_ids(rest)[i],
            resolver_ids(rest)[j],
        ) == Order::Less by {
            assert(resolver_ids(rest)[i] == resolver_ids(s)[i]);
            assert(resolver_ids(rest)[j] == resolver_ids(s)[j]);
        }
        resolver_map_is(rest);
        collections::in_order_is_distinct::<ResolverId>(resolver_ids(s));
        assert forall|id: Seq<char>| #[trigger]
            resolvers_by_id(s).dom().contains(id) <==> resolver_ids(s).contains(id) by {
            if resolver_ids(rest).contains(id) {
                let i = resolver_ids(rest).index_of(id);
                assert(resolver_ids(s)[i] == id);
            }
            if resolver_ids(s).contains(id) {
                let i = resolver_ids(s).index_of(id);
                if i < rest.len() {
                    assert(resolver_ids(rest)[i] == id);
                    assert(resolver_ids(rest).contains(id));
                }
            }
            assert(resolver_ids(s)[s.len() - 1] == s.last().id);
        }
        assert forall|i: int| 0 <= i < s.len() implies resolvers_by_id(s)[(#[trigger] s[i]).id]
            == s[i] by {
            if i < rest.len() {
                assert(rest[i] == s[i]);
                assert(resolver_ids(s)[i] != resolver_ids(s)[s.len() - 1]);
            }
        }
    }
}

proof fn resolvers_are_kept(
    keys: Seq<Seq<char>>,
    b: Map<Seq<char>, ResolverDeclarationModel>,
    s: Seq<ResolverDeclarationModel>,
    y: Map<Seq<char>, ResolverDeclarationModel>,
)
    requires
        resolvers_in_order(s),
        collections::in_order::<ResolverId>(keys),
        y == b || y == resolvers_by_id(s),
    ensures
        ({
            let out = merged_resolvers(keys, b, resolvers_by_id(s), y);
            &&& resolver_conflicts(keys, b, resolvers_by_id(s), y).len() == 0
            &&& collections::in_order::<ResolverId>(resolver_ids(out))
            &&& forall|i: int|
                0 <= i < out.len() ==> keys.contains((#[trigger] out[i]).id) && resolver_ids(
                    s,
                ).contains(out[i].id) && out[i] == resolvers_by_id(s)[out[i].id]
            &&& forall|id: Seq<char>|
                resolver_ids(out).contains(id) <==> keys.contains(id)
                    && #[trigger] resolver_ids(s).contains(id)
        }),
    decreases keys.len(),
{
    let m = resolvers_by_id(s);
    resolver_map_is(s);
    let out = merged_resolvers(keys, b, m, y);
    if keys.len() > 0 {
        let rest = keys.drop_last();
        let k = keys.last();
        assert forall|i: int, j: int|
            #![trigger rest[i], rest[j]]
            0 <= i < j < rest.len() implies ResolverId::order(rest[i], rest[j]) == Order::Less by {
            assert(rest[i] == keys[i]);
            assert(rest[j] == keys[j]);
        }
        resolvers_are_kept(rest, b, s, y);
        let before = merged_resolvers(rest, b, m, y);
        assert(keys[keys.len() - 1] == k);
        if m.dom().contains(k) {
            let j = resolver_ids(s).index_of(k);
            assert(s[j].id == k);
            assert(m[k].id == k);
            assert(out == before.push(m[k]));
            assert(resolver_ids(out) =~= resolver_ids(before).push(k));
            assert forall|i: int, j: int|
                #![trigger resolver_ids(out)[i], resolver_ids(out)[j]]
                0 <= i < j < out.len() implies ResolverId::order(
                resolver_ids(out)[i],
                resolver_ids(out)[j],
            ) == Order::Less by {
                if j < before.len() {
                    assert(resolver_ids(before)[i] == resolver_ids(out)[i]);
                    assert(resolver_ids(before)[j] == resolver_ids(out)[j]);
                } else {
                    let x = before[i].id;
                    assert(rest.contains(x));
                    let n = rest.index_of(x);
                    assert(keys[n] == x);
                    assert(ResolverId::order(keys[n], keys[keys.len() - 1]) == Order::Less);
                }
            }
        } else {
            assert(out == before);
        }
        assert forall|i: int| 0 <= i < out.len() implies keys.contains((#[trigger] out[i]).id)
            && resolver_ids(s).contains(out[i].id) && out[i] == m[out[i].id] by {
            if i < before.len() {
                assert(out[i] == before[i]);
                let n = rest.index_of(before[i].id);
                assert(keys[n] == before[i].id);
            }
        }
        assert forall|id: Seq<char>|
            resolver_ids(out).contains(id) <==> keys.contains(id) && #[trigger] resolver_ids(
                s,
            ).contains(id) by {
            if resolver_ids(out).contains(id) {
                let i = resolver_ids(out).index_of(id);
                assert(out[i].id == id);
            }
            if keys.contains(id) && resolver_ids(s).contains(id) {
                let n = keys.index_of(id);
                if n < rest.len() {
                    assert(rest[n] == id);
                    assert(resolver_ids(before).contains(id));
                    let i = resolver_ids(before).index_of(id);
                    assert(resolver_ids(out)[i] == id);
                } else {
                    assert(m.dom().contains(k));
                    assert(resolver_ids(out)[before.len() as int] == k);
                }
            }
        }
    } else {
        assert(resolver_ids(out) =~= Seq::<Seq<char>>::empty());
    }
}

proof fn other_resolvers_are_finite(s: Seq<ResolverDeclarationModel>)
    ensures
        resolvers_by_id(s).dom().finite(),
    decreases s.len(),
{
    if s.len() > 0 {
        other_resolvers_are_finite(s.drop_last());
    }
}

proof fn resolvers_come_through(
    b: Map<Seq<char>, ResolverDeclarationModel>,
    s: Seq<ResolverDeclarationModel>,
    y: Map<Seq<char>, ResolverDeclarationModel>,
)
    requires
        resolvers_in_order(s),
        b.dom().finite(),
        y == b || y == resolvers_by_id(s),
    ensures
        merged_resolvers(all_resolvers(b, resolvers_by_id(s), y), b, resolvers_by_id(s), y) == s,
        resolver_conflicts(all_resolvers(b, resolvers_by_id(s), y), b, resolvers_by_id(s), y).len()
            == 0,
{
    let m = resolvers_by_id(s);
    resolver_map_is(s);
    let dom = b.dom().union(m.dom()).union(y.dom());
    collections::finite_is_listed::<ResolverId>(dom);
    let keys = all_resolvers(b, m, y);
    resolvers_are_kept(keys, b, s, y);
    let out = merged_resolvers(keys, b, m, y);
    assert forall|id: Seq<char>| #[trigger] resolver_ids(out).contains(id) <==> m.dom().contains(
        id,
    ) by {
        assert(resolver_ids(s).contains(id) <==> m.dom().contains(id));
        if m.dom().contains(id) {
            assert(keys.contains(id));
        }
    }
    assert forall|id: Seq<char>| #[trigger] resolver_ids(s).contains(id) <==> m.dom().contains(
        id,
    ) by {}
    collections::lists_unique::<ResolverId>(resolver_ids(out), resolver_ids(s), m.dom());
    assert(out.len() == resolver_ids(out).len());
    assert forall|i: int| 0 <= i < out.len() implies out[i] == s[i] by {
        assert(resolver_ids(out)[i] == out[i].id);
        assert(resolver_ids(s)[i] == s[i].id);
        assert(out[i] == m[out[i].id]);
        assert(m[s[i].id] == s[i]);
    }
    assert(out =~= s);
}

proof fn one_side_comes_through(
    base: SchemaModel,
    x: SchemaModel,
    other: SchemaModel,
)
    requires
        ids_are_distinct(x),
        resolvers_in_order(x.resolvers),
        other == base || other == x,
    ensures
        merge_conflicts(base, x, other).len() == 0,
        merged_schema(base, x, other) == x,
{
    let b = defs_of(schema::schema_elements(base));
    let p = schema::schema_elements(x);
    let q = schema::schema_elements(other);
    let d = defs_of(p);
    let y = defs_of(q);
    let merged = merged_defs(b, d, y);
    assert(merged =~= d) by {
        assert forall|k: ElementIdModel| merged.dom().contains(k) <==> d.dom().contains(k) by {
            assert(merged3(at(b, k), at(d, k), at(y, k)) == Some(at(d, k)));
        }
        assert forall|k: ElementIdModel| merged.dom().contains(k) implies merged[k] == d[k] by {
            assert(merged3(at(b, k), at(d, k), at(y, k)) == Some(at(d, k)));
        }
    }
    no_element_conflicts(all_elements(b, d, y), b, d, y);
    other_resolvers_are_finite(base.resolvers);
    resolvers_come_through(
        resolvers_by_id(base.resolvers),
        x.resolvers,
        resolvers_by_id(other.resolvers),
    );
    defs_are_finite(p);
    collections::finite_is_listed::<ElementId>(d.dom());
    let keys = collections::key_order::<ElementId>(d.dom());
    assert forall|i: int| 0 <= i < keys.len() implies d.dom().contains(#[trigger] keys[i]) by {
        assert(keys.contains(keys[i]));
    }
    no_orphans(keys, x.root);
    no_circles(keys, x.root);
    assert forall|i: int| 0 <= i < ids_of(p).len() implies d.dom().contains(
        #[trigger] ids_of(p)[i],
    ) by {
        placed_is_def(p, i);
    }
    collections::distinct_is_short::<ElementId>(ids_of(p), d.dom());
    assert(is_part(x.root, None, Seq::empty(), p)) by {
        assert forall|j: int| 0 <= j < p.len() implies p.contains(#[trigger] p[j]) by {}
    }
    part_is_rebuilt(x.root, None, Seq::empty(), p, q, keys.len());
}

/// Where the right side did not move, the merge is the left side, to the
/// letter; and so it is where both sides made the same edits. This holds
/// of every left side whose identities are distinct and whose resolvers
/// stand in order.
pub proof fn unchanged_side_yields_the_other(base: SchemaModel, x: SchemaModel)
    requires
        ids_are_distinct(x),
        resolvers_in_order(x.resolvers),
    ensures
        merge_conflicts(base, x, base).len() == 0,
        merged_schema(base, x, base) == x,
        merge_conflicts(base, x, x).len() == 0,
        merged_schema(base, x, x) == x,
{
    one_side_comes_through(base, x, base);
    one_side_comes_through(base, x, x);
}

/// Where the left side did not move, no conflict arises and the merge
/// has exactly the right side's elements and resolvers.
pub proof fn unmoved_left_takes_the_right(base: SchemaModel, x: SchemaModel)
    requires
        ids_are_distinct(x),
        resolvers_in_order(x.resolvers),
    ensures
        merge_conflicts(base, base, x).len() == 0,
        merged_defs(
            defs_of(schema::schema_elements(base)),
            defs_of(schema::schema_elements(base)),
            defs_of(schema::schema_elements(x)),
        ) == defs_of(schema::schema_elements(x)),
        merged_schema(base, base, x).resolvers == x.resolvers,
{
    one_side_comes_through(base, x, base);
    merge_is_symmetric(base, x, base);
    let b = defs_of(schema::schema_elements(base));
    let d = defs_of(schema::schema_elements(x));
    assert(merged_defs(b, b, d) =~= d) by {
        assert forall|k: ElementIdModel| merged3(at(b, k), at(b, k), at(d, k)) == Some(
            at(d, k),
        ) by {}
    }
}

} // verus!
