//! Publication of nomenclatures. Versions only ever gain options: labels
//! and extra fields may change, identities are never taken away. The
//! joins of enum columns rely on it.

use vstd::prelude::*;
use crate::cast;
use crate::collections;
use crate::impact;
use crate::cast::{NomenclatureTable, row_has_option};
use crate::collections::{OrderedMap, OrderedSet};
use crate::ids::{NomenclatureId, OptionId};
use crate::order::Modeled;
use crate::schema::{OptionRow, OptionRowModel};

verus! {

/// Why a version is refused.
#[derive(Clone, Debug, PartialEq, Eq)]
pub enum PublishNomenclatureError {
    /// The version lacks options of the one before.
    RemovesIds { id: NomenclatureId, version: u32, removed: Vec<OptionId> },
    /// Two rows have one identity.
    DuplicateId { id: NomenclatureId, option: OptionId },
}

/// The model of [`PublishNomenclatureError`].
#[verifier::ext_equal]
pub enum PublishNomenclatureErrorModel {
    RemovesIds { id: Seq<char>, version: u32, removed: Seq<Seq<char>> },
    DuplicateId { id: Seq<char>, option: Seq<char> },
}

impl DeepView for PublishNomenclatureError {
    type V = PublishNomenclatureErrorModel;

    open spec fn deep_view(&self) -> PublishNomenclatureErrorModel {
        match self {
            PublishNomenclatureError::RemovesIds { id, version, removed } => PublishNomenclatureErrorModel::RemovesIds {
                id: id.deep_view(),
                version: *version,
                removed: removed.deep_view(),
            },
            PublishNomenclatureError::DuplicateId { id, option } => PublishNomenclatureErrorModel::DuplicateId {
                id: id.deep_view(),
                option: option.deep_view(),
            },
        }
    }
}

impl View for PublishNomenclatureError {
    type V = PublishNomenclatureErrorModel;

    open spec fn view(&self) -> PublishNomenclatureErrorModel {
        self.deep_view()
    }
}

impl Modeled for PublishNomenclatureError {
    fn dup(&self) -> (r: Self) {
        match self {
            PublishNomenclatureError::RemovesIds { id, version, removed } => PublishNomenclatureError::RemovesIds {
                id: id.dup(),
                version: *version,
                removed: removed.dup(),
            },
            PublishNomenclatureError::DuplicateId { id, option } => PublishNomenclatureError::DuplicateId {
                id: id.dup(),
                option: option.dup(),
            },
        }
    }

    fn same(&self, other: &Self) -> (b: bool) {
        match (self, other) {
            (
                PublishNomenclatureError::RemovesIds { id, version, removed },
                PublishNomenclatureError::RemovesIds { id: id2, version: version2, removed: removed2 },
            ) => {
                id.same(id2)
                    && *version == *version2
                    && removed.same(removed2)
            },
            (
                PublishNomenclatureError::DuplicateId { id, option },
                PublishNomenclatureError::DuplicateId { id: id2, option: option2 },
            ) => {
                id.same(id2)
                    && option.same(option2)
            },
            _ => false,
        }
    }
}

/// The published versions of nomenclatures.
#[derive(Debug, PartialEq, Eq)]
pub struct NomenclatureRegistry {
    /// By nomenclature, the first version first.
    versions: OrderedMap<NomenclatureId, Vec<Vec<OptionRow>>>,
}

impl View for NomenclatureRegistry {
    type V = Map<Seq<char>, Seq<Seq<OptionRowModel>>>;

    closed spec fn view(&self) -> Map<Seq<char>, Seq<Seq<OptionRowModel>>> {
        self.versions@
    }
}

/// Whether each version of a list has every option of the one before.
pub open spec fn only_gains(versions: Seq<Seq<OptionRowModel>>) -> bool {
    forall|i: int|
        0 <= i < versions.len() - 1 ==> cast::options_within(#[trigger] versions[i], versions[i + 1])
}

/// Whether every nomenclature's versions only gain options, and can be
/// counted.
pub open spec fn all_only_gain(m: Map<Seq<char>, Seq<Seq<OptionRowModel>>>) -> bool {
    forall|id: Seq<char>| #[trigger]
        m.dom().contains(id) ==> only_gains(m[id]) && m[id].len() <= u32::MAX
}

/// The versions of a nomenclature; none where nothing is published.
pub open spec fn versions_of(
    m: Map<Seq<char>, Seq<Seq<OptionRowModel>>>,
    id: Seq<char>,
) -> Seq<Seq<OptionRowModel>> {
    if m.dom().contains(id) {
        m[id]
    } else {
        Seq::empty()
    }
}

/// The first row whose identity an earlier one has.
pub open spec fn duplicate_option(rows: Seq<OptionRowModel>) -> Option<Seq<char>>
    decreases rows.len(),
{
    if rows.len() == 0 {
        None
    } else {
        match duplicate_option(rows.drop_last()) {
            Some(id) => Some(id),
            None => if cast::has_option(rows.drop_last(), rows.last().id) {
                Some(rows.last().id)
            } else {
                None
            },
        }
    }
}

/// The identities of some rows.
pub open spec fn row_ids(rows: Seq<OptionRowModel>) -> Seq<Seq<char>> {
    Seq::new(rows.len(), |i: int| rows[i].id)
}

/// The options of a version that the next one lacks, in the order of
/// the rows.
pub open spec fn options_dropped(
    before: Seq<OptionRowModel>,
    after: Seq<OptionRowModel>,
) -> Seq<Seq<char>> {
    row_ids(impact::kept(before, |r: OptionRowModel| !cast::has_option(after, r.id)))
}

/// The options that a nomenclature's next version would drop.
pub open spec fn dropped_by(
    versions: Seq<Seq<OptionRowModel>>,
    rows: Seq<OptionRowModel>,
) -> Seq<Seq<char>> {
    if versions.len() == 0 {
        Seq::empty()
    } else {
        options_dropped(versions.last(), rows)
    }
}

/// Where a version of the list is found, counted from 1.
pub open spec fn table_of(m: Map<Seq<char>, Seq<Seq<OptionRowModel>>>) -> Map<
    (Seq<char>, u32),
    Seq<OptionRowModel>,
> {
    Map::new(
        |k: (Seq<char>, u32)| m.dom().contains(k.0) && 1 <= k.1 <= m[k.0].len(),
        |k: (Seq<char>, u32)| m[k.0][k.1 - 1],
    )
}

fn find_duplicate<'a>(rows: &'a Vec<OptionRow>) -> (r: Option<&'a OptionId>)
    ensures
        match r {
            Some(id) => duplicate_option(rows.deep_view()) == Some(id@),
            None => duplicate_option(rows.deep_view()) is None,
        },
{
    let ghost m = rows.deep_view();
    let mut seen: OrderedSet<OptionId> = OrderedSet::new();
    let mut i: usize = 0;
    assert(m.take(0) =~= Seq::<OptionRowModel>::empty());
    while i < rows.len()
        invariant
            i <= rows@.len(),
            m == rows.deep_view(),
            duplicate_option(m.take(i as int)) is None,
            forall|id: Seq<char>| #[trigger]
                seen@.contains(id) <==> cast::has_option(m.take(i as int), id),
        decreases rows@.len() - i,
    {
        let id = &rows[i].id;
        let ghost before = m.take(i as int);
        let ghost after = m.take(i + 1);
        proof {
            assert(after.drop_last() =~= before);
            assert(after.last() == rows@[i as int]@);
            assert forall|x: Seq<char>| cast::has_option(after, x) <==> cast::has_option(before, x) || x
                == id@ by {
                if cast::has_option(after, x) {
                    let k = choose|k: int| 0 <= k < after.len() && (#[trigger] after[k]).id == x;
                    if k < i {
                        assert(before[k].id == x);
                    }
                }
                if cast::has_option(before, x) {
                    let k = choose|k: int| 0 <= k < before.len() && (#[trigger] before[k]).id == x;
                    assert(after[k].id == x);
                }
                assert(after[i as int].id == id@);
            }
        }
        if seen.contains(id) {
            proof {
                duplicate_stays(m, i + 1);
            }
            return Some(id);
        }
        seen.insert(id.dup());
        i += 1;
    }
    assert(m.take(m.len() as int) =~= m);
    None
}

proof fn duplicate_stays(rows: Seq<OptionRowModel>, k: int)
    requires
        0 <= k <= rows.len(),
        duplicate_option(rows.take(k)) is Some,
    ensures
        duplicate_option(rows) == duplicate_option(rows.take(k)),
    decreases rows.len() - k,
{
    if k == rows.len() {
        assert(rows.take(k) =~= rows);
    } else {
        assert(rows.take(k + 1).drop_last() =~= rows.take(k));
        duplicate_stays(rows, k + 1);
    }
}

fn find_dropped(before: &Vec<OptionRow>, after: &Vec<OptionRow>) -> (r: Vec<OptionId>)
    ensures
        r.deep_view() == options_dropped(before.deep_view(), after.deep_view()),
{
    let ghost m = before.deep_view();
    let ghost keep = |r: OptionRowModel| !cast::has_option(after.deep_view(), r.id);
    let mut r: Vec<OptionId> = Vec::new();
    let mut i: usize = 0;
    assert(m.take(0) =~= Seq::<OptionRowModel>::empty());
    assert(r.deep_view() =~= row_ids(impact::kept(m.take(0), keep)));
    while i < before.len()
        invariant
            i <= before@.len(),
            m == before.deep_view(),
            keep == (|r: OptionRowModel| !cast::has_option(after.deep_view(), r.id)),
            r.deep_view() == row_ids(impact::kept(m.take(i as int), keep)),
        decreases before@.len() - i,
    {
        let row = &before[i];
        let ghost so_far = impact::kept(m.take(i as int), keep);
        proof {
            assert(m.take(i + 1).drop_last() =~= m.take(i as int));
            assert(m.take(i + 1).last() == row@);
        }
        if !row_has_option(after, &row.id) {
            let ghost had = r.deep_view();
            r.push(row.id.dup());
            assert(r.deep_view() =~= had.push(row@.id));
            assert(row_ids(so_far.push(row@)) =~= row_ids(so_far).push(row@.id));
        }
        i += 1;
    }
    assert(m.take(m.len() as int) =~= m);
    r
}

proof fn kept_nothing(before: Seq<OptionRowModel>, keep: spec_fn(OptionRowModel) -> bool, i: int)
    requires
        impact::kept(before, keep).len() == 0,
        0 <= i < before.len(),
    ensures
        !keep(before[i]),
    decreases before.len(),
{
    if i < before.len() - 1 {
        kept_nothing(before.drop_last(), keep, i);
        assert(before.drop_last()[i] == before[i]);
    }
}

/// A version is accepted exactly where it has every option of the one
/// before.
pub proof fn nothing_dropped_is_within(before: Seq<OptionRowModel>, after: Seq<OptionRowModel>)
    ensures
        options_dropped(before, after).len() == 0 <==> cast::options_within(before, after),
    decreases before.len(),
{
    let keep = |r: OptionRowModel| !cast::has_option(after, r.id);
    if options_dropped(before, after).len() == 0 {
        assert(impact::kept(before, keep).len() == 0);
        assert forall|i: int| 0 <= i < before.len() implies cast::has_option(
            after,
            (#[trigger] before[i]).id,
        ) by {
            kept_nothing(before, keep, i);
        }
    }
    if cast::options_within(before, after) && before.len() > 0 {
        let rest = before.drop_last();
        assert forall|i: int| 0 <= i < rest.len() implies cast::has_option(
            after,
            (#[trigger] rest[i]).id,
        ) by {
            assert(rest[i] == before[i]);
        }
        nothing_dropped_is_within(rest, after);
        assert(before[before.len() - 1] == before.last());
        assert(impact::kept(rest, keep).len() == 0);
    }
}

impl Default for NomenclatureRegistry {
    fn default() -> (r: Self)
        ensures
            r@ == Map::<Seq<char>, Seq<Seq<OptionRowModel>>>::empty(),
    {
        NomenclatureRegistry::new()
    }
}

impl NomenclatureRegistry {
    #[verifier::type_invariant]
    spec fn only_grows(self) -> bool {
        all_only_gain(self@)
    }

    pub fn new() -> (r: Self)
        ensures
            r@ == Map::<Seq<char>, Seq<Seq<OptionRowModel>>>::empty(),
    {
        let versions: OrderedMap<NomenclatureId, Vec<Vec<OptionRow>>> = OrderedMap::new();
        NomenclatureRegistry { versions }
    }

    /// What every registry keeps.
    pub fn facts(&self)
        ensures
            all_only_gain(self@),
    {
        proof {
            use_type_invariant(self);
        }
    }

    /// Publishes the next version and returns its number, from 1. A
    /// nomenclature can have as many versions as 32 bits can number.
    pub fn publish(&mut self, id: NomenclatureId, rows: Vec<OptionRow>) -> (r: Result<
        u32,
        PublishNomenclatureError,
    >)
        requires
            versions_of(old(self)@, id@).len() < u32::MAX,
        ensures
            match duplicate_option(rows.deep_view()) {
                Some(option) => final(self)@ == old(self)@ && (r matches Err(e) && e@
                    == PublishNomenclatureErrorModel::DuplicateId { id: id@, option }),
                None => {
                    let versions = versions_of(old(self)@, id@);
                    let removed = dropped_by(versions, rows.deep_view());
                    if removed.len() > 0 {
                        final(self)@ == old(self)@ && (r matches Err(e) && e@
                            == PublishNomenclatureErrorModel::RemovesIds {
                            id: id@,
                            version: (versions.len() + 1) as u32,
                            removed,
                        })
                    } else {
                        final(self)@ == old(self)@.insert(
                            id@,
                            versions.push(rows.deep_view()),
                        ) && r == Ok::<u32, PublishNomenclatureError>((versions.len() + 1) as u32)
                    }
                },
            },
            all_only_gain(final(self)@),
    {
        proof {
            use_type_invariant(&*self);
        }
        let ghost before = self@;
        if let Some(option) = find_duplicate(&rows) {
            let option = option.dup();
            return Err(PublishNomenclatureError::DuplicateId { id, option });
        }
        let ghost list = versions_of(self@, id@);
        let mut versions: Vec<Vec<OptionRow>> = match self.versions.get(&id) {
            Some(v) => v.dup(),
            None => Vec::new(),
        };
        assert(versions.deep_view() =~= list);
        let n = versions.len();
        assert(versions.deep_view().len() == n);
        if n > 0 {
            let previous = &versions[n - 1];
            assert(list.last() == previous.deep_view());
            let removed = find_dropped(previous, &rows);
            assert(removed.deep_view().len() == removed@.len());
            if removed.len() > 0 {
                return Err(
                    PublishNomenclatureError::RemovesIds { id, version: n as u32 + 1, removed },
                );
            }
            proof {
                nothing_dropped_is_within(list.last(), rows.deep_view());
            }
        }
        let ghost rm = rows.deep_view();
        versions.push(rows);
        let version = n as u32 + 1;
        let mut all = self.versions.dup();
        proof {
            assert(versions.deep_view() =~= list.push(rm));
            let longer = list.push(rm);
            assert forall|i: int| 0 <= i < longer.len() - 1 implies cast::options_within(
                #[trigger] longer[i],
                longer[i + 1],
            ) by {
                if i < list.len() - 1 {
                    assert(before.dom().contains(id@));
                    assert(only_gains(before[id@]));
                    assert(longer[i] == list[i]);
                    assert(longer[i + 1] == list[i + 1]);
                }
            }
        }
        all.insert(id, versions);
        assert(all_only_gain(all@)) by {
            assert forall|x: Seq<char>| #[trigger] all@.dom().contains(x) implies only_gains(
                all@[x],
            ) && all@[x].len() <= u32::MAX by {
                if x != id@ {
                    assert(before.dom().contains(x));
                }
            }
        }
        *self = NomenclatureRegistry { versions: all };
        Ok(version)
    }

    /// The rows of one version.
    pub fn rows(&self, id: &NomenclatureId, version: u32) -> (r: Option<&Vec<OptionRow>>)
        ensures
            match r {
                Some(rows) => table_of(self@).dom().contains((id@, version)) && rows.deep_view()
                    == table_of(self@)[(id@, version)],
                None => !table_of(self@).dom().contains((id@, version)),
            },
    {
        match self.versions.get(id) {
            Some(v) => {
                let n = v.len();
                assert(v.deep_view().len() == n);
                if version == 0 || version as usize > n {
                    None
                } else {
                    let i = version as usize - 1;
                    assert(v.deep_view()[i as int] == v@[i as int].deep_view());
                    Some(&v[i])
                }
            },
            None => None,
        }
    }

    /// Every version of every nomenclature, for those who look rows up.
    pub fn table(&self) -> (r: NomenclatureTable)
        ensures
            r@ == table_of(self@),
            cast::append_only(r@),
    {
        proof {
            use_type_invariant(self);
        }
        let ghost all = table_of(self@);
        let mut r = NomenclatureTable::new();
        let n = self.versions.len();
        let ghost keys = self.versions.keys();
        let mut i: usize = 0;
        while i < n
            invariant
                i <= n == keys.len(),
                keys == self.versions.keys(),
                collections::lists::<NomenclatureId>(keys, self@.dom()),
                all == table_of(self@),
                all_only_gain(self@),
                forall|k: (Seq<char>, u32)| #[trigger]
                    r@.dom().contains(k) <==> all.dom().contains(k) && keys.take(
                        i as int,
                    ).contains(k.0),
                forall|k: (Seq<char>, u32)| #[trigger] r@.dom().contains(k) ==> r@[k] == all[k],
            decreases n - i,
        {
            let id = self.versions.key_at(i);
            let versions = self.versions.value_at(i);
            let ghost before = keys.take(i as int);
            let ghost after = keys.take(i + 1);
            proof {
                assert(keys.contains(keys[i as int]));
                assert forall|x: Seq<char>| after.contains(x) <==> before.contains(x) || x
                    == id@ by {
                    if after.contains(x) {
                        let k = after.index_of(x);
                        if k < i {
                            assert(before[k] == x);
                        }
                    }
                    if before.contains(x) {
                        assert(after[before.index_of(x)] == x);
                    }
                    assert(after[i as int] == id@);
                }
                assert(!before.contains(id@)) by {
                    collections::in_order_is_distinct::<NomenclatureId>(keys);
                    if before.contains(id@) {
                        let k = before.index_of(id@);
                        assert(keys[k] == keys[i as int]);
                    }
                }
                assert(self@[id@] == versions.deep_view());
            }
            let m = versions.len();
            let mut j: usize = 0;
            while j < m
                invariant
                    j <= m == versions@.len(),
                    m <= u32::MAX,
                    all == table_of(self@),
                    self@.dom().contains(id@),
                    self@[id@] == versions.deep_view(),
                    forall|k: (Seq<char>, u32)| #[trigger]
                        r@.dom().contains(k) <==> all.dom().contains(k) && (before.contains(k.0)
                            || (k.0 == id@ && k.1 <= j)),
                    forall|k: (Seq<char>, u32)| #[trigger]
                        r@.dom().contains(k) ==> r@[k] == all[k],
                    !before.contains(id@),
                decreases m - j,
            {
                assert(versions.deep_view()[j as int] == versions@[j as int].deep_view());
                r.insert(id.dup(), j as u32 + 1, versions[j].dup());
                j += 1;
            }
            i += 1;
        }
        proof {
            assert(keys.take(n as int) =~= keys);
            assert forall|k: (Seq<char>, u32)| all.dom().contains(k) implies keys.contains(k.0) by {
                assert(self@.dom().contains(k.0));
            }
            assert(r@ =~= all);
            tables_only_gain(self@);
        }
        r
    }
}

proof fn gains_add_up(versions: Seq<Seq<OptionRowModel>>, i: int, j: int)
    requires
        only_gains(versions),
        0 <= i <= j < versions.len(),
    ensures
        cast::options_within(versions[i], versions[j]),
    decreases j - i,
{
    if i == j {
        assert forall|k: int| 0 <= k < versions[i].len() implies cast::has_option(
            versions[j],
            (#[trigger] versions[i][k]).id,
        ) by {}
    } else {
        gains_add_up(versions, i, j - 1);
        assert(cast::options_within(versions[j - 1], versions[j - 1 + 1]));
        let a = versions[i];
        let b = versions[j - 1];
        let c = versions[j];
        assert forall|k: int| 0 <= k < a.len() implies cast::has_option(c, (#[trigger] a[k]).id) by {
            assert(cast::has_option(b, a[k].id));
            let l = choose|l: int| 0 <= l < b.len() && (#[trigger] b[l]).id == a[k].id;
            assert(cast::has_option(c, b[l].id));
        }
    }
}

/// A registry's table only ever gains options, which the joins of enum
/// columns rely on.
pub proof fn tables_only_gain(m: Map<Seq<char>, Seq<Seq<OptionRowModel>>>)
    requires
        all_only_gain(m),
    ensures
        cast::append_only(table_of(m)),
{
    let t = table_of(m);
    assert forall|id: Seq<char>, v: u32, w: u32|
        #![trigger t.dom().contains((id, v)), t.dom().contains((id, w))]
        v <= w && t.dom().contains((id, v)) && t.dom().contains((id, w)) implies cast::options_within(
        t[(id, v)],
        t[(id, w)],
    ) by {
        gains_add_up(m[id], v - 1, w - 1);
    }
}

} // verus!
