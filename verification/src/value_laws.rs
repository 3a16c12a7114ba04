//! What an operation does to a record's values, and to nothing else.

use vstd::prelude::*;
use crate::value;
use crate::ids::PathSegModel;
use crate::value::{
    ApplyErrorModel, CellAddrModel, CellStateModel, CellValueModel, ItemsAddrModel, OpModel,
    RecordValuesModel,
};

verus! {

/// Whether two records differ in no cell but perhaps one.
pub open spec fn same_cells_but(a: RecordValuesModel, b: RecordValuesModel, x: CellAddrModel) -> bool {
    forall|y: CellAddrModel|
        #![trigger a.cells.dom().contains(y)]
        #![trigger b.cells.dom().contains(y)]
        y != x ==> a.cells.dom().contains(y) == b.cells.dom().contains(y) && (
        a.cells.dom().contains(y) ==> a.cells[y] == b.cells[y])
}

/// The items of a list, none where there is no list.
pub open spec fn listed(v: RecordValuesModel, addr: ItemsAddrModel) -> Seq<Seq<char>> {
    if v.items.dom().contains(addr) {
        v.items[addr]
    } else {
        Seq::empty()
    }
}

/// Whether two records have the same items in every list but perhaps one.
pub open spec fn same_lists_but(
    a: RecordValuesModel,
    b: RecordValuesModel,
    x: ItemsAddrModel,
) -> bool {
    forall|y: ItemsAddrModel| y != x ==> #[trigger] listed(a, y) == #[trigger] listed(b, y)
}

/// A written state stands in its cell and nowhere else; a list without
/// elements cannot be written.
pub proof fn put_writes_one_cell(
    v: RecordValuesModel,
    column: Seq<char>,
    path: Seq<PathSegModel>,
    state: CellStateModel,
)
    ensures
        ({
            let addr = CellAddrModel { column, path };
            let out = value::applied(v, OpModel::Put { column, path, state });
            if state == CellStateModel::Value(CellValueModel::Many(Seq::empty())) {
                out == Err::<RecordValuesModel, _>(ApplyErrorModel::EmptyList(addr))
            } else {
                &&& out matches Ok(w)
                &&& w.cells.dom().contains(addr)
                &&& w.cells[addr] == state
                &&& same_cells_but(v, w, addr)
                &&& w.items == v.items
            }
        }),
{
    if let CellStateModel::Value(CellValueModel::Many(list)) = state {
        if list.len() == 0 {
            assert(list =~= Seq::empty());
        }
    }
}

/// A cleared cell is absent, and no other is.
pub proof fn unset_clears_one_cell(
    v: RecordValuesModel,
    column: Seq<char>,
    path: Seq<PathSegModel>,
)
    ensures
        ({
            let addr = CellAddrModel { column, path };
            &&& value::applied(v, OpModel::Unset { column, path }) matches Ok(w)
            &&& !w.cells.dom().contains(addr)
            &&& same_cells_but(v, w, addr)
            &&& w.items == v.items
        }),
{
}

/// A new item stands at its place in its list, with the others in the
/// order they had. It is refused where the list has it already, or where
/// the place lies behind the list's end.
pub proof fn a_new_item_stands_at_its_place(
    v: RecordValuesModel,
    group: Seq<char>,
    parent: Seq<PathSegModel>,
    item: Seq<char>,
    at: usize,
)
    ensures
        ({
            let addr = ItemsAddrModel { group, parent };
            let had = listed(v, addr);
            let out = value::applied(v, OpModel::AddItem { group, parent, item, at });
            if exists|i: int| 0 <= i < had.len() && #[trigger] had[i] == item {
                out == Err::<RecordValuesModel, _>(ApplyErrorModel::DuplicateItem(addr, item))
            } else if at > had.len() {
                out == Err::<RecordValuesModel, _>(ApplyErrorModel::BadIndex(addr, at))
            } else {
                &&& out matches Ok(w)
                &&& listed(w, addr).len() == had.len() + 1
                &&& listed(w, addr)[at as int] == item
                &&& forall|i: int| 0 <= i < at ==> #[trigger] listed(w, addr)[i] == had[i]
                &&& forall|i: int|
                    at <= i < had.len() ==> listed(w, addr)[i + 1] == #[trigger] had[i]
                &&& same_lists_but(v, w, addr)
                &&& w.cells == v.cells
            }
        }),
{
    let addr = ItemsAddrModel { group, parent };
    let had = listed(v, addr);
    if exists|i: int| 0 <= i < had.len() && #[trigger] had[i] == item {
        assert(had.contains(item));
    }
}

/// A removed item leaves its list, and the others stay in the order they
/// had. What stood at it or below it goes with it, cells and lists, and
/// nothing else does. An item that the list does not have is refused.
pub proof fn a_removed_item_takes_its_own(
    v: RecordValuesModel,
    group: Seq<char>,
    parent: Seq<PathSegModel>,
    item: Seq<char>,
    i: int,
)
    requires
        listed(v, ItemsAddrModel { group, parent }).no_duplicates(),
        0 <= i < listed(v, ItemsAddrModel { group, parent }).len(),
        listed(v, ItemsAddrModel { group, parent })[i] == item,
    ensures
        ({
            let addr = ItemsAddrModel { group, parent };
            let had = listed(v, addr);
            let below = parent.push(PathSegModel { group, item });
            &&& value::applied(v, OpModel::RemoveItem { group, parent, item }) matches Ok(w)
            &&& listed(w, addr).len() == had.len() - 1
            &&& forall|k: int| 0 <= k < i ==> #[trigger] listed(w, addr)[k] == had[k]
            &&& forall|k: int| i < k < had.len() ==> listed(w, addr)[k - 1] == #[trigger] had[k]
            &&& forall|a: CellAddrModel| #[trigger]
                w.cells.dom().contains(a) <==> v.cells.dom().contains(a) && !below.is_prefix_of(
                    a.path,
                )
            &&& forall|a: CellAddrModel| #[trigger]
                w.cells.dom().contains(a) ==> w.cells[a] == v.cells[a]
            &&& forall|a: ItemsAddrModel|
                a != addr ==> #[trigger] listed(w, a) == if below.is_prefix_of(a.parent) {
                    Seq::empty()
                } else {
                    listed(v, a)
                }
        }),
{
    let addr = ItemsAddrModel { group, parent };
    let had = listed(v, addr);
    let below = parent.push(PathSegModel { group, item });
    assert(had.contains(item));
    assert(had.index_of_first(item) == Some(i)) by {
        had.index_of_first_ensures(item);
    }
    assert(!below.is_prefix_of(parent));
    if let Ok(w) = value::applied(v, OpModel::RemoveItem { group, parent, item }) {
        assert(listed(w, addr) =~= had.remove(i));
    }
}

/// An item that its list does not have cannot be removed.
pub proof fn an_unknown_item_is_not_removed(
    v: RecordValuesModel,
    group: Seq<char>,
    parent: Seq<PathSegModel>,
    item: Seq<char>,
)
    requires
        forall|i: int|
            0 <= i < listed(v, ItemsAddrModel { group, parent }).len() ==> #[trigger] listed(
                v,
                ItemsAddrModel { group, parent },
            )[i] != item,
    ensures
        value::applied(v, OpModel::RemoveItem { group, parent, item }) == Err::<RecordValuesModel, _>(
            ApplyErrorModel::UnknownItem(ItemsAddrModel { group, parent }, item),
        ),
{
    let had = listed(v, ItemsAddrModel { group, parent });
    assert forall|i: int| 0 <= i < had.len() implies had[i] != item by {
        assert(listed(v, ItemsAddrModel { group, parent })[i] != item);
    }
    assert(!had.contains(item));
}

/// A list is put into an order that names each of its items once; any
/// other order is refused, and nothing else changes.
pub proof fn a_list_takes_an_order_of_its_own(
    v: RecordValuesModel,
    group: Seq<char>,
    parent: Seq<PathSegModel>,
    order: Seq<Seq<char>>,
)
    requires
        listed(v, ItemsAddrModel { group, parent }).no_duplicates(),
    ensures
        ({
            let addr = ItemsAddrModel { group, parent };
            let had = listed(v, addr);
            let out = value::applied(v, OpModel::Reorder { group, parent, order });
            if order.no_duplicates() && (forall|x: Seq<char>| #[trigger]
                order.contains(x) <==> had.contains(x)) {
                &&& out matches Ok(w)
                &&& listed(w, addr) == order
                &&& same_lists_but(v, w, addr)
                &&& w.cells == v.cells
            } else {
                out == Err::<RecordValuesModel, _>(ApplyErrorModel::BadOrder(addr))
            }
        }),
{
    let addr = ItemsAddrModel { group, parent };
    let had = listed(v, addr);
    if order.no_duplicates() && (forall|x: Seq<char>| #[trigger]
        order.contains(x) <==> had.contains(x)) {
        order.unique_seq_to_set();
        had.unique_seq_to_set();
        assert(order.to_set() =~= had.to_set());
        assert forall|i: int| 0 <= i < had.len() implies order.contains(#[trigger] had[i]) by {
            assert(had.contains(had[i]));
        }
    }
    if value::rearranges(order, had) {
        order.unique_seq_to_set();
        had.unique_seq_to_set();
        vstd::seq_lib::seq_to_set_is_finite(order);
        vstd::seq_lib::seq_to_set_is_finite(had);
        assert forall|x: Seq<char>| had.contains(x) implies #[trigger] order.contains(x) by {
            let i = choose|i: int| 0 <= i < had.len() && had[i] == x;
            assert(order.contains(had[i]));
        }
        assert(had.to_set().subset_of(order.to_set()));
        vstd::set_lib::lemma_subset_equality(had.to_set(), order.to_set());
        assert forall|x: Seq<char>| #[trigger] order.contains(x) implies had.contains(x) by {
            assert(order.to_set().contains(x));
            assert(had.to_set().contains(x));
        }
    }
}

/// An item that was put in and holds nothing is taken out without a
/// trace.
pub proof fn taking_out_undoes_putting_in(
    v: RecordValuesModel,
    group: Seq<char>,
    parent: Seq<PathSegModel>,
    item: Seq<char>,
    at: usize,
)
    requires
        listed(v, ItemsAddrModel { group, parent }).no_duplicates(),
        forall|a: CellAddrModel| #[trigger]
            v.cells.dom().contains(a) ==> !parent.push(PathSegModel { group, item }).is_prefix_of(
                a.path,
            ),
        forall|a: ItemsAddrModel| #[trigger]
            v.items.dom().contains(a) ==> !parent.push(PathSegModel { group, item }).is_prefix_of(
                a.parent,
            ),
    ensures
        value::applied(v, OpModel::AddItem { group, parent, item, at }) matches Ok(w) ==> (value::applied(
            w,
            OpModel::RemoveItem { group, parent, item },
        ) matches Ok(back) && back.cells == v.cells && forall|a: ItemsAddrModel| #[trigger]
            listed(back, a) == listed(v, a)),
{
    let addr = ItemsAddrModel { group, parent };
    let had = listed(v, addr);
    if let Ok(w) = value::applied(v, OpModel::AddItem { group, parent, item, at }) {
        a_new_item_stands_at_its_place(v, group, parent, item, at);
        let now = listed(w, addr);
        assert(now =~= had.insert(at as int, item));
        assert forall|i: int, j: int| 0 <= i < j < now.len() implies now[i] != now[j] by {
            assert(forall|k: int| 0 <= k < had.len() ==> had[k] != item) by {
                assert forall|k: int| 0 <= k < had.len() implies had[k] != item by {
                    if had[k] == item {
                        assert(had.contains(item));
                    }
                }
            }
        }
        assert(now.no_duplicates());
        a_removed_item_takes_its_own(w, group, parent, item, at as int);
        if let Ok(back) = value::applied(w, OpModel::RemoveItem { group, parent, item }) {
            assert(back.cells =~= v.cells);
            assert forall|a: ItemsAddrModel| #[trigger] listed(back, a) == listed(v, a) by {
                if a == addr {
                    assert(listed(back, a) =~= had);
                } else {
                    assert(listed(w, a) == listed(v, a));
                }
            }
        }
    }
}

} // verus!
