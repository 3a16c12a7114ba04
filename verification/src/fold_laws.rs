//! What a log says of a record: each operation's own effect on the state
//! that the log folds to, and what holds of every such state.

use vstd::prelude::*;
use crate::log;
use crate::entry::{
    ActorKind, DerivationModel, EntryContentModel, EntryModel, EntryOpModel, OriginModel,
};
use crate::ids::PathSegModel;
use crate::log::{FoldErrorModel, FoldResultModel, SuppressedModel};
use crate::value::{
    CellAddrModel, CellStateModel, CellValueModel, ItemsAddrModel, OpModel, ScalarModel,
};

verus! {

proof fn step_keeps_origins(s: FoldResultModel, e: EntryModel, op: OpModel)
    requires
        s.provenance.dom() == s.values.cells.dom(),
    ensures
        log::cell_step(s, e, op) matches Ok(t) ==> t.provenance.dom() == t.values.cells.dom(),
{
    if let Ok(t) = log::cell_step(s, e, op) {
        assert(t.provenance.dom() =~= t.values.cells.dom());
    }
}

proof fn steps_keep_origins(s: FoldResultModel, e: EntryModel, ops: Seq<EntryOpModel>)
    requires
        s.provenance.dom() == s.values.cells.dom(),
    ensures
        log::ops_step(s, e, ops) matches Ok(p) ==> p.0.provenance.dom() == p.0.values.cells.dom(),
    decreases ops.len(),
{
    if ops.len() > 0 {
        steps_keep_origins(s, e, ops.drop_last());
        if let Ok((before, seen)) = log::ops_step(s, e, ops.drop_last()) {
            if let EntryOpModel::Cell(op) = ops.last() {
                step_keeps_origins(before, e, op);
            }
        }
    }
}

/// A cell of a folded record has an origin exactly where it has a state:
/// what is cleared or removed leaves no origin behind.
pub proof fn cells_and_origins_agree(entries: Seq<EntryModel>)
    ensures
        log::folded(entries) matches Ok(s) ==> forall|a: CellAddrModel| #[trigger]
            s.provenance.dom().contains(a) <==> s.values.cells.dom().contains(a),
{
    origins_agree(entries);
}

proof fn origins_agree(entries: Seq<EntryModel>)
    ensures
        log::folded(entries) matches Ok(s) ==> s.provenance.dom() == s.values.cells.dom(),
    decreases entries.len(),
{
    if entries.len() == 0 {
        let s = log::folded(entries)->Ok_0;
        assert(s.provenance.dom() =~= s.values.cells.dom());
    } else {
        origins_agree(entries.drop_last());
        if let Ok(s) = log::folded(entries.drop_last()) {
            steps_keep_origins(s, entries.last(), entries.last().content.ops);
        }
    }
}

/// What an entry with one change to the values makes of the state.
proof fn one_change(entries: Seq<EntryModel>, e: EntryModel, op: OpModel)
    requires
        log::folded(entries) is Ok,
        e.content.ops == seq![EntryOpModel::Cell(op)],
    ensures
        log::folded(entries.push(e)) == log::cell_step(log::folded(entries)->Ok_0, e, op),
{
    let s = log::folded(entries)->Ok_0;
    assert(entries.push(e).drop_last() =~= entries);
    assert(e.content.ops.drop_last() =~= Seq::<EntryOpModel>::empty());
    reveal_with_fuel(log::ops_step, 2);
}

/// Whether an entry is a resolver's derived write.
pub open spec fn is_by_resolver(e: EntryModel) -> bool {
    e.envelope.actor.kind == ActorKind::Resolver && (e.content.origin matches OriginModel::Derived(
        _,
    ))
}

/// Whether a person wrote a cell last.
pub open spec fn is_held(s: FoldResultModel, a: CellAddrModel) -> bool {
    s.provenance.dom().contains(a) && !(s.provenance[a] matches OriginModel::Derived(_))
}

/// The derivation that a cell shows or has superseded.
pub open spec fn has_derivation(s: FoldResultModel, a: CellAddrModel, d: DerivationModel) -> bool {
    s.provenance.dom().contains(a) && (s.provenance[a] == OriginModel::Derived(d)
        || s.provenance[a] == (OriginModel::Overridden { superseded: Some(d) }))
}

/// A write lands: the cell holds what was written, no other cell and no
/// list changes, and nothing is reported as suppressed; unless a resolver
/// writes onto a cell that a person wrote last, and then no value changes
/// at all and the write is reported.
pub proof fn a_write_lands(
    entries: Seq<EntryModel>,
    e: EntryModel,
    column: Seq<char>,
    path: Seq<PathSegModel>,
    state: CellStateModel,
)
    requires
        log::folded(entries) is Ok,
        e.content.ops == seq![EntryOpModel::Cell(OpModel::Put { column, path, state })],
        state != CellStateModel::Value(CellValueModel::Many(Seq::empty())),
    ensures
        ({
            let s = log::folded(entries)->Ok_0;
            let a = CellAddrModel { column, path };
            log::folded(entries.push(e)) matches Ok(t) && (if is_by_resolver(e) && is_held(s, a) {
                &&& t.values == s.values
                &&& t.suppressed == s.suppressed.push(
                    SuppressedModel { seq: e.envelope.seq, addr: a },
                )
            } else {
                &&& t.values.cells.dom().contains(a) && t.values.cells[a] == state
                &&& forall|b: CellAddrModel|
                    b != a ==> #[trigger] t.values.cells.dom().contains(b)
                        == s.values.cells.dom().contains(b)
                &&& forall|b: CellAddrModel|
                    b != a && s.values.cells.dom().contains(b) ==> #[trigger] t.values.cells[b]
                        == s.values.cells[b]
                &&& t.values.items == s.values.items
                &&& t.suppressed == s.suppressed
            }) && t.resolutions == s.resolutions && t.scans == s.scans
        }),
{
    let op = OpModel::Put { column, path, state };
    one_change(entries, e, op);
    if let CellStateModel::Value(CellValueModel::Many(l)) = state {
        if l.len() == 0 {
            assert(l =~= Seq::<ScalarModel>::empty());
        }
    }
}

/// A derived write onto a cell that has no state lands, whoever cleared
/// the cell before: the cell holds it, with its derivation as the origin,
/// and nothing is suppressed.
pub proof fn a_derived_write_onto_nothing_lands(
    entries: Seq<EntryModel>,
    e: EntryModel,
    column: Seq<char>,
    path: Seq<PathSegModel>,
    state: CellStateModel,
    d: DerivationModel,
)
    requires
        log::folded(entries) is Ok,
        e.content.ops == seq![EntryOpModel::Cell(OpModel::Put { column, path, state })],
        e.content.origin == OriginModel::Derived(d),
        state != CellStateModel::Value(CellValueModel::Many(Seq::empty())),
        !log::folded(entries)->Ok_0.values.cells.dom().contains(CellAddrModel { column, path }),
    ensures
        ({
            let a = CellAddrModel { column, path };
            &&& log::folded(entries.push(e)) matches Ok(t)
            &&& t.values.cells.dom().contains(a) && t.values.cells[a] == state
            &&& t.provenance.dom().contains(a) && t.provenance[a] == OriginModel::Derived(d)
            &&& t.suppressed == log::folded(entries)->Ok_0.suppressed
        }),
{
    let a = CellAddrModel { column, path };
    cells_and_origins_agree(entries);
    assert(!log::folded(entries)->Ok_0.provenance.dom().contains(a));
    a_write_lands(entries, e, column, path, state);
    one_change(entries, e, OpModel::Put { column, path, state });
}

/// The origin of a cell after a write. A derived write shows its
/// derivation. A person's write onto a cell with a derivation is an
/// override that keeps it; one that names what it supersedes keeps that;
/// an override stays one; anything else is as entered. No other cell's
/// origin changes. A resolver's write that was held off shows on the cell
/// as superseded, unless the cell had superseded another before.
pub proof fn the_origin_of_a_write(
    entries: Seq<EntryModel>,
    e: EntryModel,
    column: Seq<char>,
    path: Seq<PathSegModel>,
    state: CellStateModel,
)
    requires
        log::folded(entries) is Ok,
        e.content.ops == seq![EntryOpModel::Cell(OpModel::Put { column, path, state })],
        state != CellStateModel::Value(CellValueModel::Many(Seq::empty())),
    ensures
        ({
            let s = log::folded(entries)->Ok_0;
            let a = CellAddrModel { column, path };
            let o = e.content.origin;
            &&& log::folded(entries.push(e)) matches Ok(t)
            &&& t.provenance.dom() == s.provenance.dom().insert(a)
            &&& forall|b: CellAddrModel|
                b != a && s.provenance.dom().contains(b) ==> #[trigger] t.provenance[b]
                    == s.provenance[b]
            &&& is_by_resolver(e) && is_held(s, a) ==> {
                &&& forall|d: DerivationModel| #[trigger]
                    has_derivation(s, a, d) ==> t.provenance[a] == (OriginModel::Overridden {
                        superseded: Some(d),
                    })
                &&& !(exists|x: DerivationModel| has_derivation(s, a, x)) ==> t.provenance[a] == (
                OriginModel::Overridden { superseded: Some(o->Derived_0) })
            }
            &&& !(is_by_resolver(e) && is_held(s, a)) ==> {
                &&& o is Derived ==> t.provenance[a] == o
                &&& (o matches OriginModel::Overridden { superseded: Some(_) }) ==> t.provenance[a]
                    == o
                &&& forall|d: DerivationModel| #[trigger]
                    has_derivation(s, a, d) && (o is Entered || o == (OriginModel::Overridden {
                        superseded: None,
                    })) ==> t.provenance[a] == (OriginModel::Overridden { superseded: Some(d) })
                &&& !(exists|d: DerivationModel| has_derivation(s, a, d)) ==> {
                    &&& o == (OriginModel::Overridden { superseded: None }) ==> t.provenance[a] == o
                    &&& o is Entered ==> t.provenance[a] == if s.provenance.dom().contains(a)
                        && s.provenance[a] is Overridden {
                        OriginModel::Overridden { superseded: None }
                    } else {
                        OriginModel::Entered
                    }
                }
            }
        }),
{
    let s = log::folded(entries)->Ok_0;
    let a = CellAddrModel { column, path };
    one_change(entries, e, OpModel::Put { column, path, state });
    if let CellStateModel::Value(CellValueModel::Many(l)) = state {
        if l.len() == 0 {
            assert(l =~= Seq::<ScalarModel>::empty());
        }
    }
    let t = log::folded(entries.push(e))->Ok_0;
    assert(t.provenance.dom() =~= s.provenance.dom().insert(a));
    if s.provenance.dom().contains(a) {
        match s.provenance[a] {
            OriginModel::Derived(d) => {
                assert(has_derivation(s, a, d));
            },
            OriginModel::Overridden { superseded: Some(d) } => {
                assert(has_derivation(s, a, d));
            },
            _ => {},
        }
    }
}

/// Clearing a cell leaves neither a state nor an origin of it, and nothing
/// else changes; a resolver cannot clear a cell that a person wrote last.
pub proof fn clearing_leaves_nothing(
    entries: Seq<EntryModel>,
    e: EntryModel,
    column: Seq<char>,
    path: Seq<PathSegModel>,
)
    requires
        log::folded(entries) is Ok,
        e.content.ops == seq![EntryOpModel::Cell(OpModel::Unset { column, path })],
    ensures
        ({
            let s = log::folded(entries)->Ok_0;
            let a = CellAddrModel { column, path };
            log::folded(entries.push(e)) matches Ok(t) && (if is_by_resolver(e) && is_held(s, a) {
                &&& t.values == s.values
                &&& t.suppressed == s.suppressed.push(
                    SuppressedModel { seq: e.envelope.seq, addr: a },
                )
            } else {
                &&& !t.values.cells.dom().contains(a) && !t.provenance.dom().contains(a)
                &&& forall|b: CellAddrModel|
                    b != a && s.values.cells.dom().contains(b) ==> #[trigger]
                    t.values.cells.dom().contains(b) && t.values.cells[b] == s.values.cells[b]
                &&& forall|b: CellAddrModel|
                    b != a && s.provenance.dom().contains(b) ==> #[trigger]
                    t.provenance.dom().contains(b) && t.provenance[b] == s.provenance[b]
                &&& forall|b: CellAddrModel| #[trigger]
                    t.values.cells.dom().contains(b) ==> s.values.cells.dom().contains(b)
                &&& t.values.items == s.values.items
                &&& t.suppressed == s.suppressed
            }) && t.resolutions == s.resolutions && t.scans == s.scans
        }),
{
    one_change(entries, e, OpModel::Unset { column, path });
}

/// Whether a path is that of an item or of something within it.
pub open spec fn is_within(
    path: Seq<PathSegModel>,
    parent: Seq<PathSegModel>,
    group: Seq<char>,
    item: Seq<char>,
) -> bool {
    &&& path.len() > parent.len()
    &&& forall|i: int| 0 <= i < parent.len() ==> #[trigger] path[i] == parent[i]
    &&& path[parent.len() as int] == (PathSegModel { group, item })
}

proof fn within_is_a_prefix(
    path: Seq<PathSegModel>,
    parent: Seq<PathSegModel>,
    group: Seq<char>,
    item: Seq<char>,
)
    ensures
        is_within(path, parent, group, item) <==> parent.push(
            PathSegModel { group, item },
        ).is_prefix_of(path),
{
    let p = parent.push(PathSegModel { group, item });
    if is_within(path, parent, group, item) {
        assert(p =~= path.subrange(0, p.len() as int));
    }
    if p.is_prefix_of(path) {
        assert(path[parent.len() as int] == p[parent.len() as int]);
        assert forall|i: int| 0 <= i < parent.len() implies #[trigger] path[i] == parent[i] by {
            assert(path.subrange(0, p.len() as int)[i] == p[i]);
        }
    }
}

/// Removing an item takes away every cell, every origin and every list
/// within it, and nothing else but its own place in its list. What the
/// log does not hold cannot be removed.
pub proof fn removing_an_item_clears_what_it_holds(
    entries: Seq<EntryModel>,
    e: EntryModel,
    group: Seq<char>,
    parent: Seq<PathSegModel>,
    item: Seq<char>,
)
    requires
        log::folded(entries) is Ok,
        e.content.ops == seq![EntryOpModel::Cell(OpModel::RemoveItem { group, parent, item })],
    ensures
        ({
            let s = log::folded(entries)->Ok_0;
            let l = ItemsAddrModel { group, parent };
            let had = s.values.items.dom().contains(l) && s.values.items[l].contains(item);
            &&& log::folded(entries.push(e)) is Ok <==> had
            &&& log::folded(entries.push(e)) matches Ok(t) ==> {
                &&& forall|a: CellAddrModel| #[trigger]
                    t.values.cells.dom().contains(a) <==> s.values.cells.dom().contains(a)
                        && !is_within(a.path, parent, group, item)
                &&& forall|a: CellAddrModel| #[trigger]
                    t.values.cells.dom().contains(a) ==> t.values.cells[a] == s.values.cells[a]
                &&& forall|a: CellAddrModel| #[trigger]
                    t.provenance.dom().contains(a) <==> s.provenance.dom().contains(a)
                        && !is_within(a.path, parent, group, item)
                &&& forall|a: CellAddrModel| #[trigger]
                    t.provenance.dom().contains(a) ==> t.provenance[a] == s.provenance[a]
                &&& forall|m: ItemsAddrModel|
                    m != l ==> (#[trigger] t.values.items.dom().contains(m)
                        <==> s.values.items.dom().contains(m) && !is_within(
                        m.parent,
                        parent,
                        group,
                        item,
                    ))
                &&& forall|m: ItemsAddrModel| #[trigger]
                    t.values.items.dom().contains(m) && m != l ==> t.values.items[m]
                        == s.values.items[m]
                &&& t.suppressed == s.suppressed
                &&& t.resolutions == s.resolutions
                &&& t.scans == s.scans
            }
        }),
{
    let op = OpModel::RemoveItem { group, parent, item };
    one_change(entries, e, op);
    assert forall|p: Seq<PathSegModel>| #[trigger] is_within(p, parent, group, item)
        <==> parent.push(PathSegModel { group, item }).is_prefix_of(p) by {
        within_is_a_prefix(p, parent, group, item);
    }
}

/// Adding an item and reordering change one list and no cell, and no
/// origin.
pub proof fn lists_change_no_cell(
    entries: Seq<EntryModel>,
    e: EntryModel,
    op: OpModel,
)
    requires
        log::folded(entries) is Ok,
        e.content.ops == seq![EntryOpModel::Cell(op)],
        op is AddItem || op is Reorder,
    ensures
        ({
            let s = log::folded(entries)->Ok_0;
            log::folded(entries.push(e)) matches Ok(t) ==> {
                &&& t.values.cells == s.values.cells
                &&& t.provenance == s.provenance
                &&& t.suppressed == s.suppressed
                &&& t.resolutions == s.resolutions
                &&& t.scans == s.scans
            }
        }),
{
    one_change(entries, e, op);
}

/// Steps of a resolution, of a scan, and checkpoints change no value and
/// no origin: a resolution changes resolutions only, a scan changes scans
/// only, a checkpoint changes nothing.
pub proof fn lifecycles_change_no_value(entries: Seq<EntryModel>, e: EntryModel, op: EntryOpModel)
    requires
        log::folded(entries) is Ok,
        e.content.ops == seq![op],
        !(op is Cell),
    ensures
        ({
            let s = log::folded(entries)->Ok_0;
            log::folded(entries.push(e)) matches Ok(t) ==> {
                &&& t.values == s.values
                &&& t.provenance == s.provenance
                &&& t.suppressed == s.suppressed
                &&& !(op is Resolution) ==> t.resolutions == s.resolutions
                &&& !(op is Scan) ==> t.scans == s.scans
            }
        }),
{
    assert(entries.push(e).drop_last() =~= entries);
    assert(e.content.ops.drop_last() =~= Seq::<EntryOpModel>::empty());
    reveal_with_fuel(log::ops_step, 2);
}

/// An entry with some of its operations.
pub open spec fn with_ops(e: EntryModel, ops: Seq<EntryOpModel>) -> EntryModel {
    EntryModel { content: EntryContentModel { ops, ..e.content }, ..e }
}

proof fn steps_ignore_the_list(
    s: FoldResultModel,
    e: EntryModel,
    other: Seq<EntryOpModel>,
    ops: Seq<EntryOpModel>,
)
    ensures
        log::ops_step(s, with_ops(e, other), ops) == log::ops_step(s, e, ops),
    decreases ops.len(),
{
    if ops.len() > 0 {
        steps_ignore_the_list(s, e, other, ops.drop_last());
        let w = with_ops(e, other);
        if let Ok((before, seen)) = log::ops_step(s, e, ops.drop_last()) {
            if let EntryOpModel::Cell(op) = ops.last() {
                if let Some(addr) = log::written_cell(op) {
                    assert(log::suppress(before, w, addr) == log::suppress(before, e, addr));
                }
                assert(log::cell_step(before, w, op) == log::cell_step(before, e, op));
            }
            assert(log::op_step(before, seen, w, ops.last()) == log::op_step(before, seen, e, ops.last()));
        }
    }
}

proof fn steps_compose(
    s: FoldResultModel,
    e: EntryModel,
    a: Seq<EntryOpModel>,
    b: Seq<EntryOpModel>,
)
    requires
        forall|i: int| 0 <= i < b.len() ==> !(#[trigger] b[i] is Checkpoint),
    ensures
        log::ops_step(s, e, a + b) == (match log::ops_step(s, e, a) {
            Ok((mid, seen)) => match log::ops_step(mid, e, b) {
                Ok((t, _)) => Ok((t, seen)),
                Err(x) => Err(x),
            },
            Err(x) => Err::<(FoldResultModel, bool), FoldErrorModel>(x),
        }),
    decreases b.len(),
{
    if b.len() == 0 {
        assert(a + b =~= a);
    } else {
        let rest = b.drop_last();
        assert forall|i: int| 0 <= i < rest.len() implies !(#[trigger] rest[i] is Checkpoint) by {
            assert(rest[i] == b[i]);
        }
        steps_compose(s, e, a, rest);
        assert((a + b).drop_last() =~= a + rest);
        assert((a + b).last() == b.last());
        assert(!(b[b.len() - 1] is Checkpoint));
    }
}

/// An entry does what its operations do one after the other: one entry
/// with all of them folds as two entries with the same envelope do that
/// share them, as long as the second holds no checkpoint.
pub proof fn operations_fold_in_order(
    entries: Seq<EntryModel>,
    e: EntryModel,
    a: Seq<EntryOpModel>,
    b: Seq<EntryOpModel>,
)
    requires
        forall|i: int| 0 <= i < b.len() ==> !(#[trigger] b[i] is Checkpoint),
    ensures
        log::folded(entries.push(with_ops(e, a + b))) == log::folded(
            entries.push(with_ops(e, a)).push(with_ops(e, b)),
        ),
{
    let one = entries.push(with_ops(e, a + b));
    let first = entries.push(with_ops(e, a));
    let both = first.push(with_ops(e, b));
    assert(one.drop_last() =~= entries);
    assert(first.drop_last() =~= entries);
    assert(both.drop_last() =~= first);
    assert(one.last() == with_ops(e, a + b));
    assert(first.last() == with_ops(e, a));
    assert(both.last() == with_ops(e, b));
    assert(log::folded(both) == match log::folded(first) {
        Ok(mid) => log::entry_step(mid, with_ops(e, b)),
        Err(x) => Err(x),
    });
    if let Ok(s) = log::folded(entries) {
        steps_ignore_the_list(s, e, a + b, a + b);
        steps_ignore_the_list(s, e, a, a);
        steps_compose(s, e, a, b);
        if let Ok((mid, _)) = log::ops_step(s, e, a) {
            steps_ignore_the_list(mid, e, b, b);
        }
    }
}

/// A log folds as far as it folds: where one entry does not, no longer
/// log does, and an entry without operations changes nothing.
pub proof fn folding_goes_on_or_stops(entries: Seq<EntryModel>, e: EntryModel)
    ensures
        log::folded(entries) is Err ==> log::folded(entries.push(e)) == log::folded(entries),
        e.content.ops.len() == 0 ==> log::folded(entries.push(e)) == log::folded(entries),
{
    assert(entries.push(e).drop_last() =~= entries);
}

/// An empty log folds to nothing: no cell, no list, no origin, nothing
/// pending, nothing scanned, nothing suppressed.
pub proof fn an_empty_log_says_nothing()
    ensures
        log::folded(Seq::empty()) matches Ok(s) && s.values.cells.dom() == Set::<CellAddrModel>::empty()
            && s.values.items.dom() == Set::<ItemsAddrModel>::empty() && s.provenance.dom() == Set::<
            CellAddrModel,
        >::empty() && s.resolutions.dom().is_empty() && s.scans.dom().is_empty()
            && s.suppressed.len() == 0,
{
    let s = log::folded(Seq::empty())->Ok_0;
    assert(s.values.cells.dom() =~= Set::<CellAddrModel>::empty());
    assert(s.values.items.dom() =~= Set::<ItemsAddrModel>::empty());
    assert(s.provenance.dom() =~= Set::<CellAddrModel>::empty());
    assert(s.resolutions.dom() =~= Set::empty());
    assert(s.scans.dom() =~= Set::empty());
}

} // verus!
