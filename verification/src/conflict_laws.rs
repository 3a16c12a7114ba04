//! Which conflicts are reported: exactly the writes of one cell by two
//! authors of whom the later had not seen the earlier.

use vstd::prelude::*;
use crate::conflicts;
use crate::entry::{EntryModel, EntryOpModel};
use crate::log::ConflictModel;
use crate::value::{CellAddrModel, OpModel};

verus! {

/// Whether an entry writes or clears a cell.
pub open spec fn writes_cell(e: EntryModel, addr: CellAddrModel) -> bool {
    exists|k: int|
        0 <= k < e.content.ops.len() && conflicts::op_cell(#[trigger] e.content.ops[k]) == Some(addr)
}

/// Whether every entry carries its position.
pub open spec fn are_numbered(entries: Seq<EntryModel>) -> bool {
    entries.len() <= u64::MAX && forall|i: int|
        0 <= i < entries.len() ==> (#[trigger] entries[i]).envelope.seq == i
}

/// Whether two entries conflict on a cell: both write it, by different
/// authors, and the later had not seen the earlier.
pub open spec fn conflict_on(
    entries: Seq<EntryModel>,
    addr: CellAddrModel,
    i: int,
    j: int,
) -> bool {
    &&& 0 <= i < j < entries.len()
    &&& writes_cell(entries[i], addr)
    &&& writes_cell(entries[j], addr)
    &&& entries[i].envelope.actor.id != entries[j].envelope.actor.id
    &&& i >= entries[j].envelope.base_version
}

proof fn written_counts(ops: Seq<EntryOpModel>, addr: CellAddrModel)
    ensures
        conflicts::times_written(ops, addr) > 0 <==> exists|k: int|
            0 <= k < ops.len() && conflicts::op_cell(#[trigger] ops[k]) == Some(addr),
    decreases ops.len(),
{
    if ops.len() > 0 {
        let rest = ops.drop_last();
        written_counts(rest, addr);
        assert(ops[ops.len() - 1] == ops.last());
        if conflicts::times_written(rest, addr) > 0 {
            let k = choose|k: int|
                0 <= k < rest.len() && conflicts::op_cell(#[trigger] rest[k]) == Some(addr);
            assert(ops[k] == rest[k]);
        }
        if exists|k: int| 0 <= k < ops.len() && conflicts::op_cell(#[trigger] ops[k]) == Some(addr) {
            let k = choose|k: int| 0 <= k < ops.len() && conflicts::op_cell(#[trigger] ops[k]) == Some(addr);
            if k < rest.len() {
                assert(rest[k] == ops[k]);
            }
        }
    }
}

proof fn history_is(entries: Seq<EntryModel>, addr: CellAddrModel)
    requires
        entries.len() <= u64::MAX,
    ensures
        forall|k: int|
            0 <= k < conflicts::write_history(entries, addr).len() ==> (#[trigger] conflicts::write_history(
                entries,
                addr,
            )[k]) < entries.len(),
        forall|k: int, l: int|
            0 <= k <= l < conflicts::write_history(entries, addr).len() ==> (#[trigger] conflicts::write_history(
                entries,
                addr,
            )[k]) <= (#[trigger] conflicts::write_history(entries, addr)[l]),
        forall|h: u64| #[trigger]
            conflicts::write_history(entries, addr).contains(h) <==> h < entries.len() && writes_cell(
                entries[h as int],
                addr,
            ),
    decreases entries.len(),
{
    if entries.len() > 0 {
        let rest = entries.drop_last();
        history_is(rest, addr);
        let had = conflicts::write_history(rest, addr);
        let n = (entries.len() - 1) as u64;
        let more = Seq::new(conflicts::times_written(entries.last().content.ops, addr), |i: int| n);
        let all = conflicts::write_history(entries, addr);
        assert(all == had + more);
        written_counts(entries.last().content.ops, addr);
        assert forall|h: u64| #[trigger] all.contains(h) <==> h < entries.len() && writes_cell(
            entries[h as int],
            addr,
        ) by {
            if h < n {
                assert(rest[h as int] == entries[h as int]);
            }
            if all.contains(h) {
                let k = all.index_of(h);
                if k < had.len() {
                    assert(had[k] == h);
                    assert(had.contains(h));
                } else {
                    assert(more[k - had.len()] == h);
                }
            }
            if had.contains(h) {
                assert(all[had.index_of(h)] == h);
            }
            if h == n && writes_cell(entries[h as int], addr) {
                assert(more[0] == n);
                assert(all[had.len() as int] == n);
            }
        }
    }
}

proof fn unseen_are(
    history: Seq<u64>,
    entries: Seq<EntryModel>,
    later: EntryModel,
    addr: CellAddrModel,
    c: ConflictModel,
)
    requires
        are_numbered(entries),
        forall|k: int| 0 <= k < history.len() ==> (#[trigger] history[k]) < entries.len(),
        forall|k: int, l: int|
            0 <= k <= l < history.len() ==> (#[trigger] history[k]) <= (#[trigger] history[l]),
    ensures
        conflicts::unseen_writes(history, entries, later, addr).contains(c) <==> {
            &&& c.addr == addr
            &&& c.later == later.envelope.seq
            &&& history.contains(c.earlier)
            &&& c.earlier >= later.envelope.base_version
            &&& entries[c.earlier as int].envelope.actor.id != later.envelope.actor.id
        },
    decreases history.len(),
{
    if history.len() > 0 {
        let rest = history.drop_last();
        let h = history.last();
        assert(history[history.len() - 1] == h);
        assert forall|k: int| 0 <= k < rest.len() implies (#[trigger] rest[k]) < entries.len() by {
            assert(rest[k] == history[k]);
        }
        assert forall|k: int, l: int| 0 <= k <= l < rest.len() implies (#[trigger] rest[k]) <= (
        #[trigger] rest[l]) by {
            assert(rest[k] == history[k] && rest[l] == history[l]);
        }
        unseen_are(rest, entries, later, addr, c);
        let e = entries[h as int].envelope;
        assert(e.seq == h);
        let all = conflicts::unseen_writes(history, entries, later, addr);
        if h < later.envelope.base_version {
            if history.contains(c.earlier) {
                let k = history.index_of(c.earlier);
                assert(history[k] <= history[history.len() - 1]);
            }
        } else {
            let tail = conflicts::unseen_writes(rest, entries, later, addr);
            let here = if e.actor.id != later.envelope.actor.id {
                seq![ConflictModel { addr, earlier: h, later: later.envelope.seq }]
            } else {
                Seq::empty()
            };
            assert(all == here + tail);
            if tail.contains(c) {
                assert(all[here.len() + tail.index_of(c)] == c);
            }
            if here.contains(c) {
                assert(all[here.index_of(c)] == c);
            }
            if all.contains(c) {
                let k = all.index_of(c);
                if k < here.len() {
                    assert(here[k] == c);
                } else {
                    assert(tail[k - here.len()] == c);
                }
            }
            if rest.contains(c.earlier) {
                assert(history[rest.index_of(c.earlier)] == c.earlier);
            }
            if history.contains(c.earlier) && c.earlier != h {
                assert(rest[history.index_of(c.earlier)] == c.earlier);
            }
            if c.earlier == h && here.len() > 0 && c.addr == addr && c.later
                == later.envelope.seq {
                assert(here[0] == c);
            }
        }
    }
}

proof fn ops_conflicts_are(
    ops: Seq<EntryOpModel>,
    entries: Seq<EntryModel>,
    later: EntryModel,
    c: ConflictModel,
)
    requires
        are_numbered(entries),
    ensures
        conflicts::ops_conflicts(ops, entries, later).contains(c) <==> {
            &&& exists|k: int| 0 <= k < ops.len() && conflicts::op_cell(#[trigger] ops[k]) == Some(c.addr)
            &&& c.later == later.envelope.seq
            &&& c.earlier < entries.len()
            &&& writes_cell(entries[c.earlier as int], c.addr)
            &&& c.earlier >= later.envelope.base_version
            &&& entries[c.earlier as int].envelope.actor.id != later.envelope.actor.id
        },
    decreases ops.len(),
{
    if ops.len() > 0 {
        let rest = ops.drop_last();
        ops_conflicts_are(rest, entries, later, c);
        let all = conflicts::ops_conflicts(ops, entries, later);
        let had = conflicts::ops_conflicts(rest, entries, later);
        let last = ops.last();
        assert(ops[ops.len() - 1] == last);
        let more = match conflicts::op_cell(last) {
            Some(addr) => conflicts::unseen_writes(conflicts::write_history(entries, addr), entries, later, addr),
            None => Seq::empty(),
        };
        assert(all == had + more);
        if let Some(addr) = conflicts::op_cell(last) {
            history_is(entries, addr);
            unseen_are(conflicts::write_history(entries, addr), entries, later, addr, c);
        }
        if had.contains(c) {
            assert(all[had.index_of(c)] == c);
            let k = choose|k: int|
                0 <= k < rest.len() && conflicts::op_cell(#[trigger] rest[k]) == Some(c.addr);
            assert(ops[k] == rest[k]);
        }
        if more.contains(c) {
            assert(all[had.len() + more.index_of(c)] == c);
        }
        if all.contains(c) {
            let k = all.index_of(c);
            if k < had.len() {
                assert(had[k] == c);
            } else {
                assert(more[k - had.len()] == c);
            }
        }
        if exists|k: int| 0 <= k < ops.len() && conflicts::op_cell(#[trigger] ops[k]) == Some(c.addr) {
            let k = choose|k: int|
                0 <= k < ops.len() && conflicts::op_cell(#[trigger] ops[k]) == Some(c.addr);
            if k < rest.len() {
                assert(rest[k] == ops[k]);
            }
        }
    }
}

proof fn conflicts_arise(entries: Seq<EntryModel>, c: ConflictModel)
    requires
        are_numbered(entries),
    ensures
        conflicts::all_conflicts(entries).contains(c) <==> conflict_on(
            entries,
            c.addr,
            c.earlier as int,
            c.later as int,
        ),
    decreases entries.len(),
{
    if entries.len() > 0 {
        let rest = entries.drop_last();
        let n = entries.len() - 1;
        let last = entries[n];
        assert forall|i: int| 0 <= i < rest.len() implies (#[trigger] rest[i]).envelope.seq == i by {
            assert(rest[i] == entries[i]);
        }
        conflicts_arise(rest, c);
        ops_conflicts_are(last.content.ops, rest, last, c);
        let had = conflicts::all_conflicts(rest);
        let more = conflicts::ops_conflicts(last.content.ops, rest, last);
        let all = conflicts::all_conflicts(entries);
        assert(all == had + more);
        assert(last.envelope.seq == n);
        if had.contains(c) {
            assert(all[had.index_of(c)] == c);
        }
        if more.contains(c) {
            assert(all[had.len() + more.index_of(c)] == c);
        }
        if all.contains(c) {
            let k = all.index_of(c);
            if k < had.len() {
                assert(had[k] == c);
            } else {
                assert(more[k - had.len()] == c);
            }
        }
        if c.earlier < rest.len() {
            assert(rest[c.earlier as int] == entries[c.earlier as int]);
        }
        if c.later < rest.len() {
            assert(rest[c.later as int] == entries[c.later as int]);
        }
    }
}

proof fn order_keeps(s: Seq<ConflictModel>, x: ConflictModel, c: ConflictModel)
    ensures
        conflicts::put_in_order(s, x).contains(c) <==> s.contains(c) || c == x,
    decreases s.len(),
{
    let all = conflicts::put_in_order(s, x);
    if s.len() == 0 || conflicts::not_after(s.last(), x) {
        if s.contains(c) {
            assert(all[s.index_of(c)] == c);
        }
        assert(all[s.len() as int] == x);
        if all.contains(c) && c != x {
            assert(s[all.index_of(c)] == c);
        }
    } else {
        let rest = s.drop_last();
        order_keeps(rest, x, c);
        let part = conflicts::put_in_order(rest, x);
        assert(s[s.len() - 1] == s.last());
        if part.contains(c) {
            assert(all[part.index_of(c)] == c);
        }
        assert(all[part.len() as int] == s.last());
        if s.contains(c) && c != s.last() {
            assert(rest[s.index_of(c)] == c);
        }
        if rest.contains(c) {
            assert(s[rest.index_of(c)] == c);
        }
        if all.contains(c) && c != s.last() {
            assert(part[all.index_of(c)] == c);
        }
    }
}

proof fn sorting_keeps(s: Seq<ConflictModel>, c: ConflictModel)
    ensures
        conflicts::in_log_order(s).contains(c) <==> s.contains(c),
    decreases s.len(),
{
    if s.len() > 0 {
        let rest = s.drop_last();
        sorting_keeps(rest, c);
        order_keeps(conflicts::in_log_order(rest), s.last(), c);
        assert(s[s.len() - 1] == s.last());
        if rest.contains(c) {
            assert(s[rest.index_of(c)] == c);
        }
        if s.contains(c) && c != s.last() {
            assert(rest[s.index_of(c)] == c);
        }
    }
}

proof fn dropping_repeats_keeps(s: Seq<ConflictModel>, c: ConflictModel)
    ensures
        conflicts::without_repeats(s).contains(c) <==> s.contains(c),
    decreases s.len(),
{
    if s.len() > 1 {
        let rest = s.drop_last();
        dropping_repeats_keeps(rest, c);
        let all = conflicts::without_repeats(s);
        let had = conflicts::without_repeats(rest);
        assert(s[s.len() - 1] == s.last());
        if rest.contains(c) {
            assert(s[rest.index_of(c)] == c);
        }
        if s.contains(c) && c != s.last() {
            assert(rest[s.index_of(c)] == c);
        }
        if s[s.len() - 2] == s.last() {
            assert(rest[s.len() - 2] == s.last());
            assert(rest.contains(s.last()));
        } else {
            if had.contains(c) {
                assert(all[had.index_of(c)] == c);
            }
            assert(all[had.len() as int] == s.last());
            if all.contains(c) && c != s.last() {
                assert(had[all.index_of(c)] == c);
            }
        }
    }
}

/// A conflict is reported exactly where two entries by different authors
/// write one cell and the later's base is not past the earlier.
pub proof fn conflicts_are_the_unseen_writes(entries: Seq<EntryModel>, c: ConflictModel)
    requires
        are_numbered(entries),
    ensures
        conflicts::conflicts_of(entries).contains(c) <==> conflict_on(
            entries,
            c.addr,
            c.earlier as int,
            c.later as int,
        ),
{
    conflicts_arise(entries, c);
    sorting_keeps(conflicts::all_conflicts(entries), c);
    dropping_repeats_keeps(conflicts::in_log_order(conflicts::all_conflicts(entries)), c);
}

proof fn putting_keeps_order(s: Seq<ConflictModel>, x: ConflictModel)
    requires
        forall|i: int, j: int|
            0 <= i < j < s.len() ==> conflicts::not_after(#[trigger] s[i], #[trigger] s[j]),
    ensures
        forall|i: int, j: int|
            0 <= i < j < conflicts::put_in_order(s, x).len() ==> conflicts::not_after(
                #[trigger] conflicts::put_in_order(s, x)[i],
                #[trigger] conflicts::put_in_order(s, x)[j],
            ),
        conflicts::put_in_order(s, x).len() == s.len() + 1,
    decreases s.len(),
{
    if s.len() > 0 {
        let rest = s.drop_last();
        let out = conflicts::put_in_order(s, x);
        if conflicts::not_after(s.last(), x) {
            assert forall|i: int, j: int| 0 <= i < j < out.len() implies conflicts::not_after(
                #[trigger] out[i],
                #[trigger] out[j],
            ) by {
                if j == s.len() {
                    assert(conflicts::not_after(s[i], s[s.len() - 1]) || i == s.len() - 1);
                }
            }
        } else {
            putting_keeps_order(rest, x);
            let front = conflicts::put_in_order(rest, x);
            assert forall|i: int, j: int| 0 <= i < j < out.len() implies conflicts::not_after(
                #[trigger] out[i],
                #[trigger] out[j],
            ) by {
                assert(out[i] == front[i]);
                if j < front.len() {
                    assert(out[j] == front[j]);
                } else {
                    order_keeps(rest, x, front[i]);
                    assert(front.contains(front[i]));
                    if front[i] != x {
                        let k = rest.index_of(front[i]);
                        assert(rest.contains(front[i]));
                        assert(s[k] == front[i]);
                        assert(conflicts::not_after(s[k], s[s.len() - 1]));
                    }
                }
            }
        }
    }
}

proof fn sorting_orders(s: Seq<ConflictModel>)
    ensures
        forall|i: int, j: int|
            0 <= i < j < conflicts::in_log_order(s).len() ==> conflicts::not_after(
                #[trigger] conflicts::in_log_order(s)[i],
                #[trigger] conflicts::in_log_order(s)[j],
            ),
    decreases s.len(),
{
    if s.len() > 0 {
        sorting_orders(s.drop_last());
        putting_keeps_order(conflicts::in_log_order(s.drop_last()), s.last());
    }
}

proof fn dropping_repeats_orders(s: Seq<ConflictModel>)
    requires
        forall|i: int, j: int|
            0 <= i < j < s.len() ==> conflicts::not_after(#[trigger] s[i], #[trigger] s[j]),
    ensures
        forall|i: int, j: int|
            0 <= i < j < conflicts::without_repeats(s).len() ==> conflicts::not_after(
                #[trigger] conflicts::without_repeats(s)[i],
                #[trigger] conflicts::without_repeats(s)[j],
            ),
        forall|i: int|
            0 < i < conflicts::without_repeats(s).len() ==> #[trigger] conflicts::without_repeats(s)[i]
                != conflicts::without_repeats(s)[i - 1],
        s.len() > 0 ==> conflicts::without_repeats(s).len() > 0 && conflicts::without_repeats(s).last() == s.last(),
    decreases s.len(),
{
    if s.len() > 1 {
        let rest = s.drop_last();
        let had = conflicts::without_repeats(rest);
        let out = conflicts::without_repeats(s);
        dropping_repeats_orders(rest);
        assert(rest.last() == s[s.len() - 2]);
        if s[s.len() - 2] != s.last() {
            assert forall|i: int, j: int| 0 <= i < j < out.len() implies conflicts::not_after(
                #[trigger] out[i],
                #[trigger] out[j],
            ) by {
                assert(out[i] == had[i]);
                if j == had.len() {
                    dropping_repeats_keeps(rest, had[i]);
                    assert(had.contains(had[i]));
                    let k = rest.index_of(had[i]);
                    assert(s[k] == had[i]);
                    assert(conflicts::not_after(s[k], s[s.len() - 1]));
                }
            }
        }
    }
}

/// Conflicts are reported in the order of the log: by the later entry,
/// and among those of one later entry by the earlier; and none is
/// reported twice in a row.
pub proof fn conflicts_are_in_log_order(entries: Seq<EntryModel>, i: int, j: int)
    requires
        0 <= i < j < conflicts::conflicts_of(entries).len(),
    ensures
        ({
            let a = conflicts::conflicts_of(entries)[i];
            let b = conflicts::conflicts_of(entries)[j];
            &&& a.later <= b.later
            &&& a.later == b.later ==> a.earlier <= b.earlier
            &&& j == i + 1 ==> a != b
        }),
{
    let all = conflicts::all_conflicts(entries);
    sorting_orders(all);
    dropping_repeats_orders(conflicts::in_log_order(all));
}

/// The operations that write a cell are those that put a state into it
/// or take its state away, and no others.
pub proof fn puts_and_unsets_write(op: EntryOpModel, addr: CellAddrModel)
    ensures
        conflicts::op_cell(op) == Some(addr) <==> match op {
            EntryOpModel::Cell(OpModel::Put { column, path, state }) => addr == (CellAddrModel {
                column,
                path,
            }),
            EntryOpModel::Cell(OpModel::Unset { column, path }) => addr == (CellAddrModel {
                column,
                path,
            }),
            _ => false,
        },
{
}

} // verus!
