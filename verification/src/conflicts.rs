//! Same-cell writes that their later author had not seen. They are
//! detected and reported, never merged.

use vstd::prelude::*;
use crate::log;
use crate::collections::OrderedMap;
use crate::entry::{Entry, EntryModel, EntryOp, EntryOpModel};
use crate::log::{Conflict, ConflictModel, RecordLog};
use crate::order::{Modeled, dup_vec};
use crate::value::{CellAddr, CellAddrModel, Op};

verus! {

/// The cell that an entry's operation writes or clears.
pub open spec fn op_cell(op: EntryOpModel) -> Option<CellAddrModel> {
    match op {
        EntryOpModel::Cell(o) => log::written_cell(o),
        _ => None,
    }
}

/// How often some operations write a cell.
pub open spec fn times_written(ops: Seq<EntryOpModel>, addr: CellAddrModel) -> nat
    decreases ops.len(),
{
    if ops.len() == 0 {
        0
    } else {
        times_written(ops.drop_last(), addr) + if op_cell(ops.last()) == Some(addr) {
            1nat
        } else {
            0nat
        }
    }
}

/// The positions of the entries that wrote a cell, one for each write.
pub open spec fn write_history(entries: Seq<EntryModel>, addr: CellAddrModel) -> Seq<u64>
    decreases entries.len(),
{
    if entries.len() == 0 {
        Seq::empty()
    } else {
        write_history(entries.drop_last(), addr) + Seq::new(
            times_written(entries.last().content.ops, addr),
            |i: int| (entries.len() - 1) as u64,
        )
    }
}

/// The writes by other authors at the end of a history, newest first, up
/// to the first that the later author had seen.
pub open spec fn unseen_writes(
    history: Seq<u64>,
    entries: Seq<EntryModel>,
    later: EntryModel,
    addr: CellAddrModel,
) -> Seq<ConflictModel>
    decreases history.len(),
{
    if history.len() == 0 {
        Seq::empty()
    } else {
        let earlier = entries[history.last() as int].envelope;
        if earlier.seq < later.envelope.base_version {
            Seq::empty()
        } else {
            let here = if earlier.actor.id != later.envelope.actor.id {
                seq![ConflictModel { addr, earlier: earlier.seq, later: later.envelope.seq }]
            } else {
                Seq::empty()
            };
            here + unseen_writes(history.drop_last(), entries, later, addr)
        }
    }
}

/// The conflicts of some operations of an entry with the entries before
/// it.
pub open spec fn ops_conflicts(
    ops: Seq<EntryOpModel>,
    entries: Seq<EntryModel>,
    later: EntryModel,
) -> Seq<ConflictModel>
    decreases ops.len(),
{
    if ops.len() == 0 {
        Seq::empty()
    } else {
        ops_conflicts(ops.drop_last(), entries, later) + match op_cell(ops.last()) {
            Some(addr) => unseen_writes(write_history(entries, addr), entries, later, addr),
            None => Seq::empty(),
        }
    }
}

/// All conflicts, in the order in which they arise.
pub open spec fn all_conflicts(entries: Seq<EntryModel>) -> Seq<ConflictModel>
    decreases entries.len(),
{
    if entries.len() == 0 {
        Seq::empty()
    } else {
        all_conflicts(entries.drop_last()) + ops_conflicts(
            entries.last().content.ops,
            entries.drop_last(),
            entries.last(),
        )
    }
}

/// Whether a conflict stands at or before another by later, then earlier
/// entry.
pub open spec fn not_after(a: ConflictModel, b: ConflictModel) -> bool {
    a.later < b.later || (a.later == b.later && a.earlier <= b.earlier)
}

/// A sorted list with a conflict put behind all that it is not before.
pub open spec fn put_in_order(s: Seq<ConflictModel>, x: ConflictModel) -> Seq<ConflictModel>
    decreases s.len(),
{
    if s.len() == 0 || not_after(s.last(), x) {
        s.push(x)
    } else {
        put_in_order(s.drop_last(), x).push(s.last())
    }
}

/// A stable sort by later, then earlier entry.
pub open spec fn in_log_order(s: Seq<ConflictModel>) -> Seq<ConflictModel>
    decreases s.len(),
{
    if s.len() == 0 {
        s
    } else {
        put_in_order(in_log_order(s.drop_last()), s.last())
    }
}

/// A list without repetitions of a neighbour.
pub open spec fn without_repeats(s: Seq<ConflictModel>) -> Seq<ConflictModel>
    decreases s.len(),
{
    if s.len() <= 1 {
        s
    } else {
        let rest = without_repeats(s.drop_last());
        if s[s.len() - 2] == s.last() {
            rest
        } else {
            rest.push(s.last())
        }
    }
}

/// The conflicts of a log.
pub open spec fn conflicts_of(entries: Seq<EntryModel>) -> Seq<ConflictModel> {
    without_repeats(in_log_order(all_conflicts(entries)))
}

/// The positions recorded of a cell.
spec fn recorded(
    writes: Map<CellAddrModel, Seq<u64>>,
    addr: CellAddrModel,
) -> Seq<u64> {
    if writes.dom().contains(addr) {
        writes[addr]
    } else {
        Seq::empty()
    }
}

fn cell_written(op: &EntryOp) -> (r: Option<CellAddr>)
    ensures
        r.deep_view() == op_cell(op@),
{
    match op {
        EntryOp::Cell(Op::Put { column, path, .. }) => Some(
            CellAddr { column: column.dup(), path: path.dup() },
        ),
        EntryOp::Cell(Op::Unset { column, path }) => Some(
            CellAddr { column: column.dup(), path: path.dup() },
        ),
        _ => None,
    }
}

/// Appends the conflicts of one write with a cell's history.
fn push_unseen(
    history: &Vec<u64>,
    entries: &Vec<Entry>,
    later: &Entry,
    addr: &CellAddr,
    out: &mut Vec<Conflict>,
)
    requires
        forall|i: int| 0 <= i < history@.len() ==> (#[trigger] history@[i]) < entries@.len(),
    ensures
        final(out).deep_view() == old(out).deep_view() + unseen_writes(
            history@,
            entries.deep_view(),
            later@,
            addr@,
        ),
{
    let ghost m = entries.deep_view();
    let ghost start = out.deep_view();
    let ghost all = unseen_writes(history@, m, later@, addr@);
    let mut i: usize = history.len();
    assert(history@.take(i as int) =~= history@);
    assert(start + all =~= out.deep_view() + all);
    while i > 0
        invariant
            i <= history@.len(),
            m == entries.deep_view(),
            start == old(out).deep_view(),
            all == unseen_writes(history@, m, later@, addr@),
            forall|i: int| 0 <= i < history@.len() ==> (#[trigger] history@[i]) < entries@.len(),
            start + all == out.deep_view() + unseen_writes(
                history@.take(i as int),
                m,
                later@,
                addr@,
            ),
        decreases i,
    {
        let ghost h = history@.take(i as int);
        let ghost had = out.deep_view();
        i -= 1;
        let place = history[i];
        let n = entries.len();
        assert(place < n);
        let earlier = &entries[place as usize];
        proof {
            assert(h.last() == place);
            assert(h.drop_last() =~= history@.take(i as int));
            assert(m[place as int] == earlier@);
        }
        if earlier.envelope.seq < later.envelope.base_version {
            assert(out.deep_view() + Seq::<ConflictModel>::empty() =~= out.deep_view());
            return;
        }
        let ghost rest = unseen_writes(history@.take(i as int), m, later@, addr@);
        if !earlier.envelope.actor.id.same(&later.envelope.actor.id) {
            let c = Conflict {
                addr: addr.dup(),
                earlier: earlier.envelope.seq,
                later: later.envelope.seq,
            };
            let ghost x = c@;
            out.push(c);
            assert(out.deep_view() =~= had.push(x));
            assert(had + (seq![x] + rest) =~= had.push(x) + rest);
        } else {
            assert(Seq::<ConflictModel>::empty() + rest =~= rest);
        }
    }
    assert(history@.take(0) =~= Seq::<u64>::empty());
    assert(out.deep_view() + Seq::<ConflictModel>::empty() =~= out.deep_view());
}

proof fn put_in_order_at(s: Seq<ConflictModel>, x: ConflictModel, p: int)
    requires
        0 <= p <= s.len(),
        p > 0 ==> not_after(s[p - 1], x),
        forall|j: int| p <= j < s.len() ==> !not_after(#[trigger] s[j], x),
    ensures
        put_in_order(s, x) == s.take(p).push(x) + s.skip(p),
    decreases s.len(),
{
    if p == s.len() {
        assert(s.take(p) =~= s);
        assert(s.push(x) + s.skip(p) =~= s.push(x));
    } else {
        let t = s.drop_last();
        assert(s.last() == s[s.len() - 1]);
        assert(!not_after(s[s.len() - 1], x));
        put_in_order_at(t, x, p);
        assert(t.take(p) =~= s.take(p));
        assert((t.take(p).push(x) + t.skip(p)).push(s.last()) =~= s.take(p).push(x) + s.skip(p));
    }
}

fn stands_after(a: &Conflict, b: &Conflict) -> (r: bool)
    ensures
        r == !not_after(a@, b@),
{
    a.later > b.later || (a.later == b.later && a.earlier > b.earlier)
}

/// Puts a conflict into a sorted list.
fn put_conflict(v: &mut Vec<Conflict>, c: Conflict)
    ensures
        final(v).deep_view() == put_in_order(old(v).deep_view(), c@),
{
    let ghost s = v.deep_view();
    let ghost x = c@;
    let mut i: usize = v.len();
    while i > 0 && stands_after(&v[i - 1], &c)
        invariant
            i <= v@.len(),
            s == v.deep_view(),
            x == c@,
            forall|j: int| i <= j < s.len() ==> !not_after(#[trigger] s[j], x),
        decreases i,
    {
        i -= 1;
        assert(s[i as int] == v@[i as int]@);
    }
    proof {
        if i > 0 {
            assert(s[i - 1] == v@[i - 1]@);
        }
        put_in_order_at(s, x, i as int);
    }
    v.insert(i, c);
    assert(v.deep_view() =~= s.take(i as int).push(x) + s.skip(i as int));
}

fn sort_conflicts(raw: &Vec<Conflict>) -> (r: Vec<Conflict>)
    ensures
        r.deep_view() == in_log_order(raw.deep_view()),
{
    let ghost m = raw.deep_view();
    let mut r: Vec<Conflict> = Vec::new();
    let mut i: usize = 0;
    assert(m.take(0) =~= Seq::<ConflictModel>::empty());
    assert(r.deep_view() =~= Seq::<ConflictModel>::empty());
    while i < raw.len()
        invariant
            i <= raw@.len(),
            m == raw.deep_view(),
            r.deep_view() == in_log_order(m.take(i as int)),
        decreases raw@.len() - i,
    {
        proof {
            assert(m.take(i + 1).drop_last() =~= m.take(i as int));
            assert(m.take(i + 1).last() == raw@[i as int].deep_view());
        }
        put_conflict(&mut r, raw[i].dup());
        i += 1;
    }
    assert(m.take(m.len() as int) =~= m);
    r
}

fn drop_repeats(s: &Vec<Conflict>) -> (r: Vec<Conflict>)
    ensures
        r.deep_view() == without_repeats(s.deep_view()),
{
    let ghost m = s.deep_view();
    let mut r: Vec<Conflict> = Vec::new();
    let mut i: usize = 0;
    assert(m.take(0) =~= Seq::<ConflictModel>::empty());
    assert(r.deep_view() =~= Seq::<ConflictModel>::empty());
    while i < s.len()
        invariant
            i <= s@.len(),
            m == s.deep_view(),
            r.deep_view() == without_repeats(m.take(i as int)),
        decreases s@.len() - i,
    {
        let ghost had = r.deep_view();
        let ghost t = m.take(i + 1);
        proof {
            assert(t.drop_last() =~= m.take(i as int));
            assert(t.last() == s@[i as int].deep_view());
            if i > 0 {
                assert(t[t.len() - 2] == s@[i - 1].deep_view());
            }
        }
        if i == 0 || !s[i - 1].same(&s[i]) {
            r.push(s[i].dup());
            assert(r.deep_view() =~= had.push(t.last()));
            if i == 0 {
                assert(t =~= had.push(t.last()));
            }
        }
        i += 1;
    }
    assert(m.take(m.len() as int) =~= m);
    r
}

proof fn history_bound(entries: Seq<EntryModel>, addr: CellAddrModel)
    requires
        entries.len() <= u64::MAX,
    ensures
        forall|i: int|
            0 <= i < write_history(entries, addr).len() ==> (#[trigger] write_history(
                entries,
                addr,
            )[i]) < entries.len(),
    decreases entries.len(),
{
    if entries.len() > 0 {
        history_bound(entries.drop_last(), addr);
        let before = write_history(entries.drop_last(), addr);
        assert forall|i: int| 0 <= i < write_history(entries, addr).len() implies (
        #[trigger] write_history(entries, addr)[i]) < entries.len() by {
            if i < before.len() {
                assert(write_history(entries, addr)[i] == before[i]);
            }
        }
    }
}

/// Records an entry's writes behind the histories of their cells.
fn record_writes(writes: &mut OrderedMap<CellAddr, Vec<u64>>, entry: &Entry, place: u64)
    ensures
        forall|addr: CellAddrModel| #[trigger]
            recorded(final(writes)@, addr) == recorded(old(writes)@, addr) + Seq::new(
                times_written(entry@.content.ops, addr),
                |i: int| place,
            ),
{
    let ghost ops = entry@.content.ops;
    let ghost start = writes@;
    let mut k: usize = 0;
    assert(ops.take(0) =~= Seq::<EntryOpModel>::empty());
    assert forall|addr: CellAddrModel| #[trigger]
        recorded(writes@, addr) == recorded(start, addr) + Seq::new(
            times_written(ops.take(0), addr),
            |i: int| place,
        ) by {
        assert(recorded(start, addr) + Seq::new(0, |i: int| place) =~= recorded(start, addr));
    }
    while k < entry.content.ops.len()
        invariant
            k <= entry.content.ops@.len(),
            ops == entry@.content.ops,
            start == old(writes)@,
            forall|addr: CellAddrModel| #[trigger]
                recorded(writes@, addr) == recorded(start, addr) + Seq::new(
                    times_written(ops.take(k as int), addr),
                    |i: int| place,
                ),
        decreases entry.content.ops@.len() - k,
    {
        let ghost before = writes@;
        proof {
            assert(ops.take(k + 1).drop_last() =~= ops.take(k as int));
            assert(ops.take(k + 1).last() == entry.content.ops@[k as int]@);
        }
        if let Some(addr) = cell_written(&entry.content.ops[k]) {
            let mut list = match writes.get(&addr) {
                Some(l) => dup_vec(l),
                None => Vec::new(),
            };
            let ghost had = list.deep_view();
            let ghost a = addr@;
            assert(had =~= recorded(before, a));
            list.push(place);
            assert(list.deep_view() =~= had.push(place));
            writes.insert(addr, list);
            proof {
                assert forall|x: CellAddrModel| #[trigger]
                    recorded(writes@, x) == recorded(start, x) + Seq::new(
                        times_written(ops.take(k + 1), x),
                        |i: int| place,
                    ) by {
                    let n = times_written(ops.take(k as int), x);
                    assert(recorded(before, x) == recorded(start, x) + Seq::new(
                        n,
                        |i: int| place,
                    ));
                    if x == a {
                        assert(Seq::new(n + 1, |i: int| place) =~= Seq::new(
                            n,
                            |i: int| place,
                        ).push(place));
                        assert(recorded(writes@, x) =~= recorded(start, x) + Seq::new(
                            n + 1,
                            |i: int| place,
                        ));
                    }
                }
            }
        }
        k += 1;
    }
    assert(ops.take(ops.len() as int) =~= ops);
}

/// Appends the conflicts of an entry with those before it.
fn push_entry_conflicts(
    writes: &OrderedMap<CellAddr, Vec<u64>>,
    entries: &Vec<Entry>,
    at: usize,
    out: &mut Vec<Conflict>,
)
    requires
        at < entries@.len(),
        forall|addr: CellAddrModel| #[trigger]
            recorded(writes@, addr) == write_history(entries.deep_view().take(at as int), addr),
    ensures
        final(out).deep_view() == old(out).deep_view() + ops_conflicts(
            entries.deep_view()[at as int].content.ops,
            entries.deep_view().take(at as int),
            entries.deep_view()[at as int],
        ),
{
    let later = &entries[at];
    let ghost all = entries.deep_view();
    let ghost prefix = all.take(at as int);
    let ghost ops = later@.content.ops;
    let ghost start = out.deep_view();
    let mut k: usize = 0;
    assert(all[at as int] == later@);
    assert(ops.take(0) =~= Seq::<EntryOpModel>::empty());
    assert(start + Seq::<ConflictModel>::empty() =~= start);
    while k < later.content.ops.len()
        invariant
            k <= later.content.ops@.len(),
            at < entries@.len(),
            all == entries.deep_view(),
            prefix == all.take(at as int),
            later@ == all[at as int],
            ops == later@.content.ops,
            forall|addr: CellAddrModel| #[trigger]
                recorded(writes@, addr) == write_history(prefix, addr),
            out.deep_view() == start + ops_conflicts(ops.take(k as int), prefix, later@),
        decreases later.content.ops@.len() - k,
    {
        let ghost before = ops_conflicts(ops.take(k as int), prefix, later@);
        proof {
            assert(ops.take(k + 1).drop_last() =~= ops.take(k as int));
            assert(ops.take(k + 1).last() == later.content.ops@[k as int]@);
        }
        if let Some(addr) = cell_written(&later.content.ops[k]) {
            let ghost h = write_history(prefix, addr@);
            assert(recorded(writes@, addr@) == h);
            let ghost found = unseen_writes(h, prefix, later@, addr@);
            match writes.get(&addr) {
                Some(history) => {
                    proof {
                        assert(history.deep_view() =~= history@);
                        history_bound(prefix, addr@);
                        same_entries(history@, all, prefix, later@, addr@);
                    }
                    push_unseen(history, entries, later, &addr, out);
                },
                None => {
                    assert(out.deep_view() + found =~= out.deep_view());
                },
            }
            assert((start + before) + found =~= start + (before + found));
        } else {
            assert(before + Seq::<ConflictModel>::empty() =~= before);
        }
        k += 1;
    }
    assert(ops.take(ops.len() as int) =~= ops);
}

/// A history speaks only of the entries that it names.
proof fn same_entries(
    history: Seq<u64>,
    all: Seq<EntryModel>,
    prefix: Seq<EntryModel>,
    later: EntryModel,
    addr: CellAddrModel,
)
    requires
        prefix.len() <= all.len(),
        prefix == all.take(prefix.len() as int),
        forall|i: int| 0 <= i < history.len() ==> (#[trigger] history[i]) < prefix.len(),
    ensures
        unseen_writes(history, all, later, addr) == unseen_writes(history, prefix, later, addr),
    decreases history.len(),
{
    if history.len() > 0 {
        assert(history.last() == history[history.len() - 1]);
        assert forall|i: int| 0 <= i < history.drop_last().len() implies (
        #[trigger] history.drop_last()[i]) < prefix.len() by {
            assert(history.drop_last()[i] == history[i]);
        }
        same_entries(history.drop_last(), all, prefix, later, addr);
    }
}

impl RecordLog {
    /// Same-cell writes that their later author had not seen: an entry
    /// conflicts with an earlier one by another author when both write a
    /// cell and the later author's base is not past the earlier entry.
    pub fn detect_conflicts(&self) -> (r: Vec<Conflict>)
        ensures
            r.deep_view() == conflicts_of(self@.entries),
    {
        let entries = self.entries();
        let ghost m = entries.deep_view();
        let mut writes: OrderedMap<CellAddr, Vec<u64>> = OrderedMap::new();
        let mut raw: Vec<Conflict> = Vec::new();
        let mut i: usize = 0;
        assert(m.take(0) =~= Seq::<EntryModel>::empty());
        assert(raw.deep_view() =~= Seq::<ConflictModel>::empty());
        while i < entries.len()
            invariant
                i <= entries@.len(),
                m == entries.deep_view(),
                forall|addr: CellAddrModel| #[trigger]
                    recorded(writes@, addr) == write_history(m.take(i as int), addr),
                raw.deep_view() == all_conflicts(m.take(i as int)),
            decreases entries@.len() - i,
        {
            proof {
                assert(m.take(i + 1).drop_last() =~= m.take(i as int));
                assert(m.take(i + 1).last() == m[i as int]);
            }
            push_entry_conflicts(&writes, entries, i, &mut raw);
            let ghost before = writes@;
            record_writes(&mut writes, &entries[i], i as u64);
            proof {
                assert(m[i as int] == entries@[i as int]@);
                assert forall|addr: CellAddrModel| #[trigger]
                    recorded(writes@, addr) == write_history(m.take(i + 1), addr) by {
                    assert(recorded(before, addr) == write_history(m.take(i as int), addr));
                    let n = times_written(m[i as int].content.ops, addr);
                    assert(Seq::new(n, |j: int| i as u64) =~= Seq::new(
                        n,
                        |j: int| (m.take(i + 1).len() - 1) as u64,
                    ));
                }
            }
            i += 1;
        }
        assert(m.take(m.len() as int) =~= m);
        let sorted = sort_conflicts(&raw);
        drop_repeats(&sorted)
    }
}

} // verus!
