//! What an assessment counts: its numbers are those of the records' own
//! projections.

use vstd::prelude::*;
use crate::assess;
use crate::collections;
use crate::counting;
use crate::projection;
use crate::assess::{ImpactReportModel, RecordUnderAssessmentModel};
use crate::ids::{ColumnId, GroupId, ResolverId};
use crate::impact::{ChangeClass, ColumnImpactModel, ResolverChangeModel, RuleRefModel};
use crate::order::Key;
use crate::projection::{ColumnReport, ProjectionReportModel};
use crate::schema::{OptionRowModel, SchemaModel};
use crate::value::{CellAddr, CellAddrModel};

verus! {

/// What a record's projection into the new revision reports.
pub open spec fn report_on(
    r: RecordUnderAssessmentModel,
    from: SchemaModel,
    to: SchemaModel,
    noms: Map<(Seq<char>, u32), Seq<OptionRowModel>>,
) -> ProjectionReportModel {
    projection::projection(r.values, from, to, noms)->Ok_0.report
}

/// Whether each record's maps are finite, as those of every record are.
pub open spec fn all_are_finite(records: Seq<RecordUnderAssessmentModel>) -> bool {
    forall|i: int| 0 <= i < records.len() ==> (#[trigger] records[i]).values.cells.dom().finite()
        && records[i].pending.finite()
}

/// The failed cells of one column in a report.
pub open spec fn failed_in(report: ProjectionReportModel, column: Seq<char>) -> nat {
    if report.columns.dom().contains(column) {
        report.columns[column].cells_failed as nat
    } else {
        0
    }
}

proof fn sums_are_sums(keys: Seq<Seq<char>>, columns: Map<Seq<char>, ColumnReport>)
    ensures
        projection::lossy_sum(keys, columns) == counting::sum_along(keys, |c: Seq<char>| columns[c].cells_lossy as nat),
        projection::failed_sum(keys, columns) == counting::sum_along(keys, |c: Seq<char>| columns[c].cells_failed as nat),
    decreases keys.len(),
{
    if keys.len() > 0 {
        sums_are_sums(keys.drop_last(), columns);
    }
}

proof fn key_order_lists<K: Key>(dom: Set<K::V>)
    requires
        dom.finite(),
    ensures
        collections::key_order::<K>(dom).no_duplicates(),
        collections::key_order::<K>(dom).to_set() == dom,
{
    collections::finite_is_listed::<K>(dom);
    let keys = collections::key_order::<K>(dom);
    collections::in_order_is_distinct::<K>(keys);
    assert forall|k: K::V| #[trigger] keys.to_set().contains(k) <==> dom.contains(k) by {
        assert(keys.contains(k) <==> dom.contains(k));
    }
    assert(keys.to_set() =~= dom);
}

/// A report's totals are the sums of its columns' counts, each column
/// counted once.
pub proof fn totals_are_sums(report: ProjectionReportModel)
    requires
        report.columns.dom().finite(),
    ensures
        report.total_lossy() == counting::sum_over(
            report.columns.dom(),
            |c: Seq<char>| report.columns[c].cells_lossy as nat,
        ),
        report.total_failed() == counting::sum_over(
            report.columns.dom(),
            |c: Seq<char>| report.columns[c].cells_failed as nat,
        ),
{
    let keys = collections::key_order::<ColumnId>(report.columns.dom());
    key_order_lists::<ColumnId>(report.columns.dom());
    sums_are_sums(keys, report.columns);
    counting::sum_of_listing(keys, |c: Seq<char>| report.columns[c].cells_lossy as nat);
    counting::sum_of_listing(keys, |c: Seq<char>| report.columns[c].cells_failed as nat);
}

proof fn cells_add_up(
    records: Seq<RecordUnderAssessmentModel>,
    from: SchemaModel,
    to: SchemaModel,
    noms: Map<(Seq<char>, u32), Seq<OptionRowModel>>,
    uncastable: Set<Seq<char>>,
    removed: Set<(Seq<char>, Seq<char>)>,
)
    requires
        records.len() <= u64::MAX,
        counting::sum_along(
            records,
            |r: RecordUnderAssessmentModel| report_on(r, from, to, noms).total_lossy(),
        ) <= u64::MAX,
        counting::sum_along(
            records,
            |r: RecordUnderAssessmentModel| report_on(r, from, to, noms).total_failed(),
        ) <= u64::MAX,
    ensures
        assess::assessment(records, from, to, noms, uncastable, removed) matches Ok(a) ==> {
            &&& a.records == records.len()
            &&& a.cells_lossy == counting::sum_along(
                records,
                |r: RecordUnderAssessmentModel| report_on(r, from, to, noms).total_lossy(),
            )
            &&& a.cells_failed == counting::sum_along(
                records,
                |r: RecordUnderAssessmentModel| report_on(r, from, to, noms).total_failed(),
            )
            &&& a.records_with_loss == counting::count_along(
                records,
                |r: RecordUnderAssessmentModel| report_on(r, from, to, noms).total_lossy() > 0,
            )
            &&& a.records_with_failures == counting::count_along(
                records,
                |r: RecordUnderAssessmentModel| report_on(r, from, to, noms).total_failed() > 0,
            )
            &&& a.records_with_loss <= records.len()
            &&& a.records_with_failures <= records.len()
        },
    decreases records.len(),
{
    if records.len() > 0 {
        cells_add_up(records.drop_last(), from, to, noms, uncastable, removed);
    }
}

/// An assessment counts its records one by one. Its lossy cells are those
/// that the records' projections report, added up, and so are its failed
/// cells; its records with loss are those whose projection loses
/// something, and its records with failures those where something fails.
pub proof fn assessments_add_up(
    from: SchemaModel,
    to: SchemaModel,
    noms: Map<(Seq<char>, u32), Seq<OptionRowModel>>,
    rules: Seq<RuleRefModel>,
    records: Seq<RecordUnderAssessmentModel>,
)
    requires
        records.len() <= u64::MAX,
        counting::sum_along(
            records,
            |r: RecordUnderAssessmentModel| report_on(r, from, to, noms).total_lossy(),
        ) <= u64::MAX,
        counting::sum_along(
            records,
            |r: RecordUnderAssessmentModel| report_on(r, from, to, noms).total_failed(),
        ) <= u64::MAX,
    ensures
        assess::assessed(from, to, noms, rules, records) matches Ok(report) ==> {
            &&& report.records matches Some(a)
            &&& a.records == records.len()
            &&& a.cells_lossy == counting::sum_along(
                records,
                |r: RecordUnderAssessmentModel| report_on(r, from, to, noms).total_lossy(),
            )
            &&& a.cells_failed == counting::sum_along(
                records,
                |r: RecordUnderAssessmentModel| report_on(r, from, to, noms).total_failed(),
            )
            &&& a.records_with_loss == counting::count_along(
                records,
                |r: RecordUnderAssessmentModel| report_on(r, from, to, noms).total_lossy() > 0,
            )
            &&& a.records_with_failures == counting::count_along(
                records,
                |r: RecordUnderAssessmentModel| report_on(r, from, to, noms).total_failed() > 0,
            )
        },
{
    if let Ok(report) = assess::classified_with_rules(from, to, noms, rules) {
        cells_add_up(
            records,
            from,
            to,
            noms,
            assess::uncastable_columns(report.columns),
            assess::removed_resolvers(report.resolvers),
        );
    }
}

proof fn failures_are_tallied(
    m: Map<Seq<char>, u64>,
    keys: Seq<Seq<char>>,
    columns: Map<Seq<char>, ColumnReport>,
    c: Seq<char>,
)
    requires
        keys.no_duplicates(),
        assess::tallied(m, c) + (if keys.contains(c) {
            columns[c].cells_failed as int
        } else {
            0
        }) <= u64::MAX,
    ensures
        assess::tallied(assess::tally_failed(m, keys, columns), c) == assess::tallied(m, c) + (if keys.contains(c) {
            columns[c].cells_failed as int
        } else {
            0
        }),
        assess::tally_failed(m, keys, columns).dom().contains(c) <==> m.dom().contains(c) || (
        keys.contains(c) && columns[c].cells_failed > 0),
    decreases keys.len(),
{
    if keys.len() > 0 {
        let rest = keys.drop_last();
        assert(keys[keys.len() - 1] == keys.last());
        assert(rest.contains(c) ==> keys.contains(c)) by {
            if rest.contains(c) {
                let i = choose|i: int| 0 <= i < rest.len() && rest[i] == c;
                assert(keys[i] == c);
            }
        }
        assert(keys.contains(c) ==> rest.contains(c) || c == keys.last()) by {
            if keys.contains(c) {
                let i = choose|i: int| 0 <= i < keys.len() && keys[i] == c;
                if i < rest.len() {
                    assert(rest[i] == c);
                }
            }
        }
        assert(c == keys.last() ==> !rest.contains(c)) by {
            if rest.contains(c) {
                let i = choose|i: int| 0 <= i < rest.len() && rest[i] == c;
                assert(keys[i] == c);
                assert(keys[i] != keys[keys.len() - 1]);
            }
        }
        failures_are_tallied(m, rest, columns, c);
    }
}

proof fn cells_are_tallied(
    m: Map<Seq<char>, u64>,
    keys: Seq<CellAddrModel>,
    columns: Set<Seq<char>>,
    c: Seq<char>,
)
    requires
        assess::tallied(m, c) + counting::count_along(keys, |a: CellAddrModel| a.column == c) <= u64::MAX,
    ensures
        assess::tallied(assess::tally_cells(m, keys, columns), c) == assess::tallied(m, c) + (if columns.contains(c) {
            counting::count_along(keys, |a: CellAddrModel| a.column == c) as int
        } else {
            0
        }),
        assess::tally_cells(m, keys, columns).dom().contains(c) <==> m.dom().contains(c) || (
        columns.contains(c) && counting::count_along(keys, |a: CellAddrModel| a.column == c) > 0),
    decreases keys.len(),
{
    if keys.len() > 0 {
        cells_are_tallied(m, keys.drop_last(), columns, c);
    }
}

proof fn resolvers_are_tallied(
    m: Map<(Seq<char>, Seq<char>), u64>,
    keys: Seq<(Seq<char>, Seq<char>)>,
    removed: Set<(Seq<char>, Seq<char>)>,
    k: (Seq<char>, Seq<char>),
)
    requires
        keys.no_duplicates(),
        assess::tallied(m, k) < u64::MAX,
    ensures
        assess::tallied(assess::tally_each(m, keys, removed), k) == assess::tallied(m, k) + (if keys.contains(k)
            && removed.contains(k) {
            1int
        } else {
            0
        }),
        assess::tally_each(m, keys, removed).dom().contains(k) <==> m.dom().contains(k) || (keys.contains(k)
            && removed.contains(k)),
    decreases keys.len(),
{
    if keys.len() > 0 {
        let rest = keys.drop_last();
        assert(keys[keys.len() - 1] == keys.last());
        assert(rest.contains(k) ==> keys.contains(k)) by {
            if rest.contains(k) {
                let i = choose|i: int| 0 <= i < rest.len() && rest[i] == k;
                assert(keys[i] == k);
            }
        }
        assert(keys.contains(k) ==> rest.contains(k) || k == keys.last()) by {
            if keys.contains(k) {
                let i = choose|i: int| 0 <= i < keys.len() && keys[i] == k;
                if i < rest.len() {
                    assert(rest[i] == k);
                }
            }
        }
        assert(k == keys.last() ==> !rest.contains(k)) by {
            if rest.contains(k) {
                let i = choose|i: int| 0 <= i < rest.len() && rest[i] == k;
                assert(keys[i] == k);
                assert(keys[i] != keys[keys.len() - 1]);
            }
        }
        resolvers_are_tallied(m, rest, removed, k);
    }
}

/// How many cells of a column a record has.
pub open spec fn cells_of(r: RecordUnderAssessmentModel, column: Seq<char>) -> nat {
    r.values.cells.dom().filter(|a: CellAddrModel| a.column == column).len()
}

proof fn column_adds_up(
    records: Seq<RecordUnderAssessmentModel>,
    from: SchemaModel,
    to: SchemaModel,
    noms: Map<(Seq<char>, u32), Seq<OptionRowModel>>,
    uncastable: Set<Seq<char>>,
    removed: Set<(Seq<char>, Seq<char>)>,
    c: Seq<char>,
)
    requires
        all_are_finite(records),
        forall|i: int|
            0 <= i < records.len() ==> report_on(
                #[trigger] records[i],
                from,
                to,
                noms,
            ).columns.dom().finite(),
        counting::sum_along(
            records,
            |r: RecordUnderAssessmentModel| failed_in(report_on(r, from, to, noms), c),
        ) <= u64::MAX,
        counting::sum_along(records, |r: RecordUnderAssessmentModel| cells_of(r, c)) <= u64::MAX,
    ensures
        assess::assessment(records, from, to, noms, uncastable, removed) matches Ok(a) ==> {
            &&& assess::tallied(a.failed_by_column, c) == counting::sum_along(
                records,
                |r: RecordUnderAssessmentModel| failed_in(report_on(r, from, to, noms), c),
            )
            &&& a.failed_by_column.dom().contains(c) <==> assess::tallied(a.failed_by_column, c) > 0
            &&& assess::tallied(a.uncastable_by_column, c) == (if uncastable.contains(c) {
                counting::sum_along(records, |r: RecordUnderAssessmentModel| cells_of(r, c))
            } else {
                0
            })
            &&& a.uncastable_by_column.dom().contains(c) <==> assess::tallied(a.uncastable_by_column, c) > 0
        },
    decreases records.len(),
{
    if records.len() > 0 {
        let rest = records.drop_last();
        assert forall|i: int| 0 <= i < rest.len() implies (
        #[trigger] rest[i]).values.cells.dom().finite() && rest[i].pending.finite() && report_on(
            rest[i],
            from,
            to,
            noms,
        ).columns.dom().finite() by {
            assert(rest[i] == records[i]);
        }
        column_adds_up(rest, from, to, noms, uncastable, removed, c);
        let r = records.last();
        assert(r == records[records.len() - 1]);
        if let Ok(before) = assess::assessment(rest, from, to, noms, uncastable, removed) {
            if let Ok(p) = projection::projection(r.values, from, to, noms) {
                assert(report_on(r, from, to, noms) == p.report);
                let keys = collections::key_order::<ColumnId>(p.report.columns.dom());
                key_order_lists::<ColumnId>(p.report.columns.dom());
                assert(keys.contains(c) <==> p.report.columns.dom().contains(c)) by {
                    assert(keys.contains(c) <==> keys.to_set().contains(c));
                }
                failures_are_tallied(before.failed_by_column, keys, p.report.columns, c);
                let cells = collections::key_order::<CellAddr>(r.values.cells.dom());
                key_order_lists::<CellAddr>(r.values.cells.dom());
                counting::count_of_listing(cells, |a: CellAddrModel| a.column == c);
                cells_are_tallied(before.uncastable_by_column, cells, uncastable, c);
            }
        }
    }
}

/// Whether a report says of a column that its cells have nowhere to go.
pub open spec fn goes_nowhere(report: ImpactReportModel, column: Seq<char>) -> bool {
    report.columns.dom().contains(column) && (report.columns[column].change is Forbidden
        || report.columns[column].change is ScopeMoved)
}

/// Per column, an assessment counts the cells that fail in the records'
/// projections, and the cells that the records have in a column whose
/// cells have nowhere to go. A column without such cells is not listed.
pub proof fn columns_add_up(
    from: SchemaModel,
    to: SchemaModel,
    noms: Map<(Seq<char>, u32), Seq<OptionRowModel>>,
    rules: Seq<RuleRefModel>,
    records: Seq<RecordUnderAssessmentModel>,
    c: Seq<char>,
)
    requires
        all_are_finite(records),
        forall|i: int|
            0 <= i < records.len() ==> report_on(
                #[trigger] records[i],
                from,
                to,
                noms,
            ).columns.dom().finite(),
        counting::sum_along(
            records,
            |r: RecordUnderAssessmentModel| failed_in(report_on(r, from, to, noms), c),
        ) <= u64::MAX,
        counting::sum_along(records, |r: RecordUnderAssessmentModel| cells_of(r, c)) <= u64::MAX,
    ensures
        assess::assessed(from, to, noms, rules, records) matches Ok(report) ==> {
            let failed = counting::sum_along(
                records,
                |r: RecordUnderAssessmentModel| failed_in(report_on(r, from, to, noms), c),
            );
            let held = counting::sum_along(records, |r: RecordUnderAssessmentModel| cells_of(r, c));
            &&& report.records matches Some(a)
            &&& a.failed_by_column.dom().contains(c) <==> failed > 0
            &&& failed > 0 ==> a.failed_by_column[c] == failed
            &&& a.uncastable_by_column.dom().contains(c) <==> goes_nowhere(report, c) && held > 0
            &&& goes_nowhere(report, c) && held > 0 ==> a.uncastable_by_column[c] == held
        },
{
    if let Ok(report) = assess::classified_with_rules(from, to, noms, rules) {
        column_adds_up(
            records,
            from,
            to,
            noms,
            assess::uncastable_columns(report.columns),
            assess::removed_resolvers(report.resolvers),
            c,
        );
    }
}

/// Whether a report says that a resolver is removed.
pub open spec fn takes_away(report: ImpactReportModel, k: (Seq<char>, Seq<char>)) -> bool {
    exists|i: int|
        0 <= i < report.resolvers.len() && (#[trigger] report.resolvers[i]) is Removed
            && report.resolvers[i]->Removed_anchor == k.0 && report.resolvers[i]->Removed_id == k.1
}

proof fn removed_are_named(s: Seq<ResolverChangeModel>, k: (Seq<char>, Seq<char>))
    ensures
        assess::removed_resolvers(s).contains(k) <==> exists|i: int|
            0 <= i < s.len() && (#[trigger] s[i]) is Removed && s[i]->Removed_anchor == k.0
                && s[i]->Removed_id == k.1,
    decreases s.len(),
{
    if s.len() > 0 {
        let rest = s.drop_last();
        removed_are_named(rest, k);
        assert(s[s.len() - 1] == s.last());
        if assess::removed_resolvers(rest).contains(k) {
            let i = choose|i: int|
                0 <= i < rest.len() && (#[trigger] rest[i]) is Removed && rest[i]->Removed_anchor
                    == k.0 && rest[i]->Removed_id == k.1;
            assert(s[i] == rest[i]);
        }
        assert forall|i: int|
            0 <= i < s.len() && (#[trigger] s[i]) is Removed && s[i]->Removed_anchor == k.0
                && s[i]->Removed_id == k.1 implies assess::removed_resolvers(s).contains(k) by {
            if i < rest.len() {
                assert(rest[i] == s[i]);
            }
        }
    }
}

proof fn resolvers_add_up(
    records: Seq<RecordUnderAssessmentModel>,
    from: SchemaModel,
    to: SchemaModel,
    noms: Map<(Seq<char>, u32), Seq<OptionRowModel>>,
    uncastable: Set<Seq<char>>,
    removed: Set<(Seq<char>, Seq<char>)>,
    k: (Seq<char>, Seq<char>),
)
    requires
        all_are_finite(records),
        records.len() <= u64::MAX,
    ensures
        assess::assessment(records, from, to, noms, uncastable, removed) matches Ok(a) ==> {
            let waiting = if removed.contains(k) {
                counting::count_along(records, |r: RecordUnderAssessmentModel| r.pending.contains(k))
            } else {
                0
            };
            &&& assess::tallied(a.pending_on_removed_resolvers, k) == waiting
            &&& a.pending_on_removed_resolvers.dom().contains(k) <==> waiting > 0
            &&& waiting <= records.len()
            &&& a.records_with_uncastable == counting::count_along(
                records,
                |r: RecordUnderAssessmentModel|
                    exists|addr: CellAddrModel| #[trigger]
                        r.values.cells.dom().contains(addr) && uncastable.contains(addr.column),
            )
            &&& a.records_with_uncastable <= records.len()
        },
    decreases records.len(),
{
    if records.len() > 0 {
        let rest = records.drop_last();
        assert forall|i: int| 0 <= i < rest.len() implies (
        #[trigger] rest[i]).values.cells.dom().finite() && rest[i].pending.finite() by {
            assert(rest[i] == records[i]);
        }
        resolvers_add_up(rest, from, to, noms, uncastable, removed, k);
        let r = records.last();
        assert(r == records[records.len() - 1]);
        if let Ok(before) = assess::assessment(rest, from, to, noms, uncastable, removed) {
            if let Ok(p) = projection::projection(r.values, from, to, noms) {
                let keys = collections::key_order::<(GroupId, ResolverId)>(r.pending);
                key_order_lists::<(GroupId, ResolverId)>(r.pending);
                assert(keys.contains(k) <==> keys.to_set().contains(k));
                resolvers_are_tallied(before.pending_on_removed_resolvers, keys, removed, k);
            }
        }
    }
}

/// A resolver that the new revision takes away is listed with the number
/// of records that wait for it, and only where some do; the records with
/// cells that have nowhere to go are counted once each.
pub proof fn waiting_records_are_counted(
    from: SchemaModel,
    to: SchemaModel,
    noms: Map<(Seq<char>, u32), Seq<OptionRowModel>>,
    rules: Seq<RuleRefModel>,
    records: Seq<RecordUnderAssessmentModel>,
    k: (Seq<char>, Seq<char>),
)
    requires
        all_are_finite(records),
        records.len() <= u64::MAX,
    ensures
        assess::assessed(from, to, noms, rules, records) matches Ok(report) ==> {
            let waiting = counting::count_along(
                records,
                |r: RecordUnderAssessmentModel| r.pending.contains(k),
            );
            &&& report.records matches Some(a)
            &&& a.pending_on_removed_resolvers.dom().contains(k) <==> takes_away(report, k)
                && waiting > 0
            &&& takes_away(report, k) && waiting > 0 ==> a.pending_on_removed_resolvers[k]
                == waiting
            &&& a.records_with_uncastable == counting::count_along(
                records,
                |r: RecordUnderAssessmentModel|
                    exists|addr: CellAddrModel| #[trigger]
                        r.values.cells.dom().contains(addr) && goes_nowhere(report, addr.column),
            )
        },
{
    if let Ok(report) = assess::classified_with_rules(from, to, noms, rules) {
        let uncastable = assess::uncastable_columns(report.columns);
        resolvers_add_up(
            records,
            from,
            to,
            noms,
            uncastable,
            assess::removed_resolvers(report.resolvers),
            k,
        );
        removed_are_named(report.resolvers, k);
        if let Ok(full) = assess::assessed(from, to, noms, rules, records) {
            let p = |r: RecordUnderAssessmentModel|
                exists|addr: CellAddrModel| #[trigger]
                    r.values.cells.dom().contains(addr) && uncastable.contains(addr.column);
            let q = |r: RecordUnderAssessmentModel|
                exists|addr: CellAddrModel| #[trigger]
                    r.values.cells.dom().contains(addr) && goes_nowhere(full, addr.column);
            assert forall|r: RecordUnderAssessmentModel| #[trigger] p(r) == q(r) by {
                assert forall|addr: CellAddrModel| uncastable.contains(addr.column)
                    == #[trigger] goes_nowhere(full, addr.column) by {}
            }
            assert(p =~= q);
        }
    }
}

/// How severe a class is, from harmless to breaking.
pub open spec fn severity(c: ChangeClass) -> int {
    match c {
        ChangeClass::Safe => 0,
        ChangeClass::Lossy => 1,
        ChangeClass::Checked => 2,
        ChangeClass::Breaking => 3,
    }
}

proof fn worst_is_reached(keys: Seq<Seq<char>>, columns: Map<Seq<char>, ColumnImpactModel>)
    ensures
        forall|c: Seq<char>| #[trigger]
            keys.contains(c) ==> severity(columns[c].class) <= severity(
                assess::worst_class(keys, columns),
            ),
        assess::worst_class(keys, columns) is Safe || exists|c: Seq<char>| #[trigger]
            keys.contains(c) && columns[c].class == assess::worst_class(keys, columns),
    decreases keys.len(),
{
    if keys.len() > 0 {
        let rest = keys.drop_last();
        worst_is_reached(rest, columns);
        assert(keys[keys.len() - 1] == keys.last());
        assert(keys.contains(keys.last()));
        assert forall|c: Seq<char>| #[trigger] keys.contains(c) implies rest.contains(c) || c
            == keys.last() by {
            let i = choose|i: int| 0 <= i < keys.len() && keys[i] == c;
            if i < rest.len() {
                assert(rest[i] == c);
            }
        }
        if !(assess::worst_class(rest, columns) is Safe) {
            let c = choose|c: Seq<char>| #[trigger]
                rest.contains(c) && columns[c].class == assess::worst_class(rest, columns);
            let i = choose|i: int| 0 <= i < rest.len() && rest[i] == c;
            assert(keys[i] == c);
            assert(keys.contains(c));
        }
    }
}

/// The verdict on a transition: breaking where a rule breaks that was not
/// broken before; otherwise no column is worse, and one is as bad unless
/// the verdict is that all is safe.
pub proof fn the_verdict_is_the_worst(report: ImpactReportModel)
    requires
        report.columns.dom().finite(),
    ensures
        (exists|i: int| 0 <= i < report.rules.len() && !(#[trigger] report.rules[i]).already_broken)
            ==> report.worst() is Breaking,
        (forall|i: int| 0 <= i < report.rules.len() ==> (#[trigger] report.rules[i]).already_broken)
            ==> (report.worst() is Safe || exists|c: Seq<char>| #[trigger]
            report.columns.dom().contains(c) && report.columns[c].class == report.worst()),
        forall|c: Seq<char>| #[trigger]
            report.columns.dom().contains(c) ==> severity(report.columns[c].class) <= severity(
                report.worst(),
            ),
{
    let keys = collections::key_order::<ColumnId>(report.columns.dom());
    key_order_lists::<ColumnId>(report.columns.dom());
    worst_is_reached(keys, report.columns);
    assert forall|c: Seq<char>| #[trigger] report.columns.dom().contains(c) implies keys.contains(
        c,
    ) by {
        assert(keys.to_set().contains(c));
    }
    if !(assess::worst_class(keys, report.columns) is Safe) {
        let c = choose|c: Seq<char>| #[trigger]
            keys.contains(c) && report.columns[c].class == assess::worst_class(keys, report.columns);
        assert(keys.to_set().contains(c));
        assert(report.columns.dom().contains(c));
    }
}

} // verus!
