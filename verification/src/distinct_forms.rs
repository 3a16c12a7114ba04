//! What is hashed differs wherever what was committed to differs: other
//! operations, notes and envelopes have other canonical bytes.

use vstd::prelude::*;
use crate::canonical;
use crate::codec;
use crate::collections;
use crate::decimal;
use crate::entry;
use crate::entry_codec;
use crate::exact_forms;
use crate::number_texts;
use crate::one_text;
use crate::text;
use crate::time;
use crate::canonical::{CanonicalValueModel, MemberKey, sha256};
use crate::checkpoint::CheckpointModel;
use crate::codec::op;
use crate::decimal::Decimal;
use crate::entry::{EntryOpModel, EnvelopeModel, OriginModel};
use crate::ids::{ColumnId, GroupId, PathSegModel};
use crate::order::Key;
use crate::resolution::{
    AbandonReason, ExpectedResolutionModel, OutcomeModel, Resolution, TransitionModel,
};
use crate::scan::ScanTransitionModel;
use crate::time::Date;
use crate::value::{AttachmentRefModel, CellStateModel, CellValueModel, OpModel, ScalarModel};

verus! {

/// Different addresses have different texts.
pub proof fn hash_texts_are_distinct(a: Seq<u8>, b: Seq<u8>)
    ensures
        canonical::hash_text(a) == canonical::hash_text(b) ==> a == b,
{
    if canonical::hash_text(a) == canonical::hash_text(b) {
        let n = "sha256:"@.len() as int;
        assert(canonical::hash_text(a).skip(n) =~= text::hex(a));
        assert(canonical::hash_text(b).skip(n) =~= text::hex(b));
        text::unhex_of_hex(a);
        text::unhex_of_hex(b);
    }
}

proof fn optional_forms_are_distinct(a: Option<Seq<char>>, b: Option<Seq<char>>)
    ensures
        entry_codec::optional_form(a) == entry_codec::optional_form(b) ==> a == b,
{
}

proof fn outcome_forms_are_distinct(a: OutcomeModel, b: OutcomeModel)
    ensures
        entry_codec::outcome_form(a) == entry_codec::outcome_form(b) ==> a == b,
{
    reveal_strlit("attempts");
    reveal_strlit("last_error");
    assert("attempts"@.len() == 8);
    assert("last_error"@.len() == 10);
    codec::members2_are(
        "attempts"@,
        entry_codec::version_form(a.attempts),
        "last_error"@,
        entry_codec::optional_form(a.last_error),
    );
    codec::members2_are(
        "attempts"@,
        entry_codec::version_form(b.attempts),
        "last_error"@,
        entry_codec::optional_form(b.last_error),
    );
    if entry_codec::outcome_form(a) == entry_codec::outcome_form(b) {
        let m = entry_codec::outcome_form(a)->Object_0;
        assert(canonical::member(m, "attempts"@) == Some(entry_codec::version_form(b.attempts)));
        assert(canonical::member(m, "last_error"@) == Some(entry_codec::optional_form(b.last_error)));
        optional_forms_are_distinct(a.last_error, b.last_error);
    }
}

proof fn reason_names_are_distinct(a: AbandonReason, b: AbandonReason)
    ensures
        entry_codec::reason_name(a) == entry_codec::reason_name(b) ==> a == b,
{
    reveal_strlit("deadline");
    reveal_strlit("operator");
    reveal_strlit("resolver_unavailable");
    reveal_strlit("superseded");
    assert("deadline"@.len() == 8);
    assert("operator"@.len() == 8);
    assert("resolver_unavailable"@.len() == 20);
    assert("superseded"@.len() == 10);
    assert("deadline"@[0] == 'd');
    assert("operator"@[0] == 'o');
}

proof fn abandon_forms_are_distinct(
    a: AbandonReason,
    x: OutcomeModel,
    b: AbandonReason,
    y: OutcomeModel,
)
    ensures
        entry_codec::abandon_form(a, x) == entry_codec::abandon_form(b, y) ==> a == b && x == y,
{
    reveal_strlit("reason");
    reveal_strlit("outcome");
    assert("reason"@.len() == 6);
    assert("outcome"@.len() == 7);
    codec::members2_are(
        "reason"@,
        CanonicalValueModel::String(entry_codec::reason_name(a)),
        "outcome"@,
        entry_codec::outcome_form(x),
    );
    codec::members2_are(
        "reason"@,
        CanonicalValueModel::String(entry_codec::reason_name(b)),
        "outcome"@,
        entry_codec::outcome_form(y),
    );
    if entry_codec::abandon_form(a, x) == entry_codec::abandon_form(b, y) {
        let m = entry_codec::abandon_form(a, x)->Object_0;
        assert(canonical::member(m, "reason"@) == Some(CanonicalValueModel::String(entry_codec::reason_name(b))));
        assert(canonical::member(m, "outcome"@) == Some(entry_codec::outcome_form(y)));
        reason_names_are_distinct(a, b);
        outcome_forms_are_distinct(x, y);
    }
}

proof fn tags_agree(
    a: Seq<char>,
    x: CanonicalValueModel,
    b: Seq<char>,
    y: CanonicalValueModel,
)
    requires
        codec::tagged(a, x) == codec::tagged(b, y),
    ensures
        a == b,
        x == y,
{
    assert(codec::tagged(a, x)->Object_0[0] == codec::tagged(b, y)->Object_0[0]);
}

proof fn step_names_are_distinct()
    ensures
        "request"@ != "land"@,
        "request"@ != "not_found"@,
        "request"@ != "ambiguous"@,
        "request"@ != "failed"@,
        "request"@ != "abandon"@,
        "request"@ != "clean"@,
        "request"@ != "infected"@,
        "land"@ != "not_found"@,
        "land"@ != "ambiguous"@,
        "land"@ != "failed"@,
        "land"@ != "abandon"@,
        "not_found"@ != "ambiguous"@,
        "not_found"@ != "failed"@,
        "not_found"@ != "abandon"@,
        "ambiguous"@ != "failed"@,
        "ambiguous"@ != "abandon"@,
        "failed"@ != "abandon"@,
        "clean"@ != "infected"@,
        "clean"@ != "failed"@,
        "clean"@ != "abandon"@,
        "infected"@ != "failed"@,
        "infected"@ != "abandon"@,
{
    reveal_strlit("request");
    reveal_strlit("land");
    reveal_strlit("not_found");
    reveal_strlit("ambiguous");
    reveal_strlit("failed");
    reveal_strlit("abandon");
    reveal_strlit("clean");
    reveal_strlit("infected");
    assert("request"@.len() == 7);
    assert("land"@.len() == 4);
    assert("not_found"@.len() == 9);
    assert("ambiguous"@.len() == 9);
    assert("failed"@.len() == 6);
    assert("abandon"@.len() == 7);
    assert("clean"@.len() == 5);
    assert("infected"@.len() == 8);
    assert("request"@[0] == 'r');
    assert("not_found"@[0] == 'n');
    assert("ambiguous"@[0] == 'a');
    assert("abandon"@[0] == 'a');
}

proof fn request_forms_are_distinct(
    a: Seq<char>,
    av: u32,
    am: u32,
    b: Seq<char>,
    bv: u32,
    bm: u32,
)
    ensures
        ({
            let t = TransitionModel::Request {
                resolver: a,
                resolver_version: av,
                mapping_version: am,
            };
            let u = TransitionModel::Request {
                resolver: b,
                resolver_version: bv,
                mapping_version: bm,
            };
            entry_codec::transition_form(t) == entry_codec::transition_form(u) ==> t == u
        }),
{
    reveal_strlit("resolver");
    reveal_strlit("resolver_version");
    reveal_strlit("mapping_version");
    assert("resolver"@.len() == 8);
    assert("resolver_version"@.len() == 16);
    assert("mapping_version"@.len() == 15);
    let x = codec::members3(
        "resolver"@,
        CanonicalValueModel::String(a),
        "resolver_version"@,
        entry_codec::version_form(av),
        "mapping_version"@,
        entry_codec::version_form(am),
    );
    let y = codec::members3(
        "resolver"@,
        CanonicalValueModel::String(b),
        "resolver_version"@,
        entry_codec::version_form(bv),
        "mapping_version"@,
        entry_codec::version_form(bm),
    );
    codec::members3_are(
        "resolver"@,
        CanonicalValueModel::String(a),
        "resolver_version"@,
        entry_codec::version_form(av),
        "mapping_version"@,
        entry_codec::version_form(am),
    );
    codec::members3_are(
        "resolver"@,
        CanonicalValueModel::String(b),
        "resolver_version"@,
        entry_codec::version_form(bv),
        "mapping_version"@,
        entry_codec::version_form(bm),
    );
    if codec::tagged("request"@, CanonicalValueModel::Object(x)) == codec::tagged(
        "request"@,
        CanonicalValueModel::Object(y),
    ) {
        tags_agree(
            "request"@,
            CanonicalValueModel::Object(x),
            "request"@,
            CanonicalValueModel::Object(y),
        );
        assert(canonical::member(x, "resolver"@) == canonical::member(y, "resolver"@));
        assert(canonical::member(x, "resolver_version"@) == canonical::member(y, "resolver_version"@));
        assert(canonical::member(x, "mapping_version"@) == canonical::member(y, "mapping_version"@));
    }
}

proof fn landing_forms_are_distinct(a: Seq<u8>, x: OutcomeModel, b: Seq<u8>, y: OutcomeModel)
    ensures
        ({
            let t = TransitionModel::Land { snapshot: a, outcome: x };
            let u = TransitionModel::Land { snapshot: b, outcome: y };
            entry_codec::transition_form(t) == entry_codec::transition_form(u) ==> t == u
        }),
{
    reveal_strlit("snapshot");
    reveal_strlit("outcome");
    assert("snapshot"@.len() == 8);
    assert("outcome"@.len() == 7);
    let m = codec::members2(
        "snapshot"@,
        CanonicalValueModel::String(canonical::hash_text(a)),
        "outcome"@,
        entry_codec::outcome_form(x),
    );
    let n = codec::members2(
        "snapshot"@,
        CanonicalValueModel::String(canonical::hash_text(b)),
        "outcome"@,
        entry_codec::outcome_form(y),
    );
    codec::members2_are(
        "snapshot"@,
        CanonicalValueModel::String(canonical::hash_text(a)),
        "outcome"@,
        entry_codec::outcome_form(x),
    );
    codec::members2_are(
        "snapshot"@,
        CanonicalValueModel::String(canonical::hash_text(b)),
        "outcome"@,
        entry_codec::outcome_form(y),
    );
    if codec::tagged("land"@, CanonicalValueModel::Object(m)) == codec::tagged(
        "land"@,
        CanonicalValueModel::Object(n),
    ) {
        tags_agree(
            "land"@,
            CanonicalValueModel::Object(m),
            "land"@,
            CanonicalValueModel::Object(n),
        );
        assert(canonical::member(m, "snapshot"@) == canonical::member(n, "snapshot"@));
        assert(canonical::member(m, "outcome"@) == canonical::member(n, "outcome"@));
        hash_texts_are_distinct(a, b);
        outcome_forms_are_distinct(x, y);
    }
}

/// Where a step's form says which step it is, and with what.
spec fn step_tag(t: TransitionModel) -> (Seq<char>, CanonicalValueModel) {
    codec::tag_of(entry_codec::transition_form(t))->0
}

proof fn transition_forms_are_distinct(a: TransitionModel, b: TransitionModel)
    ensures
        entry_codec::transition_form(a) == entry_codec::transition_form(b) ==> a == b,
{
    if entry_codec::transition_form(a) == entry_codec::transition_form(b) {
        step_names_are_distinct();
        let (ka, va) = step_tag(a);
        let (kb, vb) = step_tag(b);
        assert(ka == kb && va == vb);
        match (a, b) {
            (
                TransitionModel::Request {
                    resolver: r,
                    resolver_version: v,
                    mapping_version: m,
                },
                TransitionModel::Request {
                    resolver: s,
                    resolver_version: w,
                    mapping_version: n,
                },
            ) => request_forms_are_distinct(r, v, m, s, w, n),
            (
                TransitionModel::Land { snapshot: s, outcome: x },
                TransitionModel::Land { snapshot: t, outcome: y },
            ) => landing_forms_are_distinct(s, x, t, y),
            (
                TransitionModel::NotFound { outcome: x },
                TransitionModel::NotFound { outcome: y },
            ) => outcome_forms_are_distinct(x, y),
            (
                TransitionModel::Ambiguous { outcome: x },
                TransitionModel::Ambiguous { outcome: y },
            ) => outcome_forms_are_distinct(x, y),
            (
                TransitionModel::Failed { outcome: x },
                TransitionModel::Failed { outcome: y },
            ) => outcome_forms_are_distinct(x, y),
            (
                TransitionModel::Abandon { reason: r, outcome: x },
                TransitionModel::Abandon { reason: s, outcome: y },
            ) => abandon_forms_are_distinct(r, x, s, y),
            _ => {},
        }
    }
}

proof fn infection_forms_are_distinct(
    a: Option<Seq<char>>,
    x: OutcomeModel,
    b: Option<Seq<char>>,
    y: OutcomeModel,
)
    ensures
        ({
            let t = ScanTransitionModel::Infected { threat: a, outcome: x };
            let u = ScanTransitionModel::Infected { threat: b, outcome: y };
            entry_codec::scan_transition_form(t) == entry_codec::scan_transition_form(u) ==> t == u
        }),
{
    reveal_strlit("threat");
    reveal_strlit("outcome");
    assert("threat"@.len() == 6);
    assert("outcome"@.len() == 7);
    let m = codec::members2("threat"@, entry_codec::optional_form(a), "outcome"@, entry_codec::outcome_form(x));
    let n = codec::members2("threat"@, entry_codec::optional_form(b), "outcome"@, entry_codec::outcome_form(y));
    codec::members2_are("threat"@, entry_codec::optional_form(a), "outcome"@, entry_codec::outcome_form(x));
    codec::members2_are("threat"@, entry_codec::optional_form(b), "outcome"@, entry_codec::outcome_form(y));
    if codec::tagged("infected"@, CanonicalValueModel::Object(m)) == codec::tagged(
        "infected"@,
        CanonicalValueModel::Object(n),
    ) {
        tags_agree(
            "infected"@,
            CanonicalValueModel::Object(m),
            "infected"@,
            CanonicalValueModel::Object(n),
        );
        assert(canonical::member(m, "threat"@) == canonical::member(n, "threat"@));
        assert(canonical::member(m, "outcome"@) == canonical::member(n, "outcome"@));
        optional_forms_are_distinct(a, b);
        outcome_forms_are_distinct(x, y);
    }
}

proof fn scan_forms_are_distinct(a: ScanTransitionModel, b: ScanTransitionModel)
    ensures
        entry_codec::scan_transition_form(a) == entry_codec::scan_transition_form(b) ==> a == b,
{
    if entry_codec::scan_transition_form(a) == entry_codec::scan_transition_form(b) {
        step_names_are_distinct();
        let (ka, va) = codec::tag_of(entry_codec::scan_transition_form(a))->0;
        let (kb, vb) = codec::tag_of(entry_codec::scan_transition_form(b))->0;
        assert(ka == kb && va == vb);
        match (a, b) {
            (
                ScanTransitionModel::Request { hash: x },
                ScanTransitionModel::Request { hash: y },
            ) => hash_texts_are_distinct(x, y),
            (
                ScanTransitionModel::Clean { outcome: x },
                ScanTransitionModel::Clean { outcome: y },
            ) => outcome_forms_are_distinct(x, y),
            (
                ScanTransitionModel::Infected { threat: s, outcome: x },
                ScanTransitionModel::Infected { threat: t, outcome: y },
            ) => infection_forms_are_distinct(s, x, t, y),
            (
                ScanTransitionModel::Failed { outcome: x },
                ScanTransitionModel::Failed { outcome: y },
            ) => outcome_forms_are_distinct(x, y),
            (
                ScanTransitionModel::Abandon { reason: r, outcome: x },
                ScanTransitionModel::Abandon { reason: s, outcome: y },
            ) => abandon_forms_are_distinct(r, x, s, y),
            _ => {},
        }
    }
}

proof fn expected_forms_are_distinct(a: ExpectedResolutionModel, b: ExpectedResolutionModel)
    ensures
        entry_codec::expected_form(a) == entry_codec::expected_form(b) ==> a == b,
{
    reveal_strlit("anchor");
    reveal_strlit("scope");
    reveal_strlit("resolver");
    reveal_strlit("resolver_version");
    reveal_strlit("mapping_version");
    assert("anchor"@.len() == 6);
    assert("scope"@.len() == 5);
    assert("resolver"@.len() == 8);
    assert("resolver_version"@.len() == 16);
    assert("mapping_version"@.len() == 15);
    codec::members5_are(
        "anchor"@,
        CanonicalValueModel::String(a.anchor),
        "scope"@,
        codec::path_form(a.scope),
        "resolver"@,
        CanonicalValueModel::String(a.resolver),
        "resolver_version"@,
        entry_codec::version_form(a.resolver_version),
        "mapping_version"@,
        entry_codec::version_form(a.mapping_version),
    );
    codec::members5_are(
        "anchor"@,
        CanonicalValueModel::String(b.anchor),
        "scope"@,
        codec::path_form(b.scope),
        "resolver"@,
        CanonicalValueModel::String(b.resolver),
        "resolver_version"@,
        entry_codec::version_form(b.resolver_version),
        "mapping_version"@,
        entry_codec::version_form(b.mapping_version),
    );
    if entry_codec::expected_form(a) == entry_codec::expected_form(b) {
        let m = entry_codec::expected_form(a)->Object_0;
        assert(canonical::member(m, "anchor"@) == Some(CanonicalValueModel::String(b.anchor)));
        assert(canonical::member(m, "scope"@) == Some(codec::path_form(b.scope)));
        assert(canonical::member(m, "resolver"@) == Some(CanonicalValueModel::String(b.resolver)));
        assert(canonical::member(m, "resolver_version"@) == Some(entry_codec::version_form(b.resolver_version)));
        assert(canonical::member(m, "mapping_version"@) == Some(entry_codec::version_form(b.mapping_version)));
        codec::path_reads_back(a.scope, codec::path_form(b.scope));
        codec::path_reads_back(b.scope, codec::path_form(a.scope));
    }
}

proof fn expected_lists_are_distinct(
    a: Seq<ExpectedResolutionModel>,
    b: Seq<ExpectedResolutionModel>,
)
    ensures
        entry_codec::expected_list_form(a) == entry_codec::expected_list_form(b) ==> a == b,
{
    if entry_codec::expected_list_form(a) == entry_codec::expected_list_form(b) {
        let x = entry_codec::expected_list_form(a)->Array_0;
        let y = entry_codec::expected_list_form(b)->Array_0;
        assert(x == y);
        assert(x.len() == a.len() && y.len() == b.len());
        assert forall|i: int| 0 <= i < a.len() implies a[i] == b[i] by {
            assert(x[i] == y[i]);
            expected_forms_are_distinct(a[i], b[i]);
        }
        assert(a =~= b);
    }
}

proof fn listings_are_distinct<K: Key>(a: Set<K::V>, b: Set<K::V>)
    requires
        collections::is_listed::<K>(a),
        collections::is_listed::<K>(b),
    ensures
        collections::key_order::<K>(a) == collections::key_order::<K>(b) ==> a == b,
{
    if collections::key_order::<K>(a) == collections::key_order::<K>(b) {
        assert forall|k: K::V| a.contains(k) <==> b.contains(k) by {
            assert(collections::key_order::<K>(a).contains(k) <==> a.contains(k));
            assert(collections::key_order::<K>(b).contains(k) <==> b.contains(k));
        }
        assert(a =~= b);
    }
}

/// What the types of a checkpoint's parts promise: its sets are finite.
pub open spec fn checkpoint_is_valid(c: CheckpointModel) -> bool {
    c.frozen_columns.finite() && c.frozen_groups.finite()
}

/// The members of a checkpoint's form.
proof fn checkpoint_members_are(c: CheckpointModel)
    ensures
        canonical::member(entry_codec::checkpoint_members(c), "op"@) == Some(CanonicalValueModel::String("checkpoint"@)),
        canonical::member(entry_codec::checkpoint_members(c), "name"@) == Some(CanonicalValueModel::String(c.name)),
        canonical::member(entry_codec::checkpoint_members(c), "reading_revision"@) == Some(
            CanonicalValueModel::String(c.reading_revision),
        ),
        canonical::member(entry_codec::checkpoint_members(c), "expected"@) == Some(entry_codec::expected_list_form(c.expected)),
        canonical::member(entry_codec::checkpoint_members(c), "frozen_columns"@) == Some(
            codec::texts_form(collections::key_order::<ColumnId>(c.frozen_columns)),
        ),
        canonical::member(entry_codec::checkpoint_members(c), "frozen_groups"@) == Some(
            codec::texts_form(collections::key_order::<GroupId>(c.frozen_groups)),
        ),
{
    reveal_strlit("op");
    reveal_strlit("name");
    reveal_strlit("reading_revision");
    reveal_strlit("expected");
    reveal_strlit("frozen_columns");
    reveal_strlit("frozen_groups");
    assert("op"@.len() == 2);
    assert("name"@.len() == 4);
    assert("reading_revision"@.len() == 16);
    assert("expected"@.len() == 8);
    assert("frozen_columns"@.len() == 14);
    assert("frozen_groups"@.len() == 13);
    let five = codec::members5(
        "op"@,
        CanonicalValueModel::String("checkpoint"@),
        "name"@,
        CanonicalValueModel::String(c.name),
        "reading_revision"@,
        CanonicalValueModel::String(c.reading_revision),
        "expected"@,
        entry_codec::expected_list_form(c.expected),
        "frozen_columns"@,
        codec::texts_form(collections::key_order::<ColumnId>(c.frozen_columns)),
    );
    codec::members5_are(
        "op"@,
        CanonicalValueModel::String("checkpoint"@),
        "name"@,
        CanonicalValueModel::String(c.name),
        "reading_revision"@,
        CanonicalValueModel::String(c.reading_revision),
        "expected"@,
        entry_codec::expected_list_form(c.expected),
        "frozen_columns"@,
        codec::texts_form(collections::key_order::<ColumnId>(c.frozen_columns)),
    );
    canonical::with_member_is(
        five,
        "frozen_groups"@,
        codec::texts_form(collections::key_order::<GroupId>(c.frozen_groups)),
    );
}

proof fn checkpoint_forms_are_distinct(a: CheckpointModel, b: CheckpointModel)
    requires
        checkpoint_is_valid(a),
        checkpoint_is_valid(b),
    ensures
        entry_codec::checkpoint_members(a) == entry_codec::checkpoint_members(b) ==> a == b,
{
    if entry_codec::checkpoint_members(a) == entry_codec::checkpoint_members(b) {
        checkpoint_members_are(a);
        checkpoint_members_are(b);
        expected_lists_are_distinct(a.expected, b.expected);
        codec::texts_read_back(collections::key_order::<ColumnId>(a.frozen_columns));
        codec::texts_read_back(collections::key_order::<ColumnId>(b.frozen_columns));
        codec::texts_read_back(collections::key_order::<GroupId>(a.frozen_groups));
        codec::texts_read_back(collections::key_order::<GroupId>(b.frozen_groups));
        collections::finite_is_listed::<ColumnId>(a.frozen_columns);
        collections::finite_is_listed::<ColumnId>(b.frozen_columns);
        collections::finite_is_listed::<GroupId>(a.frozen_groups);
        collections::finite_is_listed::<GroupId>(b.frozen_groups);
        listings_are_distinct::<ColumnId>(a.frozen_columns, b.frozen_columns);
        listings_are_distinct::<GroupId>(a.frozen_groups, b.frozen_groups);
    }
}

/// Whether two scalars are one, but for how the whole numbers of a
/// geometry are held.
pub open spec fn scalars_alike(a: ScalarModel, b: ScalarModel) -> bool {
    match (a, b) {
        (ScalarModel::Geometry(g), ScalarModel::Geometry(h)) => one_text::written_alike(g, h),
        _ => a == b,
    }
}

/// Whether two states of a cell are one, but for how the whole
/// numbers of a geometry are held.
pub open spec fn states_alike(a: CellStateModel, b: CellStateModel) -> bool {
    match (a, b) {
        (
            CellStateModel::Value(CellValueModel::One(s)),
            CellStateModel::Value(CellValueModel::One(t)),
        ) => scalars_alike(s, t),
        (
            CellStateModel::Value(CellValueModel::Many(s)),
            CellStateModel::Value(CellValueModel::Many(t)),
        ) => s.len() == t.len() && forall|i: int|
            0 <= i < s.len() ==> scalars_alike(#[trigger] s[i], t[i]),
        _ => a == b,
    }
}

/// Whether two operations are one, but for how the whole numbers of a
/// geometry are held.
pub open spec fn operations_alike(a: EntryOpModel, b: EntryOpModel) -> bool {
    match (a, b) {
        (
            EntryOpModel::Cell(OpModel::Put { column: c, path: p, state: s }),
            EntryOpModel::Cell(OpModel::Put { column: d, path: q, state: t }),
        ) => c == d && p == q && states_alike(s, t),
        _ => a == b,
    }
}

/// What the types of a scalar's parts promise: the doubles of a geometry
/// are held as their type says.
pub open spec fn scalar_has_numerals(s: ScalarModel) -> bool {
    codec::scalar_is_valid(s) && (s matches ScalarModel::Geometry(g) ==> one_text::has_numerals(g))
}

pub open spec fn state_has_numerals(s: CellStateModel) -> bool {
    match s {
        CellStateModel::Empty => true,
        CellStateModel::Value(CellValueModel::One(v)) => scalar_has_numerals(v),
        CellStateModel::Value(CellValueModel::Many(vs)) => forall|i: int|
            0 <= i < vs.len() ==> scalar_has_numerals(#[trigger] vs[i]),
    }
}

/// What the types of an operation's parts promise.
pub open spec fn operation_is_valid(op: EntryOpModel) -> bool {
    match op {
        EntryOpModel::Cell(OpModel::Put { state, .. }) => state_has_numerals(state),
        EntryOpModel::Checkpoint(c) => checkpoint_is_valid(c),
        _ => true,
    }
}

/// Whether a geometry that an operation writes holds no doubles.
pub open spec fn operation_is_exact(op: EntryOpModel) -> bool {
    match op {
        EntryOpModel::Cell(OpModel::Put { state: CellStateModel::Value(v), .. }) => match v {
            CellValueModel::One(ScalarModel::Geometry(g)) => one_text::is_exact(g),
            CellValueModel::One(_) => true,
            CellValueModel::Many(vs) => forall|i: int|
                0 <= i < vs.len() ==> ((#[trigger] vs[i]) matches ScalarModel::Geometry(g)
                    ==> one_text::is_exact(g)),
        },
        _ => true,
    }
}

/// Operations without doubles that are alike are one operation.
pub proof fn exact_operations_alike_are_equal(a: EntryOpModel, b: EntryOpModel)
    requires
        operation_is_exact(a),
        operation_is_exact(b),
        operations_alike(a, b),
    ensures
        a == b,
{
    if let (
        EntryOpModel::Cell(OpModel::Put { state: s, .. }),
        EntryOpModel::Cell(OpModel::Put { state: t, .. }),
    ) = (a, b) {
        match (s, t) {
            (
                CellStateModel::Value(CellValueModel::One(ScalarModel::Geometry(g))),
                CellStateModel::Value(CellValueModel::One(ScalarModel::Geometry(h))),
            ) => one_text::exact_values_alike_are_equal(g, h),
            (
                CellStateModel::Value(CellValueModel::Many(v)),
                CellStateModel::Value(CellValueModel::Many(w)),
            ) => {
                assert forall|i: int| 0 <= i < v.len() implies v[i] == w[i] by {
                    assert(scalars_alike(v[i], w[i]));
                    if let (ScalarModel::Geometry(g), ScalarModel::Geometry(h)) = (v[i], w[i]) {
                        one_text::exact_values_alike_are_equal(g, h);
                    }
                }
                assert(v =~= w);
            },
            _ => {},
        }
    }
}

proof fn alike_members(
    m: Seq<(Seq<char>, CanonicalValueModel)>,
    n: Seq<(Seq<char>, CanonicalValueModel)>,
    k: Seq<char>,
)
    requires
        one_text::written_alike(CanonicalValueModel::Object(m), CanonicalValueModel::Object(n)),
    ensures
        (canonical::member(m, k) is Some) == (canonical::member(n, k) is Some),
        canonical::member(m, k) is Some ==> one_text::written_alike(canonical::member(m, k)->0, canonical::member(n, k)->0),
{
    assert(collections::firsts(m) =~= collections::firsts(n)) by {
        assert forall|i: int| 0 <= i < m.len() implies m[i].0 == n[i].0 by {}
    }
    if canonical::member(m, k) is Some {
        let i = collections::firsts(m).index_of(k);
        assert(collections::firsts(m)[i] == k);
        assert(one_text::written_alike(m[i].1, n[i].1));
    }
}

proof fn numerals_by_member(m: Seq<(Seq<char>, CanonicalValueModel)>)
    requires
        canonical::members_in_order(m),
        forall|k: Seq<char>| #[trigger] canonical::member(m, k) matches Some(v) ==> one_text::has_numerals(v),
    ensures
        one_text::has_numerals(CanonicalValueModel::Object(m)),
{
    assert forall|i: int| 0 <= i < m.len() implies one_text::has_numerals((#[trigger] m[i]).1) by {
        collections::in_order_index::<MemberKey>(collections::firsts(m), i);
        let k = collections::firsts(m)[i];
        assert(collections::firsts(m).contains(k));
        assert(canonical::member(m, k) == Some(m[i].1));
    }
}

proof fn alike_texts(s: Seq<char>, t: Seq<char>)
    requires
        one_text::written_alike(CanonicalValueModel::String(s), CanonicalValueModel::String(t)),
    ensures
        s == t,
{
}

proof fn alike_paths(p: Seq<PathSegModel>, q: Seq<PathSegModel>)
    requires
        one_text::written_alike(codec::path_form(p), codec::path_form(q)),
    ensures
        p == q,
{
    exact_forms::path_is_plain(p);
    exact_forms::path_is_plain(q);
    one_text::exact_values_alike_are_equal(codec::path_form(p), codec::path_form(q));
    codec::path_reads_back(p, codec::path_form(q));
    codec::path_reads_back(q, codec::path_form(p));
}

proof fn counts_are_distinct(a: u64, b: u64)
    ensures
        codec::count_form(a) == codec::count_form(b) ==> a == b,
{
    if codec::count_form(a) == codec::count_form(b) {
        assert(a as i64 == b as i64);
        assert(a == b) by (bit_vector)
            requires
                a as i64 == b as i64,
        ;
    }
}

proof fn alike_counts(a: u64, b: u64)
    requires
        one_text::written_alike(codec::count_form(a), codec::count_form(b)),
    ensures
        a == b,
{
    one_text::exact_values_alike_are_equal(codec::count_form(a), codec::count_form(b));
    counts_are_distinct(a, b);
}

proof fn attachment_members_are(a: AttachmentRefModel)
    ensures
        ({
            let m = codec::attachment_members(a);
            &&& canonical::member(m, "id"@) == Some(CanonicalValueModel::String(a.id))
            &&& canonical::member(m, "hash"@) == Some(CanonicalValueModel::String(canonical::hash_text(a.hash)))
            &&& canonical::member(m, "filename"@) == Some(CanonicalValueModel::String(a.filename))
            &&& canonical::member(m, "content_type"@) == Some(CanonicalValueModel::String(a.content_type))
            &&& canonical::member(m, "byte_size"@) == Some(codec::count_form(a.byte_size))
        }),
{
    reveal_strlit("id");
    reveal_strlit("hash");
    reveal_strlit("filename");
    reveal_strlit("content_type");
    reveal_strlit("byte_size");
    assert("id"@.len() == 2);
    assert("hash"@.len() == 4);
    assert("filename"@.len() == 8);
    assert("content_type"@.len() == 12);
    assert("byte_size"@.len() == 9);
    codec::members5_are(
        "id"@,
        CanonicalValueModel::String(a.id),
        "hash"@,
        CanonicalValueModel::String(canonical::hash_text(a.hash)),
        "filename"@,
        CanonicalValueModel::String(a.filename),
        "content_type"@,
        CanonicalValueModel::String(a.content_type),
        "byte_size"@,
        codec::count_form(a.byte_size),
    );
}

proof fn alike_attachments(a: AttachmentRefModel, b: AttachmentRefModel)
    requires
        one_text::written_alike(
            CanonicalValueModel::Object(codec::attachment_members(a)),
            CanonicalValueModel::Object(codec::attachment_members(b)),
        ),
    ensures
        a == b,
{
    exact_forms::attachment_is_exact(a);
    exact_forms::attachment_is_exact(b);
    one_text::exact_values_alike_are_equal(
        CanonicalValueModel::Object(codec::attachment_members(a)),
        CanonicalValueModel::Object(codec::attachment_members(b)),
    );
    attachment_members_are(a);
    attachment_members_are(b);
    hash_texts_are_distinct(a.hash, b.hash);
    counts_are_distinct(a.byte_size, b.byte_size);
}

proof fn alike_tags(a: Seq<char>, x: CanonicalValueModel, b: Seq<char>, y: CanonicalValueModel)
    requires
        one_text::written_alike(codec::tagged(a, x), codec::tagged(b, y)),
    ensures
        a == b,
        one_text::written_alike(x, y),
{
    let m = codec::tagged(a, x)->Object_0;
    let n = codec::tagged(b, y)->Object_0;
    assert(m[0].0 == n[0].0 && one_text::written_alike(m[0].1, n[0].1));
}

proof fn kinds_are_apart()
    ensures
        "text"@ != "boolean"@,
        "text"@ != "integer"@,
        "text"@ != "decimal"@,
        "text"@ != "date"@,
        "text"@ != "datetime"@,
        "text"@ != "option"@,
        "text"@ != "attachment"@,
        "text"@ != "geometry"@,
        "boolean"@ != "integer"@,
        "boolean"@ != "decimal"@,
        "boolean"@ != "date"@,
        "boolean"@ != "datetime"@,
        "boolean"@ != "option"@,
        "boolean"@ != "attachment"@,
        "boolean"@ != "geometry"@,
        "integer"@ != "decimal"@,
        "integer"@ != "date"@,
        "integer"@ != "datetime"@,
        "integer"@ != "option"@,
        "integer"@ != "attachment"@,
        "integer"@ != "geometry"@,
        "decimal"@ != "date"@,
        "decimal"@ != "datetime"@,
        "decimal"@ != "option"@,
        "decimal"@ != "attachment"@,
        "decimal"@ != "geometry"@,
        "date"@ != "datetime"@,
        "date"@ != "option"@,
        "date"@ != "attachment"@,
        "date"@ != "geometry"@,
        "datetime"@ != "option"@,
        "datetime"@ != "attachment"@,
        "datetime"@ != "geometry"@,
        "option"@ != "attachment"@,
        "option"@ != "geometry"@,
        "attachment"@ != "geometry"@,
{
    reveal_strlit("text");
    reveal_strlit("boolean");
    reveal_strlit("integer");
    reveal_strlit("decimal");
    reveal_strlit("date");
    reveal_strlit("datetime");
    reveal_strlit("option");
    reveal_strlit("attachment");
    reveal_strlit("geometry");
    assert("text"@.len() == 4);
    assert("boolean"@.len() == 7);
    assert("integer"@.len() == 7);
    assert("decimal"@.len() == 7);
    assert("date"@.len() == 4);
    assert("datetime"@.len() == 8);
    assert("option"@.len() == 6);
    assert("attachment"@.len() == 10);
    assert("geometry"@.len() == 8);
    assert("text"@[0] == 't');
    assert("boolean"@[0] == 'b');
    assert("integer"@[0] == 'i');
    assert("decimal"@[0] == 'd');
    assert("date"@[0] == 'd');
    assert("datetime"@[0] == 'd');
    assert("geometry"@[0] == 'g');
    assert("text"@[0] == 't' && "date"@[0] == 'd');
    assert("boolean"@[0] == 'b' && "integer"@[0] == 'i' && "decimal"@[0] == 'd');
    assert("datetime"@[0] == 'd' && "geometry"@[0] == 'g');
}

proof fn alike_scalars(a: ScalarModel, b: ScalarModel)
    requires
        codec::scalar_is_valid(a),
        codec::scalar_is_valid(b),
        one_text::written_alike(codec::scalar_form(a), codec::scalar_form(b)),
    ensures
        scalars_alike(a, b),
{
    kinds_are_apart();
    let (ka, va) = codec::tag_of(codec::scalar_form(a))->0;
    let (kb, vb) = codec::tag_of(codec::scalar_form(b))->0;
    alike_tags(ka, va, kb, vb);
    match (a, b) {
        (ScalarModel::Integer(i), ScalarModel::Integer(j)) => {
            number_texts::int_texts_are_distinct(i as int, j as int);
        },
        (ScalarModel::Decimal(d), ScalarModel::Decimal(e)) => {
            decimal::rendered_is_unique(d, e);
        },
        (ScalarModel::Date(d), ScalarModel::Date(e)) => {
            time::date_text_reads_back(d);
            time::date_text_reads_back(e);
        },
        (ScalarModel::Attachment(x), ScalarModel::Attachment(y)) => {
            alike_attachments(x, y);
        },
        _ => {},
    }
}

proof fn alike_states(a: CellStateModel, b: CellStateModel)
    requires
        state_has_numerals(a),
        state_has_numerals(b),
        one_text::written_alike(codec::state_form(a), codec::state_form(b)),
    ensures
        states_alike(a, b),
{
    match (a, b) {
        (
            CellStateModel::Value(CellValueModel::One(s)),
            CellStateModel::Value(CellValueModel::One(t)),
        ) => alike_scalars(s, t),
        (
            CellStateModel::Value(CellValueModel::Many(s)),
            CellStateModel::Value(CellValueModel::Many(t)),
        ) => {
            let x = codec::state_form(a)->Array_0;
            let y = codec::state_form(b)->Array_0;
            assert forall|i: int| 0 <= i < s.len() implies scalars_alike(
                #[trigger] s[i],
                t[i],
            ) by {
                assert(one_text::written_alike(x[i], y[i]));
                alike_scalars(s[i], t[i]);
            }
        },
        _ => {},
    }
}

/// What an operation on the values is called.
spec fn cell_name(op: OpModel) -> Seq<char> {
    match op {
        OpModel::Put { .. } => "set"@,
        OpModel::Unset { .. } => "unset"@,
        OpModel::AddItem { .. } => "add_item"@,
        OpModel::RemoveItem { .. } => "remove_item"@,
        OpModel::Reorder { .. } => "reorder"@,
    }
}

proof fn cell_members_are(op: OpModel)
    ensures
        ({
            let m = codec::op_form(op)->Object_0;
            &&& canonical::members_in_order(m)
            &&& canonical::member(m, "op"@) == Some(CanonicalValueModel::String(cell_name(op)))
            &&& match op {
                OpModel::Put { column, path, state } => canonical::member(m, "column"@) == Some(
                    CanonicalValueModel::String(column),
                ) && canonical::member(m, "path"@) == Some(codec::path_form(path)) && canonical::member(m, "state"@) == Some(
                    codec::state_form(state),
                ) && forall|k: Seq<char>|
                    k != "op"@ && k != "column"@ && k != "path"@ && k != "state"@
                        ==> #[trigger] canonical::member(m, k) is None,
                OpModel::Unset { column, path } => canonical::member(m, "column"@) == Some(
                    CanonicalValueModel::String(column),
                ) && canonical::member(m, "path"@) == Some(codec::path_form(path)) && forall|k: Seq<char>|
                    k != "op"@ && k != "column"@ && k != "path"@
                        ==> #[trigger] canonical::member(m, k) is None,
                OpModel::AddItem { group, parent, item, at } => canonical::member(m, "group"@) == Some(
                    CanonicalValueModel::String(group),
                ) && canonical::member(m, "parent"@) == Some(codec::path_form(parent)) && canonical::member(m, "item"@) == Some(
                    CanonicalValueModel::String(item),
                ) && canonical::member(m, "at"@) == Some(codec::count_form(at as u64)) && forall|k: Seq<char>|
                    k != "op"@ && k != "group"@ && k != "parent"@ && k != "item"@ && k != "at"@
                        ==> #[trigger] canonical::member(m, k) is None,
                OpModel::RemoveItem { group, parent, item } => canonical::member(m, "group"@) == Some(
                    CanonicalValueModel::String(group),
                ) && canonical::member(m, "parent"@) == Some(codec::path_form(parent)) && canonical::member(m, "item"@) == Some(
                    CanonicalValueModel::String(item),
                ) && forall|k: Seq<char>|
                    k != "op"@ && k != "group"@ && k != "parent"@ && k != "item"@
                        ==> #[trigger] canonical::member(m, k) is None,
                OpModel::Reorder { group, parent, order } => canonical::member(m, "group"@) == Some(
                    CanonicalValueModel::String(group),
                ) && canonical::member(m, "parent"@) == Some(codec::path_form(parent)) && canonical::member(m, "order"@)
                    == Some(codec::texts_form(order)) && forall|k: Seq<char>|
                    k != "op"@ && k != "group"@ && k != "parent"@ && k != "order"@
                        ==> #[trigger] canonical::member(m, k) is None,
            }
        }),
{
    reveal_strlit("op");
    reveal_strlit("column");
    reveal_strlit("path");
    reveal_strlit("state");
    reveal_strlit("group");
    reveal_strlit("parent");
    reveal_strlit("item");
    reveal_strlit("at");
    reveal_strlit("order");
    assert("op"@.len() == 2);
    assert("column"@.len() == 6);
    assert("path"@.len() == 4);
    assert("state"@.len() == 5);
    assert("group"@.len() == 5);
    assert("parent"@.len() == 6);
    assert("item"@.len() == 4);
    assert("at"@.len() == 2);
    assert("order"@.len() == 5);
    assert("op"@[0] == 'o');
    assert("column"@[0] == 'c');
    assert("path"@[0] == 'p');
    assert("state"@[0] == 's');
    assert("group"@[0] == 'g');
    assert("parent"@[0] == 'p');
    assert("item"@[0] == 'i');
    assert("at"@[0] == 'a');
    assert("order"@[0] == 'o');
    let name = CanonicalValueModel::String(cell_name(op));
    match op {
        OpModel::Put { column, path, state } => codec::members4_are(
            "op"@,
            name,
            "column"@,
            CanonicalValueModel::String(column),
            "path"@,
            codec::path_form(path),
            "state"@,
            codec::state_form(state),
        ),
        OpModel::Unset { column, path } => codec::members3_are(
            "op"@,
            name,
            "column"@,
            CanonicalValueModel::String(column),
            "path"@,
            codec::path_form(path),
        ),
        OpModel::AddItem { group, parent, item, at } => codec::members5_are(
            "op"@,
            name,
            "group"@,
            CanonicalValueModel::String(group),
            "parent"@,
            codec::path_form(parent),
            "item"@,
            CanonicalValueModel::String(item),
            "at"@,
            codec::count_form(at as u64),
        ),
        OpModel::RemoveItem { group, parent, item } => codec::members4_are(
            "op"@,
            name,
            "group"@,
            CanonicalValueModel::String(group),
            "parent"@,
            codec::path_form(parent),
            "item"@,
            CanonicalValueModel::String(item),
        ),
        OpModel::Reorder { group, parent, order } => codec::members4_are(
            "op"@,
            name,
            "group"@,
            CanonicalValueModel::String(group),
            "parent"@,
            codec::path_form(parent),
            "order"@,
            codec::texts_form(order),
        ),
    }
}

proof fn state_form_has_numerals(s: CellStateModel)
    requires
        state_has_numerals(s),
    ensures
        one_text::has_numerals(codec::state_form(s)),
{
    match s {
        CellStateModel::Empty => {},
        CellStateModel::Value(CellValueModel::One(v)) => scalar_form_has_numerals(v),
        CellStateModel::Value(CellValueModel::Many(vs)) => {
            let a = codec::state_form(s)->Array_0;
            assert forall|i: int| 0 <= i < a.len() implies one_text::has_numerals(#[trigger] a[i]) by {
                assert(scalar_has_numerals(vs[i]));
                scalar_form_has_numerals(vs[i]);
            }
        },
    }
}

proof fn scalar_form_has_numerals(s: ScalarModel)
    requires
        scalar_has_numerals(s),
    ensures
        one_text::has_numerals(codec::scalar_form(s)),
{
    let m = codec::scalar_form(s)->Object_0;
    let v = m[0].1;
    if let ScalarModel::Attachment(a) = s {
        exact_forms::attachment_is_exact(a);
        one_text::exact_has_numerals(v);
    }
    assert(one_text::has_numerals(v));
    assert forall|i: int| 0 <= i < m.len() implies one_text::has_numerals((#[trigger] m[i]).1) by {}
}

proof fn cell_form_has_numerals(op: OpModel)
    requires
        operation_is_valid(EntryOpModel::Cell(op)),
    ensures
        one_text::has_numerals(codec::op_form(op)),
{
    let m = codec::op_form(op)->Object_0;
    cell_members_are(op);
    match op {
        OpModel::Put { path, state, .. } => {
            exact_forms::path_is_plain(path);
            one_text::exact_has_numerals(codec::path_form(path));
            state_form_has_numerals(state);
        },
        OpModel::Unset { path, .. } => {
            exact_forms::path_is_plain(path);
            one_text::exact_has_numerals(codec::path_form(path));
        },
        OpModel::AddItem { parent, .. } => {
            exact_forms::path_is_plain(parent);
            one_text::exact_has_numerals(codec::path_form(parent));
        },
        OpModel::RemoveItem { parent, .. } => {
            exact_forms::path_is_plain(parent);
            one_text::exact_has_numerals(codec::path_form(parent));
        },
        OpModel::Reorder { parent, order, .. } => {
            exact_forms::path_is_plain(parent);
            one_text::exact_has_numerals(codec::path_form(parent));
            exact_forms::texts_are_plain(order);
            one_text::exact_has_numerals(codec::texts_form(order));
        },
    }
    assert forall|k: Seq<char>| #[trigger] canonical::member(m, k) matches Some(v) ==> one_text::has_numerals(v) by {}
    numerals_by_member(m);
}

proof fn alike_cells(a: OpModel, b: OpModel)
    requires
        operation_is_valid(EntryOpModel::Cell(a)),
        operation_is_valid(EntryOpModel::Cell(b)),
        one_text::written_alike(codec::op_form(a), codec::op_form(b)),
    ensures
        operations_alike(EntryOpModel::Cell(a), EntryOpModel::Cell(b)),
{
    codec::op_names();
    cell_members_are(a);
    cell_members_are(b);
    let m = codec::op_form(a)->Object_0;
    let n = codec::op_form(b)->Object_0;
    alike_members(m, n, "op"@);
    alike_texts(cell_name(a), cell_name(b));
    match (a, b) {
        (
            OpModel::Put { column: c, path: p, state: s },
            OpModel::Put { column: d, path: q, state: t },
        ) => {
            alike_members(m, n, "column"@);
            alike_members(m, n, "path"@);
            alike_members(m, n, "state"@);
            alike_paths(p, q);
            alike_states(s, t);
        },
        (OpModel::Unset { path: p, .. }, OpModel::Unset { path: q, .. }) => {
            alike_members(m, n, "column"@);
            alike_members(m, n, "path"@);
            alike_paths(p, q);
        },
        (
            OpModel::AddItem { parent: p, at: i, .. },
            OpModel::AddItem { parent: q, at: j, .. },
        ) => {
            alike_members(m, n, "group"@);
            alike_members(m, n, "parent"@);
            alike_members(m, n, "item"@);
            alike_members(m, n, "at"@);
            alike_paths(p, q);
            alike_counts(i as u64, j as u64);
        },
        (OpModel::RemoveItem { parent: p, .. }, OpModel::RemoveItem { parent: q, .. }) => {
            alike_members(m, n, "group"@);
            alike_members(m, n, "parent"@);
            alike_members(m, n, "item"@);
            alike_paths(p, q);
        },
        (
            OpModel::Reorder { parent: p, order: x, .. },
            OpModel::Reorder { parent: q, order: y, .. },
        ) => {
            alike_members(m, n, "group"@);
            alike_members(m, n, "parent"@);
            alike_members(m, n, "order"@);
            alike_paths(p, q);
            exact_forms::texts_are_plain(x);
            exact_forms::texts_are_plain(y);
            one_text::exact_values_alike_are_equal(codec::texts_form(x), codec::texts_form(y));
            codec::texts_read_back(x);
            codec::texts_read_back(y);
        },
        _ => {},
    }
}

proof fn resolution_members_are(anchor: Seq<char>, scope: CanonicalValueModel, t: CanonicalValueModel)
    ensures
        ({
            let m = codec::members4(
                "op"@,
                CanonicalValueModel::String("resolution"@),
                "anchor"@,
                CanonicalValueModel::String(anchor),
                "scope"@,
                scope,
                "transition"@,
                t,
            );
            &&& canonical::member(m, "op"@) == Some(CanonicalValueModel::String("resolution"@))
            &&& canonical::member(m, "anchor"@) == Some(CanonicalValueModel::String(anchor))
            &&& canonical::member(m, "scope"@) == Some(scope)
            &&& canonical::member(m, "transition"@) == Some(t)
        }),
{
    reveal_strlit("op");
    reveal_strlit("anchor");
    reveal_strlit("scope");
    reveal_strlit("transition");
    assert("op"@.len() == 2);
    assert("anchor"@.len() == 6);
    assert("scope"@.len() == 5);
    assert("transition"@.len() == 10);
    codec::members4_are(
        "op"@,
        CanonicalValueModel::String("resolution"@),
        "anchor"@,
        CanonicalValueModel::String(anchor),
        "scope"@,
        scope,
        "transition"@,
        t,
    );
}

proof fn scan_members_are(element: Seq<char>, t: CanonicalValueModel)
    ensures
        ({
            let m = codec::members3(
                "op"@,
                CanonicalValueModel::String("scan"@),
                "element"@,
                CanonicalValueModel::String(element),
                "transition"@,
                t,
            );
            &&& canonical::member(m, "op"@) == Some(CanonicalValueModel::String("scan"@))
            &&& canonical::member(m, "element"@) == Some(CanonicalValueModel::String(element))
            &&& canonical::member(m, "transition"@) == Some(t)
        }),
{
    reveal_strlit("op");
    reveal_strlit("element");
    reveal_strlit("transition");
    assert("op"@.len() == 2);
    assert("element"@.len() == 7);
    assert("transition"@.len() == 10);
    codec::members3_are(
        "op"@,
        CanonicalValueModel::String("scan"@),
        "element"@,
        CanonicalValueModel::String(element),
        "transition"@,
        t,
    );
}

proof fn op_names_are_apart()
    ensures
        !codec::is_op("resolution"@),
        !codec::is_op("scan"@),
        !codec::is_op("checkpoint"@),
        "resolution"@ != "scan"@,
        "resolution"@ != "checkpoint"@,
        "scan"@ != "checkpoint"@,
{
    reveal_strlit("set");
    reveal_strlit("unset");
    reveal_strlit("add_item");
    reveal_strlit("remove_item");
    reveal_strlit("reorder");
    reveal_strlit("resolution");
    reveal_strlit("scan");
    reveal_strlit("checkpoint");
    assert("set"@.len() == 3);
    assert("unset"@.len() == 5);
    assert("add_item"@.len() == 8);
    assert("remove_item"@.len() == 11);
    assert("reorder"@.len() == 7);
    assert("resolution"@.len() == 10);
    assert("scan"@.len() == 4);
    assert("checkpoint"@.len() == 10);
    assert("resolution"@[0] == 'r');
    assert("checkpoint"@[0] == 'c');
}

/// What an operation is called.
spec fn operation_name(op: EntryOpModel) -> Seq<char> {
    match op {
        EntryOpModel::Cell(op) => cell_name(op),
        EntryOpModel::Resolution { .. } => "resolution"@,
        EntryOpModel::Scan { .. } => "scan"@,
        EntryOpModel::Checkpoint(_) => "checkpoint"@,
    }
}

proof fn form_is_named(op: EntryOpModel)
    ensures
        entry_codec::entry_op_form(op) is Object,
        canonical::member(entry_codec::entry_op_form(op)->Object_0, "op"@) == Some(
            CanonicalValueModel::String(operation_name(op)),
        ),
{
    match op {
        EntryOpModel::Cell(op) => cell_members_are(op),
        EntryOpModel::Resolution { anchor, scope, transition } => resolution_members_are(
            anchor,
            codec::path_form(scope),
            entry_codec::transition_form(transition),
        ),
        EntryOpModel::Scan { element, transition } => scan_members_are(
            element,
            entry_codec::scan_transition_form(transition),
        ),
        EntryOpModel::Checkpoint(c) => checkpoint_members_are(c),
    }
}

proof fn lifecycle_forms_are_distinct(a: EntryOpModel, b: EntryOpModel)
    requires
        operation_is_valid(a),
        operation_is_valid(b),
        !(a is Cell),
        !(b is Cell),
        entry_codec::entry_op_form(a) == entry_codec::entry_op_form(b),
    ensures
        a == b,
{
    form_is_named(a);
    form_is_named(b);
    op_names_are_apart();
    match (a, b) {
        (
            EntryOpModel::Resolution { anchor: p, scope: s, transition: t },
            EntryOpModel::Resolution { anchor: q, scope: r, transition: u },
        ) => {
            resolution_members_are(p, codec::path_form(s), entry_codec::transition_form(t));
            resolution_members_are(q, codec::path_form(r), entry_codec::transition_form(u));
            codec::path_reads_back(s, codec::path_form(r));
            codec::path_reads_back(r, codec::path_form(s));
            transition_forms_are_distinct(t, u);
        },
        (
            EntryOpModel::Scan { element: p, transition: t },
            EntryOpModel::Scan { element: q, transition: u },
        ) => {
            scan_members_are(p, entry_codec::scan_transition_form(t));
            scan_members_are(q, entry_codec::scan_transition_form(u));
            scan_forms_are_distinct(t, u);
        },
        (EntryOpModel::Checkpoint(x), EntryOpModel::Checkpoint(y)) => {
            checkpoint_forms_are_distinct(x, y);
        },
        _ => {},
    }
}

/// An operation whose counts fit JSON numbers has canonical bytes.
pub proof fn safe_operations_have_bytes(op: EntryOpModel)
    requires
        operation_is_valid(op),
        entry_codec::entry_op_is_safe(op),
    ensures
        canonical::jcs(entry_codec::entry_op_form(op)) is Ok,
        one_text::has_numerals(entry_codec::entry_op_form(op)),
{
    match op {
        EntryOpModel::Cell(c) => {
            if let OpModel::Put { state, .. } = c {
                match state {
                    CellStateModel::Value(CellValueModel::Many(vs)) => {
                        assert forall|i: int| 0 <= i < vs.len() implies codec::scalar_is_valid(
                            #[trigger] vs[i],
                        ) by {
                            assert(scalar_has_numerals(vs[i]));
                        }
                    },
                    _ => {},
                }
            }
            codec::op_reads_back(c);
            cell_form_has_numerals(c);
        },
        _ => {
            exact_forms::lifecycle_is_plain(op);
            one_text::exact_has_numerals(entry_codec::entry_op_form(op));
        },
    }
}

/// Different operations have different canonical bytes: what is hashed
/// tells them apart.
pub proof fn different_operations_have_different_bytes(a: EntryOpModel, b: EntryOpModel)
    requires
        operation_is_valid(a),
        operation_is_valid(b),
        entry_codec::entry_op_is_safe(a),
        entry_codec::entry_op_is_safe(b),
    ensures
        canonical::canonical(entry_codec::entry_op_form(a)) == canonical::canonical(entry_codec::entry_op_form(b)) ==> operations_alike(a, b),
{
    if canonical::canonical(entry_codec::entry_op_form(a)) == canonical::canonical(entry_codec::entry_op_form(b)) {
        safe_operations_have_bytes(a);
        safe_operations_have_bytes(b);
        one_text::equal_bytes_are_written_alike(entry_codec::entry_op_form(a), entry_codec::entry_op_form(b));
        form_is_named(a);
        form_is_named(b);
        op_names_are_apart();
        alike_members(entry_codec::entry_op_form(a)->Object_0, entry_codec::entry_op_form(b)->Object_0, "op"@);
        alike_texts(operation_name(a), operation_name(b));
        match (a, b) {
            (EntryOpModel::Cell(x), EntryOpModel::Cell(y)) => alike_cells(x, y),
            (EntryOpModel::Cell(x), _) => {},
            (_, EntryOpModel::Cell(y)) => {},
            _ => {
                exact_forms::lifecycle_is_plain(a);
                exact_forms::lifecycle_is_plain(b);
                one_text::exact_values_alike_are_equal(entry_codec::entry_op_form(a), entry_codec::entry_op_form(b));
                lifecycle_forms_are_distinct(a, b);
            },
        }
    }
}

/// Another origin or another note has other canonical bytes.
pub proof fn different_notes_have_different_bytes(
    a: OriginModel,
    m: Option<Seq<char>>,
    b: OriginModel,
    n: Option<Seq<char>>,
)
    requires
        entry_codec::origin_is_valid(a),
        entry_codec::origin_is_valid(b),
    ensures
        canonical::canonical(entry_codec::meta_form(a, m)) is Ok,
        canonical::canonical(entry_codec::meta_form(a, m)) == canonical::canonical(entry_codec::meta_form(b, n)) ==> a == b && m == n,
{
    exact_forms::meta_is_plain(a, m);
    exact_forms::meta_is_plain(b, n);
    if canonical::canonical(entry_codec::meta_form(a, m)) == canonical::canonical(entry_codec::meta_form(b, n)) {
        one_text::different_texts_have_different_bytes(
            canonical::jcs(entry_codec::meta_form(a, m))->Ok_0,
            canonical::jcs(entry_codec::meta_form(b, n))->Ok_0,
        );
        one_text::different_values_have_different_texts(entry_codec::meta_form(a, m), entry_codec::meta_form(b, n));
        notes_have_their_own_forms(a, m, b, n);
    }
}

proof fn notes_have_their_own_forms(
    a: OriginModel,
    m: Option<Seq<char>>,
    b: OriginModel,
    n: Option<Seq<char>>,
)
    requires
        entry_codec::origin_is_valid(a),
        entry_codec::origin_is_valid(b),
    ensures
        entry_codec::meta_form(a, m) == entry_codec::meta_form(b, n) ==> a == b && m == n,
{
    reveal_strlit("origin");
    reveal_strlit("note");
    assert("origin"@.len() == 6);
    assert("note"@.len() == 4);
    codec::members2_are("origin"@, entry_codec::origin_form(a), "note"@, entry_codec::optional_form(m));
    codec::members2_are("origin"@, entry_codec::origin_form(b), "note"@, entry_codec::optional_form(n));
    if entry_codec::meta_form(a, m) == entry_codec::meta_form(b, n) {
        let x = entry_codec::meta_form(a, m)->Object_0;
        assert(canonical::member(x, "origin"@) == Some(entry_codec::origin_form(b)));
        assert(canonical::member(x, "note"@) == Some(entry_codec::optional_form(n)));
        entry_codec::origin_reads_back(a);
        entry_codec::origin_reads_back(b);
        optional_forms_are_distinct(m, n);
    }
}

/// What the types of an envelope's parts promise.
pub open spec fn envelope_is_valid(e: EnvelopeModel) -> bool {
    time::instant_of(time::timestamp_text(e.timestamp)) == Some(e.timestamp)
}

/// Different envelopes have different canonical bytes.
pub proof fn different_envelopes_have_different_bytes(a: EnvelopeModel, b: EnvelopeModel)
    requires
        envelope_is_valid(a),
        envelope_is_valid(b),
        entry::hashable(a),
        entry::hashable(b),
    ensures
        canonical::canonical(entry_codec::envelope_form(a)) is Ok,
        canonical::canonical(entry_codec::envelope_form(a)) == canonical::canonical(entry_codec::envelope_form(b)) ==> a == b,
{
    exact_forms::envelope_is_plain(a);
    exact_forms::envelope_is_plain(b);
    if canonical::canonical(entry_codec::envelope_form(a)) == canonical::canonical(entry_codec::envelope_form(b)) {
        one_text::different_texts_have_different_bytes(
            canonical::jcs(entry_codec::envelope_form(a))->Ok_0,
            canonical::jcs(entry_codec::envelope_form(b))->Ok_0,
        );
        one_text::different_values_have_different_texts(entry_codec::envelope_form(a), entry_codec::envelope_form(b));
        envelope_members_are(a);
        envelope_members_are(b);
        counts_are_distinct(a.seq, b.seq);
        counts_are_distinct(a.base_version, b.base_version);
        hash_texts_are_distinct(a.prev, b.prev);
        hash_texts_are_distinct(a.content_hash, b.content_hash);
        entry_codec::kind_reads_back(a.actor.kind);
        entry_codec::kind_reads_back(b.actor.kind);
    }
}

proof fn envelope_members_are(e: EnvelopeModel)
    ensures
        entry_codec::envelope_form(e) is Object,
        ({
            let m = entry_codec::envelope_form(e)->Object_0;
            &&& canonical::member(m, "seq"@) == Some(codec::count_form(e.seq))
            &&& canonical::member(m, "base_version"@) == Some(codec::count_form(e.base_version))
            &&& canonical::member(m, "revision"@) == Some(CanonicalValueModel::String(e.revision))
            &&& canonical::member(m, "prev"@) == Some(CanonicalValueModel::String(canonical::hash_text(e.prev)))
            &&& canonical::member(m, "actor"@) == Some(CanonicalValueModel::String(e.actor.id))
            &&& canonical::member(m, "actor_kind"@) == Some(
                CanonicalValueModel::String(entry_codec::kind_name(e.actor.kind)),
            )
            &&& canonical::member(m, "timestamp"@) == Some(
                CanonicalValueModel::String(time::timestamp_text(e.timestamp)),
            )
            &&& canonical::member(m, "content"@) == Some(
                CanonicalValueModel::String(canonical::hash_text(e.content_hash)),
            )
        }),
{
    reveal_strlit("seq");
    reveal_strlit("prev");
    reveal_strlit("actor");
    reveal_strlit("actor_kind");
    reveal_strlit("timestamp");
    reveal_strlit("revision");
    reveal_strlit("base_version");
    reveal_strlit("content");
    assert("seq"@.len() == 3);
    assert("prev"@.len() == 4);
    assert("actor"@.len() == 5);
    assert("actor_kind"@.len() == 10);
    assert("timestamp"@.len() == 9);
    assert("revision"@.len() == 8);
    assert("base_version"@.len() == 12);
    assert("content"@.len() == 7);
    entry_codec::head_members_are(e);
    canonical::with_member_is(
        entry_codec::head_members(e),
        "content"@,
        CanonicalValueModel::String(canonical::hash_text(e.content_hash)),
    );
}

} // verus!
