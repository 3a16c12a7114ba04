//! The forms that entries are hashed in hold no doubles, but for the
//! geometry that a cell may hold, and have canonical texts.

use vstd::prelude::*;
use crate::canonical;
use crate::codec;
use crate::collections;
use crate::entry;
use crate::entry_codec;
use crate::one_text;
use crate::time;
use crate::canonical::CanonicalValueModel;
use crate::checkpoint::CheckpointModel;
use crate::codec::op;
use crate::entry::{DerivationModel, EntryOpModel, EnvelopeModel, OriginModel};
use crate::ids::{ColumnId, GroupId, PathSegModel};
use crate::resolution::{
    AbandonReason, ExpectedResolutionModel, OutcomeModel, Resolution, TransitionModel,
};
use crate::scan::ScanTransitionModel;
use crate::value::AttachmentRefModel;

verus! {

/// Whether a value holds no doubles and has a canonical text.
pub open spec fn is_plain(v: CanonicalValueModel) -> bool {
    one_text::is_exact(v) && canonical::jcs(v) is Ok
}

spec fn all_exact(m: Seq<(Seq<char>, CanonicalValueModel)>) -> bool {
    forall|i: int| 0 <= i < m.len() ==> one_text::is_exact((#[trigger] m[i]).1)
}

proof fn exact_with_member(
    m: Seq<(Seq<char>, CanonicalValueModel)>,
    k: Seq<char>,
    v: CanonicalValueModel,
)
    requires
        all_exact(m),
        one_text::is_exact(v),
    ensures
        all_exact(canonical::with_member(m, k, v)),
{
    let p = canonical::key_place(collections::firsts(m), k);
    codec::key_place_bounds(collections::firsts(m), k);
    let w = canonical::with_member(m, k, v);
    assert forall|i: int| 0 <= i < w.len() implies one_text::is_exact((#[trigger] w[i]).1) by {
        if p < m.len() && m[p].0 == k {
            if i != p {
                assert(w[i] == m[i]);
            }
        } else if i < p {
            assert(w[i] == m[i]);
        } else if i > p {
            assert(w[i] == m[i - 1]);
        }
    }
}

proof fn exact2(k1: Seq<char>, v1: CanonicalValueModel, k2: Seq<char>, v2: CanonicalValueModel)
    requires
        one_text::is_exact(v1),
        one_text::is_exact(v2),
    ensures
        all_exact(codec::members2(k1, v1, k2, v2)),
        one_text::is_exact(CanonicalValueModel::Object(codec::members2(k1, v1, k2, v2))),
{
    exact_with_member(codec::no_members(), k1, v1);
    exact_with_member(codec::members1(k1, v1), k2, v2);
}

proof fn exact3(
    k1: Seq<char>,
    v1: CanonicalValueModel,
    k2: Seq<char>,
    v2: CanonicalValueModel,
    k3: Seq<char>,
    v3: CanonicalValueModel,
)
    requires
        one_text::is_exact(v1),
        one_text::is_exact(v2),
        one_text::is_exact(v3),
    ensures
        all_exact(codec::members3(k1, v1, k2, v2, k3, v3)),
        one_text::is_exact(CanonicalValueModel::Object(codec::members3(k1, v1, k2, v2, k3, v3))),
{
    exact2(k1, v1, k2, v2);
    exact_with_member(codec::members2(k1, v1, k2, v2), k3, v3);
}

proof fn exact4(
    k1: Seq<char>,
    v1: CanonicalValueModel,
    k2: Seq<char>,
    v2: CanonicalValueModel,
    k3: Seq<char>,
    v3: CanonicalValueModel,
    k4: Seq<char>,
    v4: CanonicalValueModel,
)
    requires
        one_text::is_exact(v1),
        one_text::is_exact(v2),
        one_text::is_exact(v3),
        one_text::is_exact(v4),
    ensures
        all_exact(codec::members4(k1, v1, k2, v2, k3, v3, k4, v4)),
        one_text::is_exact(CanonicalValueModel::Object(codec::members4(k1, v1, k2, v2, k3, v3, k4, v4))),
{
    exact3(k1, v1, k2, v2, k3, v3);
    exact_with_member(codec::members3(k1, v1, k2, v2, k3, v3), k4, v4);
}

proof fn exact5(
    k1: Seq<char>,
    v1: CanonicalValueModel,
    k2: Seq<char>,
    v2: CanonicalValueModel,
    k3: Seq<char>,
    v3: CanonicalValueModel,
    k4: Seq<char>,
    v4: CanonicalValueModel,
    k5: Seq<char>,
    v5: CanonicalValueModel,
)
    requires
        one_text::is_exact(v1),
        one_text::is_exact(v2),
        one_text::is_exact(v3),
        one_text::is_exact(v4),
        one_text::is_exact(v5),
    ensures
        all_exact(codec::members5(k1, v1, k2, v2, k3, v3, k4, v4, k5, v5)),
        one_text::is_exact(CanonicalValueModel::Object(codec::members5(k1, v1, k2, v2, k3, v3, k4, v4, k5, v5))),
{
    exact4(k1, v1, k2, v2, k3, v3, k4, v4);
    exact_with_member(codec::members4(k1, v1, k2, v2, k3, v3, k4, v4), k5, v5);
}

proof fn tagged_is_plain(tag: Seq<char>, v: CanonicalValueModel)
    requires
        is_plain(v),
    ensures
        is_plain(codec::tagged(tag, v)),
{
    codec::tagged_reads_back(tag, v, v);
    let m = seq![(tag, v)];
    assert forall|i: int| 0 <= i < m.len() implies one_text::is_exact((#[trigger] m[i]).1) by {}
}

/// The form of a row path is plain.
pub proof fn path_is_plain(p: Seq<PathSegModel>)
    ensures
        is_plain(codec::path_form(p)),
{
    codec::path_reads_back(p, CanonicalValueModel::Null);
    let a = codec::path_form(p)->Array_0;
    assert forall|i: int| 0 <= i < a.len() implies one_text::is_exact(#[trigger] a[i]) by {
        let b = codec::segment_form(p[i])->Array_0;
        assert(a[i] == codec::segment_form(p[i]));
        assert forall|j: int| 0 <= j < b.len() implies one_text::is_exact(#[trigger] b[j]) by {}
    }
}

/// A list of texts is plain.
pub proof fn texts_are_plain(t: Seq<Seq<char>>)
    ensures
        is_plain(codec::texts_form(t)),
{
    codec::texts_read_back(t);
    let a = codec::texts_form(t)->Array_0;
    assert forall|i: int| 0 <= i < a.len() implies one_text::is_exact(#[trigger] a[i]) by {}
}

proof fn derivation_is_plain(d: DerivationModel)
    ensures
        is_plain(entry_codec::derivation_form(d)),
{
    reveal_strlit("source");
    reveal_strlit("source_version");
    reveal_strlit("mapping_version");
    reveal_strlit("snapshot_ref");
    assert("source"@.len() == 6);
    assert("source_version"@.len() == 14);
    assert("mapping_version"@.len() == 15);
    assert("snapshot_ref"@.len() == 12);
    codec::members4_are(
        "source"@,
        CanonicalValueModel::String(d.source),
        "source_version"@,
        entry_codec::version_form(d.source_version),
        "mapping_version"@,
        entry_codec::version_form(d.mapping_version),
        "snapshot_ref"@,
        CanonicalValueModel::String(canonical::hash_text(d.snapshot_ref)),
    );
    exact4(
        "source"@,
        CanonicalValueModel::String(d.source),
        "source_version"@,
        entry_codec::version_form(d.source_version),
        "mapping_version"@,
        entry_codec::version_form(d.mapping_version),
        "snapshot_ref"@,
        CanonicalValueModel::String(canonical::hash_text(d.snapshot_ref)),
    );
}

proof fn origin_is_plain(o: OriginModel)
    ensures
        is_plain(entry_codec::origin_form(o)),
{
    match o {
        OriginModel::Entered => {},
        OriginModel::Derived(d) => {
            derivation_is_plain(d);
            tagged_is_plain("derived"@, entry_codec::derivation_form(d));
        },
        OriginModel::Overridden { superseded } => match superseded {
            None => tagged_is_plain("overridden"@, CanonicalValueModel::Null),
            Some(d) => {
                derivation_is_plain(d);
                tagged_is_plain("overridden"@, entry_codec::derivation_form(d));
            },
        },
    }
}

/// The form of an origin and a note is plain.
pub proof fn meta_is_plain(o: OriginModel, note: Option<Seq<char>>)
    ensures
        is_plain(entry_codec::meta_form(o, note)),
{
    reveal_strlit("origin");
    reveal_strlit("note");
    assert("origin"@.len() == 6);
    assert("note"@.len() == 4);
    origin_is_plain(o);
    codec::members2_are("origin"@, entry_codec::origin_form(o), "note"@, entry_codec::optional_form(note));
    exact2("origin"@, entry_codec::origin_form(o), "note"@, entry_codec::optional_form(note));
}

proof fn outcome_is_plain(o: OutcomeModel)
    ensures
        is_plain(entry_codec::outcome_form(o)),
{
    reveal_strlit("attempts");
    reveal_strlit("last_error");
    assert("attempts"@.len() == 8);
    assert("last_error"@.len() == 10);
    codec::members2_are(
        "attempts"@,
        entry_codec::version_form(o.attempts),
        "last_error"@,
        entry_codec::optional_form(o.last_error),
    );
    exact2("attempts"@, entry_codec::version_form(o.attempts), "last_error"@, entry_codec::optional_form(o.last_error));
}

proof fn abandonment_is_plain(r: AbandonReason, o: OutcomeModel)
    ensures
        is_plain(entry_codec::abandon_form(r, o)),
{
    reveal_strlit("reason");
    reveal_strlit("outcome");
    assert("reason"@.len() == 6);
    assert("outcome"@.len() == 7);
    outcome_is_plain(o);
    codec::members2_are(
        "reason"@,
        CanonicalValueModel::String(entry_codec::reason_name(r)),
        "outcome"@,
        entry_codec::outcome_form(o),
    );
    exact2("reason"@, CanonicalValueModel::String(entry_codec::reason_name(r)), "outcome"@, entry_codec::outcome_form(o));
}

proof fn transition_is_plain(t: TransitionModel)
    ensures
        is_plain(entry_codec::transition_form(t)),
{
    let inner = (codec::tag_of(entry_codec::transition_form(t))->0).1;
    match t {
        TransitionModel::Request { resolver, resolver_version, mapping_version } => {
            reveal_strlit("resolver");
            reveal_strlit("resolver_version");
            reveal_strlit("mapping_version");
            assert("resolver"@.len() == 8);
            assert("resolver_version"@.len() == 16);
            assert("mapping_version"@.len() == 15);
            codec::members3_are(
                "resolver"@,
                CanonicalValueModel::String(resolver),
                "resolver_version"@,
                entry_codec::version_form(resolver_version),
                "mapping_version"@,
                entry_codec::version_form(mapping_version),
            );
            exact3(
                "resolver"@,
                CanonicalValueModel::String(resolver),
                "resolver_version"@,
                entry_codec::version_form(resolver_version),
                "mapping_version"@,
                entry_codec::version_form(mapping_version),
            );
            tagged_is_plain("request"@, inner);
        },
        TransitionModel::Land { snapshot, outcome } => {
            reveal_strlit("snapshot");
            reveal_strlit("outcome");
            assert("snapshot"@.len() == 8);
            assert("outcome"@.len() == 7);
            outcome_is_plain(outcome);
            codec::members2_are(
                "snapshot"@,
                CanonicalValueModel::String(canonical::hash_text(snapshot)),
                "outcome"@,
                entry_codec::outcome_form(outcome),
            );
            exact2(
                "snapshot"@,
                CanonicalValueModel::String(canonical::hash_text(snapshot)),
                "outcome"@,
                entry_codec::outcome_form(outcome),
            );
            tagged_is_plain("land"@, inner);
        },
        TransitionModel::NotFound { outcome } => {
            outcome_is_plain(outcome);
            tagged_is_plain("not_found"@, inner);
        },
        TransitionModel::Ambiguous { outcome } => {
            outcome_is_plain(outcome);
            tagged_is_plain("ambiguous"@, inner);
        },
        TransitionModel::Failed { outcome } => {
            outcome_is_plain(outcome);
            tagged_is_plain("failed"@, inner);
        },
        TransitionModel::Abandon { reason, outcome } => {
            abandonment_is_plain(reason, outcome);
            tagged_is_plain("abandon"@, inner);
        },
    }
}

proof fn scan_is_plain(t: ScanTransitionModel)
    ensures
        is_plain(entry_codec::scan_transition_form(t)),
{
    let inner = (codec::tag_of(entry_codec::scan_transition_form(t))->0).1;
    match t {
        ScanTransitionModel::Request { hash } => tagged_is_plain("request"@, inner),
        ScanTransitionModel::Clean { outcome } => {
            outcome_is_plain(outcome);
            tagged_is_plain("clean"@, inner);
        },
        ScanTransitionModel::Infected { threat, outcome } => {
            reveal_strlit("threat");
            reveal_strlit("outcome");
            assert("threat"@.len() == 6);
            assert("outcome"@.len() == 7);
            outcome_is_plain(outcome);
            codec::members2_are("threat"@, entry_codec::optional_form(threat), "outcome"@, entry_codec::outcome_form(outcome));
            exact2("threat"@, entry_codec::optional_form(threat), "outcome"@, entry_codec::outcome_form(outcome));
            tagged_is_plain("infected"@, inner);
        },
        ScanTransitionModel::Failed { outcome } => {
            outcome_is_plain(outcome);
            tagged_is_plain("failed"@, inner);
        },
        ScanTransitionModel::Abandon { reason, outcome } => {
            abandonment_is_plain(reason, outcome);
            tagged_is_plain("abandon"@, inner);
        },
    }
}

proof fn expectation_is_plain(e: ExpectedResolutionModel)
    ensures
        is_plain(entry_codec::expected_form(e)),
{
    reveal_strlit("anchor");
    reveal_strlit("scope");
    reveal_strlit("resolver");
    reveal_strlit("resolver_version");
    reveal_strlit("mapping_version");
    assert("anchor"@.len() == 6);
    assert("scope"@.len() == 5);
    assert("resolver"@.len() == 8);
    assert("resolver_version"@.len() == 16);
    assert("mapping_version"@.len() == 15);
    path_is_plain(e.scope);
    codec::members5_are(
        "anchor"@,
        CanonicalValueModel::String(e.anchor),
        "scope"@,
        codec::path_form(e.scope),
        "resolver"@,
        CanonicalValueModel::String(e.resolver),
        "resolver_version"@,
        entry_codec::version_form(e.resolver_version),
        "mapping_version"@,
        entry_codec::version_form(e.mapping_version),
    );
    exact5(
        "anchor"@,
        CanonicalValueModel::String(e.anchor),
        "scope"@,
        codec::path_form(e.scope),
        "resolver"@,
        CanonicalValueModel::String(e.resolver),
        "resolver_version"@,
        entry_codec::version_form(e.resolver_version),
        "mapping_version"@,
        entry_codec::version_form(e.mapping_version),
    );
}

proof fn expectations_are_plain(list: Seq<ExpectedResolutionModel>)
    ensures
        is_plain(entry_codec::expected_list_form(list)),
{
    let a = entry_codec::expected_list_form(list)->Array_0;
    assert forall|i: int| 0 <= i < a.len() implies one_text::is_exact(#[trigger] a[i]) && canonical::jcs(
        a[i],
    ) is Ok by {
        expectation_is_plain(list[i]);
    }
    codec::items_encode(a);
}

proof fn checkpoint_is_plain(c: CheckpointModel)
    ensures
        is_plain(CanonicalValueModel::Object(entry_codec::checkpoint_members(c))),
{
    reveal_strlit("op");
    reveal_strlit("name");
    reveal_strlit("reading_revision");
    reveal_strlit("expected");
    reveal_strlit("frozen_columns");
    reveal_strlit("frozen_groups");
    assert("op"@.len() == 2);
    assert("name"@.len() == 4);
    assert("reading_revision"@.len() == 16);
    assert("expected"@.len() == 8);
    assert("frozen_columns"@.len() == 14);
    assert("frozen_groups"@.len() == 13);
    let columns = codec::texts_form(collections::key_order::<ColumnId>(c.frozen_columns));
    let groups = codec::texts_form(collections::key_order::<GroupId>(c.frozen_groups));
    expectations_are_plain(c.expected);
    texts_are_plain(collections::key_order::<ColumnId>(c.frozen_columns));
    texts_are_plain(collections::key_order::<GroupId>(c.frozen_groups));
    codec::members5_are(
        "op"@,
        CanonicalValueModel::String("checkpoint"@),
        "name"@,
        CanonicalValueModel::String(c.name),
        "reading_revision"@,
        CanonicalValueModel::String(c.reading_revision),
        "expected"@,
        entry_codec::expected_list_form(c.expected),
        "frozen_columns"@,
        columns,
    );
    exact5(
        "op"@,
        CanonicalValueModel::String("checkpoint"@),
        "name"@,
        CanonicalValueModel::String(c.name),
        "reading_revision"@,
        CanonicalValueModel::String(c.reading_revision),
        "expected"@,
        entry_codec::expected_list_form(c.expected),
        "frozen_columns"@,
        columns,
    );
    let five = codec::members5(
        "op"@,
        CanonicalValueModel::String("checkpoint"@),
        "name"@,
        CanonicalValueModel::String(c.name),
        "reading_revision"@,
        CanonicalValueModel::String(c.reading_revision),
        "expected"@,
        entry_codec::expected_list_form(c.expected),
        "frozen_columns"@,
        columns,
    );
    exact_with_member(five, "frozen_groups"@, groups);
    codec::member_encodes(five, "frozen_groups"@, groups);
}

/// The form of what an entry carries besides changes to the values is
/// plain.
pub proof fn lifecycle_is_plain(op: EntryOpModel)
    requires
        !(op is Cell),
    ensures
        is_plain(entry_codec::entry_op_form(op)),
{
    match op {
        EntryOpModel::Resolution { anchor, scope, transition } => {
            reveal_strlit("op");
            reveal_strlit("anchor");
            reveal_strlit("scope");
            reveal_strlit("transition");
            assert("op"@.len() == 2);
            assert("anchor"@.len() == 6);
            assert("scope"@.len() == 5);
            assert("transition"@.len() == 10);
            path_is_plain(scope);
            transition_is_plain(transition);
            codec::members4_are(
                "op"@,
                CanonicalValueModel::String("resolution"@),
                "anchor"@,
                CanonicalValueModel::String(anchor),
                "scope"@,
                codec::path_form(scope),
                "transition"@,
                entry_codec::transition_form(transition),
            );
            exact4(
                "op"@,
                CanonicalValueModel::String("resolution"@),
                "anchor"@,
                CanonicalValueModel::String(anchor),
                "scope"@,
                codec::path_form(scope),
                "transition"@,
                entry_codec::transition_form(transition),
            );
        },
        EntryOpModel::Scan { element, transition } => {
            reveal_strlit("op");
            reveal_strlit("element");
            reveal_strlit("transition");
            assert("op"@.len() == 2);
            assert("element"@.len() == 7);
            assert("transition"@.len() == 10);
            scan_is_plain(transition);
            codec::members3_are(
                "op"@,
                CanonicalValueModel::String("scan"@),
                "element"@,
                CanonicalValueModel::String(element),
                "transition"@,
                entry_codec::scan_transition_form(transition),
            );
            exact3(
                "op"@,
                CanonicalValueModel::String("scan"@),
                "element"@,
                CanonicalValueModel::String(element),
                "transition"@,
                entry_codec::scan_transition_form(transition),
            );
        },
        EntryOpModel::Checkpoint(c) => checkpoint_is_plain(c),
        _ => {},
    }
}

/// The form of an attachment holds no doubles.
pub proof fn attachment_is_exact(a: AttachmentRefModel)
    ensures
        one_text::is_exact(CanonicalValueModel::Object(codec::attachment_members(a))),
{
    exact5(
        "id"@,
        CanonicalValueModel::String(a.id),
        "hash"@,
        CanonicalValueModel::String(canonical::hash_text(a.hash)),
        "filename"@,
        CanonicalValueModel::String(a.filename),
        "content_type"@,
        CanonicalValueModel::String(a.content_type),
        "byte_size"@,
        codec::count_form(a.byte_size),
    );
}

/// The form of an envelope whose counts fit JSON numbers is plain.
pub proof fn envelope_is_plain(e: EnvelopeModel)
    requires
        entry::hashable(e),
    ensures
        is_plain(entry_codec::envelope_form(e)),
{
    reveal_strlit("seq");
    reveal_strlit("prev");
    reveal_strlit("actor");
    reveal_strlit("actor_kind");
    reveal_strlit("timestamp");
    reveal_strlit("revision");
    reveal_strlit("base_version");
    reveal_strlit("content");
    assert("seq"@.len() == 3);
    assert("prev"@.len() == 4);
    assert("actor"@.len() == 5);
    assert("actor_kind"@.len() == 10);
    assert("timestamp"@.len() == 9);
    assert("revision"@.len() == 8);
    assert("base_version"@.len() == 12);
    assert("content"@.len() == 7);
    let five = codec::members5(
        "seq"@,
        codec::count_form(e.seq),
        "prev"@,
        CanonicalValueModel::String(canonical::hash_text(e.prev)),
        "actor"@,
        CanonicalValueModel::String(e.actor.id),
        "actor_kind"@,
        CanonicalValueModel::String(entry_codec::kind_name(e.actor.kind)),
        "timestamp"@,
        CanonicalValueModel::String(time::timestamp_text(e.timestamp)),
    );
    codec::members5_are(
        "seq"@,
        codec::count_form(e.seq),
        "prev"@,
        CanonicalValueModel::String(canonical::hash_text(e.prev)),
        "actor"@,
        CanonicalValueModel::String(e.actor.id),
        "actor_kind"@,
        CanonicalValueModel::String(entry_codec::kind_name(e.actor.kind)),
        "timestamp"@,
        CanonicalValueModel::String(time::timestamp_text(e.timestamp)),
    );
    exact5(
        "seq"@,
        codec::count_form(e.seq),
        "prev"@,
        CanonicalValueModel::String(canonical::hash_text(e.prev)),
        "actor"@,
        CanonicalValueModel::String(e.actor.id),
        "actor_kind"@,
        CanonicalValueModel::String(entry_codec::kind_name(e.actor.kind)),
        "timestamp"@,
        CanonicalValueModel::String(time::timestamp_text(e.timestamp)),
    );
    let six = canonical::with_member(five, "revision"@, CanonicalValueModel::String(e.revision));
    exact_with_member(five, "revision"@, CanonicalValueModel::String(e.revision));
    codec::member_encodes(five, "revision"@, CanonicalValueModel::String(e.revision));
    canonical::with_member_is(five, "revision"@, CanonicalValueModel::String(e.revision));
    let seven = canonical::with_member(six, "base_version"@, codec::count_form(e.base_version));
    exact_with_member(six, "base_version"@, codec::count_form(e.base_version));
    codec::member_encodes(six, "base_version"@, codec::count_form(e.base_version));
    canonical::with_member_is(six, "base_version"@, codec::count_form(e.base_version));
    let content = CanonicalValueModel::String(canonical::hash_text(e.content_hash));
    exact_with_member(seven, "content"@, content);
    codec::member_encodes(seven, "content"@, content);
}

} // verus!
