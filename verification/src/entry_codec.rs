//! Canonical forms of what a log entry carries besides changes to the
//! values: origins, lifecycle steps, checkpoints; and of whole entries.

use vstd::prelude::*;
use crate::canonical;
use crate::codec;
use crate::collections;
use crate::entry;
use crate::text;
use crate::time;
use crate::canonical::{
    CanonicalValue, CanonicalValueModel, MAX_SAFE_INTEGER, Members, Salt, same_text,
};
use crate::checkpoint::{Checkpoint, CheckpointModel};
use crate::codec::{
    RecordDecodeError, get_count, get_hash, get_member, get_str, get_version, malformed,
    malformed_key, only_keys, op, op_from, path_canonical, put, put_text, single_key, tagged_value,
    unreadable,
};
use crate::collections::OrderedSet;
use crate::entry::{
    Actor, ActorKind, ActorModel, Derivation, DerivationModel, Entry, EntryContent,
    EntryContentModel, EntryModel, EntryOp, EntryOpModel, EntrySalts, EntrySaltsModel, Envelope,
    EnvelopeModel, Origin, OriginModel,
};
use crate::ids::{ColumnId, GroupId, ResolverId, RevisionId};
use crate::resolution::{
    AbandonReason, ExpectedResolution, ExpectedResolutionModel, Outcome, OutcomeModel, Resolution,
    Transition, TransitionModel,
};
use crate::scan::{ScanTransition, ScanTransitionModel};
use crate::text::{chars_of, digits_text, push_hex, push_text, read_hex, text_of};
use crate::time::Instant;
use vstd::utf8::*;

verus! {

/// A text or null.
pub open spec fn optional_form(t: Option<Seq<char>>) -> CanonicalValueModel {
    match t {
        Some(s) => CanonicalValueModel::String(s),
        None => CanonicalValueModel::Null,
    }
}

pub open spec fn optional_of(v: CanonicalValueModel) -> Option<Option<Seq<char>>> {
    match v {
        CanonicalValueModel::Null => Some(None),
        CanonicalValueModel::String(s) => Some(Some(s)),
        _ => None,
    }
}

fn optional_canonical(t: &Option<String>) -> (r: CanonicalValue)
    ensures
        r@ == optional_form(t.deep_view()),
{
    match t {
        Some(s) => CanonicalValue::String(s.clone()),
        None => CanonicalValue::Null,
    }
}

fn note_from(v: &CanonicalValue) -> (r: Result<Option<String>, RecordDecodeError>)
    ensures
        match r {
            Ok(t) => optional_of(v@) == Some(t.deep_view()),
            Err(e) => optional_of(v@) is None && e.0@ == "note must be a string or null"@,
        },
{
    match v {
        CanonicalValue::Null => Ok(None),
        CanonicalValue::String(s) => Ok(Some(s.clone())),
        _ => Err(malformed("note must be a string or null")),
    }
}

/// A 32-bit version as a JSON number.
pub open spec fn version_form(n: u32) -> CanonicalValueModel {
    CanonicalValueModel::Int(n as i64)
}

pub open spec fn derivation_form(d: DerivationModel) -> CanonicalValueModel {
    CanonicalValueModel::Object(
        codec::members4(
            "source"@,
            CanonicalValueModel::String(d.source),
            "source_version"@,
            version_form(d.source_version),
            "mapping_version"@,
            version_form(d.mapping_version),
            "snapshot_ref"@,
            CanonicalValueModel::String(canonical::hash_text(d.snapshot_ref)),
        ),
    )
}

/// The keys of a derivation.
pub open spec fn derivation_keys() -> Seq<Seq<char>> {
    seq!["source"@, "source_version"@, "mapping_version"@, "snapshot_ref"@]
}

/// What is wrong with a value that is no derivation's form.
pub open spec fn derivation_fault(v: CanonicalValueModel) -> Seq<char> {
    match v {
        CanonicalValueModel::Object(m) => if !codec::has_only(m, derivation_keys()) {
            codec::extra_fault(m, derivation_keys())
        } else if codec::text_member(m, "source"@) is None {
            codec::text_fault("source"@)
        } else if codec::version_member(m, "source_version"@) is None {
            codec::count_fault(m, "source_version"@, "bad version"@)
        } else if codec::version_member(m, "mapping_version"@) is None {
            codec::count_fault(m, "mapping_version"@, "bad version"@)
        } else {
            codec::hash_fault(m, "snapshot_ref"@, "bad snapshot ref"@)
        },
        _ => "expected an object"@,
    }
}

pub open spec fn derivation_of(v: CanonicalValueModel) -> Option<DerivationModel> {
    match v {
        CanonicalValueModel::Object(m) => match (
            codec::text_member(m, "source"@),
            codec::version_member(m, "source_version"@),
            codec::version_member(m, "mapping_version"@),
            codec::hash_member(m, "snapshot_ref"@),
        ) {
            (
                Some(source),
                Some(source_version),
                Some(mapping_version),
                Some(snapshot_ref),
            ) if codec::has_only(m, derivation_keys()) => Some(
                DerivationModel { source, source_version, mapping_version, snapshot_ref },
            ),
            _ => None,
        },
        _ => None,
    }
}

/// A derivation reads back from its form.
pub proof fn derivation_reads_back(d: DerivationModel)
    requires
        d.snapshot_ref.len() == 32,
    ensures
        derivation_of(derivation_form(d)) == Some(d),
        canonical::jcs(derivation_form(d)) is Ok,
{
    reveal_strlit("source");
    reveal_strlit("source_version");
    reveal_strlit("mapping_version");
    reveal_strlit("snapshot_ref");
    assert("source"@.len() == 6);
    assert("source_version"@.len() == 14);
    assert("mapping_version"@.len() == 15);
    assert("snapshot_ref"@.len() == 12);
    canonical::hash_text_reads_back(d.snapshot_ref, d.source);
    codec::members4_are(
        "source"@,
        CanonicalValueModel::String(d.source),
        "source_version"@,
        version_form(d.source_version),
        "mapping_version"@,
        version_form(d.mapping_version),
        "snapshot_ref"@,
        CanonicalValueModel::String(canonical::hash_text(d.snapshot_ref)),
    );
}

fn derivation_canonical(d: &Derivation) -> (r: CanonicalValue)
    ensures
        r@ == derivation_form(d@),
        derivation_of(r@) == Some(d@),
        canonical::jcs(r@) is Ok,
{
    let mut m = Members::new();
    put_text(&mut m, "source", d.source.as_str());
    put(&mut m, "source_version", CanonicalValue::Int(d.source_version as i64));
    put(&mut m, "mapping_version", CanonicalValue::Int(d.mapping_version as i64));
    put_text(&mut m, "snapshot_ref", d.snapshot_ref.to_string().as_str());
    proof {
        derivation_reads_back(d@);
    }
    CanonicalValue::Object(m)
}

fn derivation_from(v: &CanonicalValue) -> (r: Result<Derivation, RecordDecodeError>)
    ensures
        match r {
            Ok(d) => derivation_of(v@) == Some(d@),
            Err(e) => derivation_of(v@) is None && e.0@ == derivation_fault(v@),
        },
{
    let m = match v {
        CanonicalValue::Object(m) => m,
        _ => {
            return Err(malformed("expected an object"));
        },
    };
    let keys: [&str; 4] = ["source", "source_version", "mapping_version", "snapshot_ref"];
    assert(codec::texts_at(keys@) =~= derivation_keys());
    if let Err(e) = only_keys(m, &keys) {
        return Err(e);
    }
    match (
        get_str(m, "source"),
        get_version(m, "source_version"),
        get_version(m, "mapping_version"),
        get_hash(m, "snapshot_ref", "bad snapshot ref"),
    ) {
        (Ok(source), Ok(source_version), Ok(mapping_version), Ok(snapshot_ref)) => Ok(
            Derivation {
                source: ResolverId::new(source.as_str()),
                source_version,
                mapping_version,
                snapshot_ref,
            },
        ),
        (Err(e), _, _, _) => Err(e),
        (_, Err(e), _, _) => Err(e),
        (_, _, Err(e), _) => Err(e),
        (_, _, _, Err(e)) => Err(e),
    }
}

pub open spec fn origin_form(o: OriginModel) -> CanonicalValueModel {
    match o {
        OriginModel::Entered => CanonicalValueModel::String("entered"@),
        OriginModel::Derived(d) => codec::tagged("derived"@, derivation_form(d)),
        OriginModel::Overridden { superseded } => codec::tagged(
            "overridden"@,
            match superseded {
                None => CanonicalValueModel::Null,
                Some(d) => derivation_form(d),
            },
        ),
    }
}

/// The origin that a value spells, if it is an origin's form.
pub open spec fn origin_of(v: CanonicalValueModel) -> Option<OriginModel> {
    if v == CanonicalValueModel::String("entered"@) {
        Some(OriginModel::Entered)
    } else {
        match codec::tag_of(v) {
            Some((k, inner)) => if k == "derived"@ {
                match derivation_of(inner) {
                    Some(d) => Some(OriginModel::Derived(d)),
                    None => None,
                }
            } else if k == "overridden"@ {
                match inner {
                    CanonicalValueModel::Null => Some(
                        OriginModel::Overridden { superseded: None },
                    ),
                    _ => match derivation_of(inner) {
                        Some(d) => Some(OriginModel::Overridden { superseded: Some(d) }),
                        None => None,
                    },
                }
            } else {
                None
            },
            None => None,
        }
    }
}

/// What is wrong with a value that is no origin's form.
pub open spec fn origin_fault(v: CanonicalValueModel) -> Seq<char> {
    match codec::tag_of(v) {
        Some((k, inner)) => if k == "derived"@ || k == "overridden"@ {
            derivation_fault(inner)
        } else {
            "origin must be 'entered', 'derived' or 'overridden'"@
        },
        None => codec::tag_fault(v, "origin"@),
    }
}

/// What the types of an origin's parts promise.
pub open spec fn origin_is_valid(o: OriginModel) -> bool {
    match o {
        OriginModel::Entered => true,
        OriginModel::Derived(d) => d.snapshot_ref.len() == 32,
        OriginModel::Overridden { superseded } => superseded matches Some(d)
            ==> d.snapshot_ref.len() == 32,
    }
}

/// An origin reads back from its form.
pub proof fn origin_reads_back(o: OriginModel)
    requires
        origin_is_valid(o),
    ensures
        origin_of(origin_form(o)) == Some(o),
        canonical::jcs(origin_form(o)) is Ok,
{
    reveal_strlit("derived");
    reveal_strlit("overridden");
    assert("derived"@.len() == 7);
    assert("overridden"@.len() == 10);
    match o {
        OriginModel::Entered => {},
        OriginModel::Derived(d) => {
            derivation_reads_back(d);
            codec::tagged_reads_back("derived"@, derivation_form(d), CanonicalValueModel::Null);
        },
        OriginModel::Overridden { superseded } => {
            match superseded {
                Some(d) => {
                    derivation_reads_back(d);
                    codec::tagged_reads_back("overridden"@, derivation_form(d), CanonicalValueModel::Null);
                },
                None => {
                    codec::tagged_reads_back(
                        "overridden"@,
                        CanonicalValueModel::Null,
                        CanonicalValueModel::Null,
                    );
                },
            }
        },
    }
}

/// The form of an origin, which reads back as the origin.
pub fn origin_canonical(origin: &Origin) -> (r: CanonicalValue)
    ensures
        r@ == origin_form(origin@),
        origin_is_valid(origin@),
        origin_of(r@) == Some(origin@),
        canonical::jcs(r@) is Ok,
{
    let r = match origin {
        Origin::Entered => CanonicalValue::String("entered".to_owned()),
        Origin::Derived(d) => tagged_value("derived", derivation_canonical(d)),
        Origin::Overridden { superseded } => tagged_value(
            "overridden",
            match superseded {
                None => CanonicalValue::Null,
                Some(d) => derivation_canonical(d),
            },
        ),
    };
    proof {
        origin_reads_back(origin@);
    }
    r
}

/// Reads an origin strictly.
pub fn origin_from(v: &CanonicalValue) -> (r: Result<Origin, RecordDecodeError>)
    ensures
        match r {
            Ok(o) => origin_of(v@) == Some(o@),
            Err(e) => origin_of(v@) is None && e.0@ == origin_fault(v@),
        },
{
    if let CanonicalValue::String(s) = v {
        if same_text(s.as_str(), "entered") {
            return Ok(Origin::Entered);
        }
    }
    let (k, inner) = match single_key(v, "origin") {
        Ok(p) => p,
        Err(e) => {
            return Err(e);
        },
    };
    proof {
        reveal_strlit("derived");
        reveal_strlit("overridden");
        assert("derived"@.len() == 7);
        assert("overridden"@.len() == 10);
    }
    if same_text(k, "derived") {
        match derivation_from(inner) {
            Ok(d) => Ok(Origin::Derived(d)),
            Err(e) => Err(e),
        }
    } else if same_text(k, "overridden") {
        match inner {
            CanonicalValue::Null => Ok(Origin::Overridden { superseded: None }),
            _ => match derivation_from(inner) {
                Ok(d) => Ok(Origin::Overridden { superseded: Some(d) }),
                Err(e) => Err(e),
            },
        }
    } else {
        Err(malformed("origin must be 'entered', 'derived' or 'overridden'"))
    }
}

/// The form of an entry's origin and note.
pub open spec fn meta_form(origin: OriginModel, note: Option<Seq<char>>) -> CanonicalValueModel {
    CanonicalValueModel::Object(
        codec::members2("origin"@, origin_form(origin), "note"@, optional_form(note)),
    )
}

pub fn meta(origin: &Origin, note: &Option<String>) -> (r: CanonicalValue)
    ensures
        r@ == meta_form(origin@, note.deep_view()),
        canonical::jcs(r@) is Ok,
{
    let mut m = Members::new();
    put(&mut m, "origin", origin_canonical(origin));
    put(&mut m, "note", optional_canonical(note));
    proof {
        reveal_strlit("origin");
        reveal_strlit("note");
        assert("origin"@.len() == 6);
        assert("note"@.len() == 4);
        origin_reads_back(origin@);
        codec::members2_are(
            "origin"@,
            origin_form(origin@),
            "note"@,
            optional_form(note.deep_view()),
        );
    }
    CanonicalValue::Object(m)
}

pub open spec fn outcome_form(o: OutcomeModel) -> CanonicalValueModel {
    CanonicalValueModel::Object(
        codec::members2(
            "attempts"@,
            version_form(o.attempts),
            "last_error"@,
            optional_form(o.last_error),
        ),
    )
}

fn outcome_canonical(o: &Outcome) -> (r: CanonicalValue)
    ensures
        r@ == outcome_form(o@),
        canonical::jcs(r@) is Ok,
{
    let mut m = Members::new();
    put(&mut m, "attempts", CanonicalValue::Int(o.attempts as i64));
    put(&mut m, "last_error", optional_canonical(&o.last_error));
    proof {
        reveal_strlit("attempts");
        reveal_strlit("last_error");
        assert("attempts"@.len() == 8);
        assert("last_error"@.len() == 10);
        codec::members2_are(
            "attempts"@,
            version_form(o@.attempts),
            "last_error"@,
            optional_form(o@.last_error),
        );
    }
    CanonicalValue::Object(m)
}

/// The name of a reason.
pub open spec fn reason_name(r: AbandonReason) -> Seq<char> {
    match r {
        AbandonReason::Deadline => "deadline"@,
        AbandonReason::Operator => "operator"@,
        AbandonReason::ResolverUnavailable => "resolver_unavailable"@,
        AbandonReason::Superseded => "superseded"@,
    }
}

pub open spec fn abandon_form(reason: AbandonReason, o: OutcomeModel) -> CanonicalValueModel {
    CanonicalValueModel::Object(
        codec::members2(
            "reason"@,
            CanonicalValueModel::String(reason_name(reason)),
            "outcome"@,
            outcome_form(o),
        ),
    )
}

fn abandon_canonical(reason: AbandonReason, o: &Outcome) -> (r: CanonicalValue)
    ensures
        r@ == abandon_form(reason, o@),
        canonical::jcs(r@) is Ok,
{
    let name = match reason {
        AbandonReason::Deadline => "deadline",
        AbandonReason::Operator => "operator",
        AbandonReason::ResolverUnavailable => "resolver_unavailable",
        AbandonReason::Superseded => "superseded",
    };
    let mut m = Members::new();
    put_text(&mut m, "reason", name);
    put(&mut m, "outcome", outcome_canonical(o));
    proof {
        reveal_strlit("reason");
        reveal_strlit("outcome");
        assert("reason"@.len() == 6);
        assert("outcome"@.len() == 7);
        codec::members2_are(
            "reason"@,
            CanonicalValueModel::String(reason_name(reason)),
            "outcome"@,
            outcome_form(o@),
        );
    }
    CanonicalValue::Object(m)
}

/// The form of a step: one member that names it.
pub open spec fn transition_form(t: TransitionModel) -> CanonicalValueModel {
    match t {
        TransitionModel::Request { resolver, resolver_version, mapping_version } => codec::tagged(
            "request"@,
            CanonicalValueModel::Object(
                codec::members3(
                    "resolver"@,
                    CanonicalValueModel::String(resolver),
                    "resolver_version"@,
                    version_form(resolver_version),
                    "mapping_version"@,
                    version_form(mapping_version),
                ),
            ),
        ),
        TransitionModel::Land { snapshot, outcome } => codec::tagged(
            "land"@,
            CanonicalValueModel::Object(
                codec::members2(
                    "snapshot"@,
                    CanonicalValueModel::String(canonical::hash_text(snapshot)),
                    "outcome"@,
                    outcome_form(outcome),
                ),
            ),
        ),
        TransitionModel::NotFound { outcome } => codec::tagged("not_found"@, outcome_form(outcome)),
        TransitionModel::Ambiguous { outcome } => codec::tagged("ambiguous"@, outcome_form(outcome)),
        TransitionModel::Failed { outcome } => codec::tagged("failed"@, outcome_form(outcome)),
        TransitionModel::Abandon { reason, outcome } => codec::tagged(
            "abandon"@,
            abandon_form(reason, outcome),
        ),
    }
}

fn transition_canonical(t: &Transition) -> (r: CanonicalValue)
    ensures
        r@ == transition_form(t@),
        canonical::jcs(r@) is Ok,
{
    match t {
        Transition::Request { resolver, resolver_version, mapping_version } => {
            let mut m = Members::new();
            put_text(&mut m, "resolver", resolver.as_str());
            put(&mut m, "resolver_version", CanonicalValue::Int(*resolver_version as i64));
            put(&mut m, "mapping_version", CanonicalValue::Int(*mapping_version as i64));
            proof {
                reveal_strlit("resolver");
                reveal_strlit("resolver_version");
                reveal_strlit("mapping_version");
                assert("resolver"@.len() == 8);
                assert("resolver_version"@.len() == 16);
                assert("mapping_version"@.len() == 15);
                codec::members3_are(
                    "resolver"@,
                    CanonicalValueModel::String(resolver@),
                    "resolver_version"@,
                    version_form(*resolver_version),
                    "mapping_version"@,
                    version_form(*mapping_version),
                );
            }
            tagged_value("request", CanonicalValue::Object(m))
        },
        Transition::Land { snapshot, outcome } => {
            let mut m = Members::new();
            put_text(&mut m, "snapshot", snapshot.to_string().as_str());
            put(&mut m, "outcome", outcome_canonical(outcome));
            proof {
                reveal_strlit("snapshot");
                reveal_strlit("outcome");
                assert("snapshot"@.len() == 8);
                assert("outcome"@.len() == 7);
                codec::members2_are(
                    "snapshot"@,
                    CanonicalValueModel::String(canonical::hash_text(snapshot@)),
                    "outcome"@,
                    outcome_form(outcome@),
                );
            }
            tagged_value("land", CanonicalValue::Object(m))
        },
        Transition::NotFound { outcome } => tagged_value("not_found", outcome_canonical(outcome)),
        Transition::Ambiguous { outcome } => tagged_value("ambiguous", outcome_canonical(outcome)),
        Transition::Failed { outcome } => tagged_value("failed", outcome_canonical(outcome)),
        Transition::Abandon { reason, outcome } => tagged_value(
            "abandon",
            abandon_canonical(*reason, outcome),
        ),
    }
}

/// The form of a scan step: one member that names it.
pub open spec fn scan_transition_form(t: ScanTransitionModel) -> CanonicalValueModel {
    match t {
        ScanTransitionModel::Request { hash } => codec::tagged(
            "request"@,
            CanonicalValueModel::String(canonical::hash_text(hash)),
        ),
        ScanTransitionModel::Clean { outcome } => codec::tagged("clean"@, outcome_form(outcome)),
        ScanTransitionModel::Infected { threat, outcome } => codec::tagged(
            "infected"@,
            CanonicalValueModel::Object(
                codec::members2("threat"@, optional_form(threat), "outcome"@, outcome_form(outcome)),
            ),
        ),
        ScanTransitionModel::Failed { outcome } => codec::tagged("failed"@, outcome_form(outcome)),
        ScanTransitionModel::Abandon { reason, outcome } => codec::tagged(
            "abandon"@,
            abandon_form(reason, outcome),
        ),
    }
}

fn scan_transition_canonical(t: &ScanTransition) -> (r: CanonicalValue)
    ensures
        r@ == scan_transition_form(t@),
        canonical::jcs(r@) is Ok,
{
    match t {
        ScanTransition::Request { hash } => tagged_value(
            "request",
            CanonicalValue::String(hash.to_string()),
        ),
        ScanTransition::Clean { outcome } => tagged_value("clean", outcome_canonical(outcome)),
        ScanTransition::Infected { threat, outcome } => {
            let mut m = Members::new();
            put(&mut m, "threat", optional_canonical(threat));
            put(&mut m, "outcome", outcome_canonical(outcome));
            proof {
                reveal_strlit("threat");
                reveal_strlit("outcome");
                assert("threat"@.len() == 6);
                assert("outcome"@.len() == 7);
                codec::members2_are(
                    "threat"@,
                    optional_form(threat.deep_view()),
                    "outcome"@,
                    outcome_form(outcome@),
                );
            }
            tagged_value("infected", CanonicalValue::Object(m))
        },
        ScanTransition::Failed { outcome } => tagged_value("failed", outcome_canonical(outcome)),
        ScanTransition::Abandon { reason, outcome } => tagged_value(
            "abandon",
            abandon_canonical(*reason, outcome),
        ),
    }
}

pub open spec fn expected_form(e: ExpectedResolutionModel) -> CanonicalValueModel {
    CanonicalValueModel::Object(
        codec::members5(
            "anchor"@,
            CanonicalValueModel::String(e.anchor),
            "scope"@,
            codec::path_form(e.scope),
            "resolver"@,
            CanonicalValueModel::String(e.resolver),
            "resolver_version"@,
            version_form(e.resolver_version),
            "mapping_version"@,
            version_form(e.mapping_version),
        ),
    )
}

fn expected_canonical(e: &ExpectedResolution) -> (r: CanonicalValue)
    ensures
        r@ == expected_form(e@),
        canonical::jcs(r@) is Ok,
{
    let mut m = Members::new();
    put_text(&mut m, "anchor", e.anchor.as_str());
    put(&mut m, "scope", path_canonical(&e.scope));
    put_text(&mut m, "resolver", e.resolver.as_str());
    put(&mut m, "resolver_version", CanonicalValue::Int(e.resolver_version as i64));
    put(&mut m, "mapping_version", CanonicalValue::Int(e.mapping_version as i64));
    proof {
        reveal_strlit("anchor");
        reveal_strlit("scope");
        reveal_strlit("resolver");
        reveal_strlit("resolver_version");
        reveal_strlit("mapping_version");
        assert("anchor"@.len() == 6);
        assert("scope"@.len() == 5);
        assert("resolver"@.len() == 8);
        assert("resolver_version"@.len() == 16);
        assert("mapping_version"@.len() == 15);
        codec::path_reads_back(e@.scope, CanonicalValueModel::Null);
        codec::members5_are(
            "anchor"@,
            CanonicalValueModel::String(e@.anchor),
            "scope"@,
            codec::path_form(e@.scope),
            "resolver"@,
            CanonicalValueModel::String(e@.resolver),
            "resolver_version"@,
            version_form(e@.resolver_version),
            "mapping_version"@,
            version_form(e@.mapping_version),
        );
    }
    CanonicalValue::Object(m)
}

fn expected_list(list: &Vec<ExpectedResolution>) -> (r: CanonicalValue)
    ensures
        r@ == expected_list_form(list.deep_view()),
        canonical::jcs(r@) is Ok,
{
    let ghost m = list.deep_view();
    let mut out: Vec<CanonicalValue> = Vec::new();
    let mut i: usize = 0;
    while i < list.len()
        invariant
            i <= list@.len(),
            m == list.deep_view(),
            out@.len() == i,
            forall|j: int| 0 <= j < i ==> canonical::value_model(#[trigger] out@[j]) == expected_form(m[j]),
            forall|j: int| 0 <= j < i ==> canonical::jcs(canonical::value_model(#[trigger] out@[j])) is Ok,
        decreases list@.len() - i,
    {
        out.push(expected_canonical(&list[i]));
        i += 1;
    }
    proof {
        let a = expected_list_form(m)->Array_0;
        assert(canonical::items_model(out@) =~= a);
        assert forall|j: int| 0 <= j < a.len() implies canonical::jcs(#[trigger] a[j]) is Ok by {
            assert(a[j] == canonical::value_model(out@[j]));
        }
        codec::items_encode(a);
    }
    CanonicalValue::Array(out)
}

pub open spec fn expected_list_form(list: Seq<ExpectedResolutionModel>) -> CanonicalValueModel {
    CanonicalValueModel::Array(Seq::new(list.len(), |i: int| expected_form(list[i])))
}

fn columns_canonical(set: &OrderedSet<ColumnId>) -> (r: CanonicalValue)
    ensures
        r@ == codec::texts_form(set.items()),
        canonical::jcs(r@) is Ok,
{
    let n = set.len();
    let ghost items = set.items();
    let mut out: Vec<CanonicalValue> = Vec::new();
    let mut i: usize = 0;
    while i < n
        invariant
            i <= n == items.len(),
            items == set.items(),
            out@.len() == i,
            forall|j: int|
                0 <= j < i ==> canonical::value_model(#[trigger] out@[j]) == CanonicalValueModel::String(
                    items[j],
                ),
        decreases n - i,
    {
        out.push(CanonicalValue::String(set.at(i).to_string()));
        i += 1;
    }
    assert(canonical::items_model(out@) =~= codec::texts_form(items)->Array_0);
    proof {
        codec::texts_read_back(items);
    }
    CanonicalValue::Array(out)
}

fn groups_canonical(set: &OrderedSet<GroupId>) -> (r: CanonicalValue)
    ensures
        r@ == codec::texts_form(set.items()),
        canonical::jcs(r@) is Ok,
{
    let n = set.len();
    let ghost items = set.items();
    let mut out: Vec<CanonicalValue> = Vec::new();
    let mut i: usize = 0;
    while i < n
        invariant
            i <= n == items.len(),
            items == set.items(),
            out@.len() == i,
            forall|j: int|
                0 <= j < i ==> canonical::value_model(#[trigger] out@[j]) == CanonicalValueModel::String(
                    items[j],
                ),
        decreases n - i,
    {
        out.push(CanonicalValue::String(set.at(i).to_string()));
        i += 1;
    }
    assert(canonical::items_model(out@) =~= codec::texts_form(items)->Array_0);
    proof {
        codec::texts_read_back(items);
    }
    CanonicalValue::Array(out)
}

pub open spec fn checkpoint_members(c: CheckpointModel) -> Seq<(Seq<char>, CanonicalValueModel)> {
    canonical::with_member(
        codec::members5(
            "op"@,
            CanonicalValueModel::String("checkpoint"@),
            "name"@,
            CanonicalValueModel::String(c.name),
            "reading_revision"@,
            CanonicalValueModel::String(c.reading_revision),
            "expected"@,
            expected_list_form(c.expected),
            "frozen_columns"@,
            codec::texts_form(collections::key_order::<ColumnId>(c.frozen_columns)),
        ),
        "frozen_groups"@,
        codec::texts_form(collections::key_order::<GroupId>(c.frozen_groups)),
    )
}

fn checkpoint_canonical(c: &Checkpoint) -> (r: CanonicalValue)
    ensures
        r@ == CanonicalValueModel::Object(checkpoint_members(c@)),
        canonical::jcs(r@) is Ok,
{
    let mut m = Members::new();
    let expected = expected_list(&c.expected);
    let columns = columns_canonical(&c.frozen_columns);
    let groups = groups_canonical(&c.frozen_groups);
    proof {
        reveal_strlit("op");
        reveal_strlit("name");
        reveal_strlit("reading_revision");
        reveal_strlit("expected");
        reveal_strlit("frozen_columns");
        assert("op"@.len() == 2);
        assert("name"@.len() == 4);
        assert("reading_revision"@.len() == 16);
        assert("expected"@.len() == 8);
        assert("frozen_columns"@.len() == 14);
        codec::members5_are(
            "op"@,
            CanonicalValueModel::String("checkpoint"@),
            "name"@,
            CanonicalValueModel::String(c@.name),
            "reading_revision"@,
            CanonicalValueModel::String(c@.reading_revision),
            "expected"@,
            expected@,
            "frozen_columns"@,
            columns@,
        );
        codec::member_encodes(
            codec::members5(
                "op"@,
                CanonicalValueModel::String("checkpoint"@),
                "name"@,
                CanonicalValueModel::String(c@.name),
                "reading_revision"@,
                CanonicalValueModel::String(c@.reading_revision),
                "expected"@,
                expected@,
                "frozen_columns"@,
                columns@,
            ),
            "frozen_groups"@,
            groups@,
        );
    }
    put_text(&mut m, "op", "checkpoint");
    put_text(&mut m, "name", c.name.as_str());
    put_text(&mut m, "reading_revision", c.reading_revision.as_str());
    put(&mut m, "expected", expected);
    put(&mut m, "frozen_columns", columns);
    put(&mut m, "frozen_groups", groups);
    CanonicalValue::Object(m)
}

/// The form of an entry's operation.
pub open spec fn entry_op_form(op: EntryOpModel) -> CanonicalValueModel {
    match op {
        EntryOpModel::Cell(op) => codec::op_form(op),
        EntryOpModel::Resolution { anchor, scope, transition } => CanonicalValueModel::Object(
            codec::members4(
                "op"@,
                CanonicalValueModel::String("resolution"@),
                "anchor"@,
                CanonicalValueModel::String(anchor),
                "scope"@,
                codec::path_form(scope),
                "transition"@,
                transition_form(transition),
            ),
        ),
        EntryOpModel::Scan { element, transition } => CanonicalValueModel::Object(
            codec::members3(
                "op"@,
                CanonicalValueModel::String("scan"@),
                "element"@,
                CanonicalValueModel::String(element),
                "transition"@,
                scan_transition_form(transition),
            ),
        ),
        EntryOpModel::Checkpoint(c) => CanonicalValueModel::Object(checkpoint_members(c)),
    }
}

/// Whether the operation's counts fit JSON numbers.
pub open spec fn entry_op_is_safe(op: EntryOpModel) -> bool {
    op matches EntryOpModel::Cell(op) ==> codec::op_is_safe(op)
}

pub fn entry_op(change: &EntryOp) -> (r: CanonicalValue)
    ensures
        r@ == entry_op_form(change@),
        entry_op_is_safe(change@) ==> canonical::jcs(r@) is Ok,
        change@ matches EntryOpModel::Cell(o) ==> codec::op_is_valid(o) && (codec::op_is_readable(o)
            ==> codec::op_of(r@) == Some(o)),
{
    match change {
        EntryOp::Cell(o) => op(o),
        EntryOp::Resolution { anchor, scope, transition } => {
            let mut m = Members::new();
            put_text(&mut m, "op", "resolution");
            put_text(&mut m, "anchor", anchor.as_str());
            put(&mut m, "scope", path_canonical(scope));
            put(&mut m, "transition", transition_canonical(transition));
            proof {
                reveal_strlit("op");
                reveal_strlit("anchor");
                reveal_strlit("scope");
                reveal_strlit("transition");
                assert("op"@.len() == 2);
                assert("anchor"@.len() == 6);
                assert("scope"@.len() == 5);
                assert("transition"@.len() == 10);
                codec::path_reads_back(scope@, CanonicalValueModel::Null);
                codec::members4_are(
                    "op"@,
                    CanonicalValueModel::String("resolution"@),
                    "anchor"@,
                    CanonicalValueModel::String(anchor@),
                    "scope"@,
                    codec::path_form(scope@),
                    "transition"@,
                    transition_form(transition@),
                );
            }
            CanonicalValue::Object(m)
        },
        EntryOp::Scan { element, transition } => {
            let mut m = Members::new();
            put_text(&mut m, "op", "scan");
            put_text(&mut m, "element", element.as_str());
            put(&mut m, "transition", scan_transition_canonical(transition));
            proof {
                reveal_strlit("op");
                reveal_strlit("element");
                reveal_strlit("transition");
                assert("op"@.len() == 2);
                assert("element"@.len() == 7);
                assert("transition"@.len() == 10);
                codec::members3_are(
                    "op"@,
                    CanonicalValueModel::String("scan"@),
                    "element"@,
                    CanonicalValueModel::String(element@),
                    "transition"@,
                    scan_transition_form(transition@),
                );
            }
            CanonicalValue::Object(m)
        },
        EntryOp::Checkpoint(c) => checkpoint_canonical(c),
    }
}

/// The name of an author's kind.
pub open spec fn kind_name(k: ActorKind) -> Seq<char> {
    match k {
        ActorKind::Human => "human"@,
        ActorKind::Resolver => "resolver"@,
        ActorKind::System => "system"@,
    }
}

pub open spec fn kind_of(t: Seq<char>) -> Option<ActorKind> {
    if t == "human"@ {
        Some(ActorKind::Human)
    } else if t == "resolver"@ {
        Some(ActorKind::Resolver)
    } else if t == "system"@ {
        Some(ActorKind::System)
    } else {
        None
    }
}

pub proof fn kind_reads_back(k: ActorKind)
    ensures
        kind_of(kind_name(k)) == Some(k),
{
    reveal_strlit("human");
    reveal_strlit("resolver");
    reveal_strlit("system");
    assert("human"@.len() == 5);
    assert("resolver"@.len() == 8);
    assert("system"@.len() == 6);
}

fn kind_text(k: ActorKind) -> (r: &'static str)
    ensures
        r@ == kind_name(k),
{
    match k {
        ActorKind::Human => "human",
        ActorKind::Resolver => "resolver",
        ActorKind::System => "system",
    }
}

fn kind_from(t: &str) -> (r: Option<ActorKind>)
    ensures
        r == kind_of(t@),
{
    if same_text(t, "human") {
        Some(ActorKind::Human)
    } else if same_text(t, "resolver") {
        Some(ActorKind::Resolver)
    } else if same_text(t, "system") {
        Some(ActorKind::System)
    } else {
        None
    }
}

/// The envelope's members but for the content commitment.
pub open spec fn head_members(e: EnvelopeModel) -> Seq<(Seq<char>, CanonicalValueModel)> {
    canonical::with_member(
        canonical::with_member(
            codec::members5(
                "seq"@,
                codec::count_form(e.seq),
                "prev"@,
                CanonicalValueModel::String(canonical::hash_text(e.prev)),
                "actor"@,
                CanonicalValueModel::String(e.actor.id),
                "actor_kind"@,
                CanonicalValueModel::String(kind_name(e.actor.kind)),
                "timestamp"@,
                CanonicalValueModel::String(time::timestamp_text(e.timestamp)),
            ),
            "revision"@,
            CanonicalValueModel::String(e.revision),
        ),
        "base_version"@,
        codec::count_form(e.base_version),
    )
}

/// The form of an envelope, which an entry's hash is taken of.
pub open spec fn envelope_form(e: EnvelopeModel) -> CanonicalValueModel {
    CanonicalValueModel::Object(
        canonical::with_member(
            head_members(e),
            "content"@,
            CanonicalValueModel::String(canonical::hash_text(e.content_hash)),
        ),
    )
}

/// The seven members of an envelope's head, and no others.
pub proof fn head_members_are(e: EnvelopeModel)
    ensures
        canonical::members_in_order(head_members(e)),
        head_members(e).len() == 7,
        forall|k: Seq<char>|
            #[trigger] canonical::member(head_members(e), k) == (if k == "base_version"@ {
                Some(codec::count_form(e.base_version))
            } else if k == "revision"@ {
                Some(CanonicalValueModel::String(e.revision))
            } else if k == "seq"@ {
                Some(codec::count_form(e.seq))
            } else if k == "prev"@ {
                Some(CanonicalValueModel::String(canonical::hash_text(e.prev)))
            } else if k == "actor"@ {
                Some(CanonicalValueModel::String(e.actor.id))
            } else if k == "actor_kind"@ {
                Some(CanonicalValueModel::String(kind_name(e.actor.kind)))
            } else if k == "timestamp"@ {
                Some(CanonicalValueModel::String(time::timestamp_text(e.timestamp)))
            } else {
                None
            }),
        entry::hashable(e) ==> codec::all_encode(head_members(e)),
{
    reveal_strlit("seq");
    reveal_strlit("prev");
    reveal_strlit("actor");
    reveal_strlit("actor_kind");
    reveal_strlit("timestamp");
    reveal_strlit("revision");
    reveal_strlit("base_version");
    assert("seq"@.len() == 3);
    assert("prev"@.len() == 4);
    assert("actor"@.len() == 5);
    assert("actor_kind"@.len() == 10);
    assert("timestamp"@.len() == 9);
    assert("revision"@.len() == 8);
    assert("base_version"@.len() == 12);
    let five = codec::members5(
        "seq"@,
        codec::count_form(e.seq),
        "prev"@,
        CanonicalValueModel::String(canonical::hash_text(e.prev)),
        "actor"@,
        CanonicalValueModel::String(e.actor.id),
        "actor_kind"@,
        CanonicalValueModel::String(kind_name(e.actor.kind)),
        "timestamp"@,
        CanonicalValueModel::String(time::timestamp_text(e.timestamp)),
    );
    codec::members5_are(
        "seq"@,
        codec::count_form(e.seq),
        "prev"@,
        CanonicalValueModel::String(canonical::hash_text(e.prev)),
        "actor"@,
        CanonicalValueModel::String(e.actor.id),
        "actor_kind"@,
        CanonicalValueModel::String(kind_name(e.actor.kind)),
        "timestamp"@,
        CanonicalValueModel::String(time::timestamp_text(e.timestamp)),
    );
    canonical::with_member_is(five, "revision"@, CanonicalValueModel::String(e.revision));
    let six = canonical::with_member(five, "revision"@, CanonicalValueModel::String(e.revision));
    canonical::with_member_is(six, "base_version"@, codec::count_form(e.base_version));
    if entry::hashable(e) {
        codec::member_encodes(five, "revision"@, CanonicalValueModel::String(e.revision));
        codec::member_encodes(six, "base_version"@, codec::count_form(e.base_version));
    }
}

fn put_head(m: &mut Members, e: &Envelope)
    requires
        old(m)@ == codec::no_members(),
    ensures
        final(m)@ == head_members(e@),
        canonical::members_in_order(final(m)@),
        entry::hashable(e@) ==> codec::all_encode(final(m)@),
        time::instant_of(time::timestamp_text(e@.timestamp)) == Some(e@.timestamp),
{
    put(m, "seq", CanonicalValue::Int(e.seq as i64));
    put_text(m, "prev", e.prev.to_string().as_str());
    put_text(m, "actor", e.actor.id.as_str());
    put_text(m, "actor_kind", kind_text(e.actor.kind));
    put_text(m, "timestamp", e.timestamp.to_string().as_str());
    put_text(m, "revision", e.revision.as_str());
    put(m, "base_version", CanonicalValue::Int(e.base_version as i64));
    proof {
        head_members_are(e@);
    }
}

pub fn envelope_canonical(e: &Envelope) -> (r: CanonicalValue)
    ensures
        r@ == envelope_form(e@),
        entry::hashable(e@) ==> canonical::jcs(r@) is Ok,
{
    let mut m = Members::new();
    put_head(&mut m, e);
    let ghost head = m@;
    put_text(&mut m, "content", e.content_hash.to_string().as_str());
    proof {
        if entry::hashable(e@) {
            codec::member_encodes(
                head,
                "content"@,
                CanonicalValueModel::String(canonical::hash_text(e@.content_hash)),
            );
        }
    }
    CanonicalValue::Object(m)
}

/// What the members of an envelope's head spell.
pub open spec fn head_of(
    m: Seq<(Seq<char>, CanonicalValueModel)>,
    content_hash: Seq<u8>,
) -> Option<EnvelopeModel> {
    match (
        codec::count_member(m, "seq"@),
        codec::hash_member(m, "prev"@),
        codec::text_member(m, "actor"@),
        kind_member(m),
        instant_member(m),
        codec::text_member(m, "revision"@),
        codec::count_member(m, "base_version"@),
    ) {
        (
            Some(seq),
            Some(prev),
            Some(id),
            Some(kind),
            Some(timestamp),
            Some(revision),
            Some(base_version),
        ) => Some(
            EnvelopeModel {
                seq,
                prev,
                actor: ActorModel { id, kind },
                timestamp,
                revision,
                base_version,
                content_hash,
            },
        ),
        _ => None,
    }
}

pub open spec fn kind_member(m: Seq<(Seq<char>, CanonicalValueModel)>) -> Option<ActorKind> {
    match codec::text_member(m, "actor_kind"@) {
        Some(t) => kind_of(t),
        None => None,
    }
}

pub open spec fn instant_member(m: Seq<(Seq<char>, CanonicalValueModel)>) -> Option<int> {
    match codec::text_member(m, "timestamp"@) {
        Some(t) => time::instant_of(t),
        None => None,
    }
}

/// What is wrong with the members of an envelope that cannot be read.
pub open spec fn head_fault(m: Seq<(Seq<char>, CanonicalValueModel)>) -> Seq<char> {
    if codec::count_member(m, "seq"@) is None {
        codec::count_fault(m, "seq"@, "bad seq"@)
    } else if codec::hash_member(m, "prev"@) is None {
        codec::hash_fault(m, "prev"@, "bad prev"@)
    } else if codec::text_member(m, "actor"@) is None {
        codec::text_fault("actor"@)
    } else if kind_member(m) is None {
        match codec::text_member(m, "actor_kind"@) {
            Some(t) => codec::keyed("unknown actor kind"@, t),
            None => codec::text_fault("actor_kind"@),
        }
    } else if instant_member(m) is None {
        if codec::text_member(m, "timestamp"@) is None {
            codec::text_fault("timestamp"@)
        } else {
            codec::instant_fault()
        }
    } else if codec::text_member(m, "revision"@) is None {
        codec::text_fault("revision"@)
    } else if codec::count_member(m, "base_version"@) is None {
        codec::count_fault(m, "base_version"@, "bad base_version"@)
    } else {
        codec::hash_fault(m, "content_hash"@, "bad content hash"@)
    }
}

fn actor_from(m: &Members) -> (r: Result<Actor, RecordDecodeError>)
    ensures
        match r {
            Ok(a) => codec::text_member(m@, "actor"@) == Some(a@.id) && kind_member(m@) == Some(a@.kind),
            Err(e) => (codec::text_member(m@, "actor"@) is None || kind_member(m@) is None) && (
            codec::count_member(m@, "seq"@) is Some && codec::hash_member(m@, "prev"@) is Some ==> e.0@
                == head_fault(m@)),
        },
{
    let id = match get_str(m, "actor") {
        Ok(x) => x,
        Err(e) => {
            return Err(e);
        },
    };
    let kind_name = match get_str(m, "actor_kind") {
        Ok(x) => x,
        Err(e) => {
            return Err(e);
        },
    };
    match kind_from(kind_name.as_str()) {
        Some(kind) => Ok(Actor { id, kind }),
        None => Err(malformed_key("unknown actor kind", kind_name.as_str())),
    }
}

fn envelope_from(m: &Members) -> (r: Result<Envelope, RecordDecodeError>)
    ensures
        match r {
            Ok(e) => codec::hash_member(m@, "content_hash"@) == Some(e@.content_hash) && head_of(
                m@,
                e@.content_hash,
            ) == Some(e@),
            Err(e) => (codec::hash_member(m@, "content_hash"@) is None || head_of(
                m@,
                codec::hash_member(m@, "content_hash"@)->0,
            ) is None) && e.0@ == head_fault(m@),
        },
{
    let seq = match get_count(m, "seq", "bad seq") {
        Ok(x) => x,
        Err(e) => {
            return Err(e);
        },
    };
    let prev = match get_hash(m, "prev", "bad prev") {
        Ok(x) => x,
        Err(e) => {
            return Err(e);
        },
    };
    let actor = match actor_from(m) {
        Ok(x) => x,
        Err(e) => {
            return Err(e);
        },
    };
    let time = match get_str(m, "timestamp") {
        Ok(x) => x,
        Err(e) => {
            return Err(e);
        },
    };
    let timestamp = match Instant::parse(time.as_str()) {
        Ok(x) => x,
        Err(e) => {
            return Err(unreadable(e));
        },
    };
    let revision = match get_str(m, "revision") {
        Ok(x) => x,
        Err(e) => {
            return Err(e);
        },
    };
    let base_version = match get_count(m, "base_version", "bad base_version") {
        Ok(x) => x,
        Err(e) => {
            return Err(e);
        },
    };
    let content_hash = match get_hash(m, "content_hash", "bad content hash") {
        Ok(x) => x,
        Err(e) => {
            return Err(e);
        },
    };
    Ok(
        Envelope {
            seq,
            prev,
            actor,
            timestamp,
            revision: RevisionId::new(revision.as_str()),
            base_version,
            content_hash,
        },
    )
}

/// An array of operations.
pub open spec fn entry_ops_form(ops: Seq<EntryOpModel>) -> CanonicalValueModel {
    CanonicalValueModel::Array(Seq::new(ops.len(), |i: int| entry_op_form(ops[i])))
}

/// The changes to the values that an array spells.
pub open spec fn ops_of(v: CanonicalValueModel) -> Option<Seq<EntryOpModel>> {
    match v {
        CanonicalValueModel::Array(a) => if forall|i: int|
            0 <= i < a.len() ==> codec::op_of(#[trigger] a[i]) is Some {
            Some(Seq::new(a.len(), |i: int| EntryOpModel::Cell(codec::op_of(a[i])->0)))
        } else {
            None
        },
        _ => None,
    }
}

/// Which of some values spell operations.
pub open spec fn ops_read(a: Seq<CanonicalValueModel>) -> Seq<bool> {
    Seq::new(a.len(), |i: int| codec::op_of(a[i]) is Some)
}

/// What is wrong with a value that is no array of operations.
pub open spec fn ops_fault(v: CanonicalValueModel) -> Seq<char> {
    match v {
        CanonicalValueModel::Array(a) => codec::op_fault(a[codec::first_unread(ops_read(a))]),
        _ => "expected an array"@,
    }
}

proof fn ops_stop(v: CanonicalValueModel, i: int)
    requires
        v is Array,
        0 <= i < (v->Array_0).len(),
        codec::op_of((v->Array_0)[i]) is None,
        forall|j: int| 0 <= j < i ==> codec::op_of(#[trigger] (v->Array_0)[j]) is Some,
    ensures
        ops_of(v) is None,
        ops_fault(v) == codec::op_fault((v->Array_0)[i]),
{
    let a = v->Array_0;
    let read = ops_read(a);
    assert(!read[i]);
    assert forall|j: int| 0 <= j < i implies #[trigger] read[j] by {
        assert(codec::op_of(a[j]) is Some);
    }
    codec::first_unread_is(read, i);
}

fn entry_ops(ops: &Vec<EntryOp>) -> (r: CanonicalValue)
    ensures
        r@ == entry_ops_form(ops.deep_view()),
        all_readable(ops.deep_view()) ==> ops_of(r@) == Some(ops.deep_view()),
{
    let ghost m = ops.deep_view();
    let mut out: Vec<CanonicalValue> = Vec::new();
    let mut i: usize = 0;
    while i < ops.len()
        invariant
            i <= ops@.len(),
            m == ops.deep_view(),
            out@.len() == i,
            forall|j: int| 0 <= j < i ==> canonical::value_model(#[trigger] out@[j]) == entry_op_form(m[j]),
            forall|j: int|
                0 <= j < i && m[j] is Cell && codec::op_is_readable(m[j]->Cell_0) ==> codec::op_of(
                    canonical::value_model(#[trigger] out@[j]),
                ) == Some(m[j]->Cell_0),
        decreases ops@.len() - i,
    {
        assert(m[i as int] == ops@[i as int].deep_view());
        out.push(entry_op(&ops[i]));
        i += 1;
    }
    proof {
        let a = entry_ops_form(m)->Array_0;
        assert(canonical::items_model(out@) =~= a);
        if all_readable(m) {
            assert forall|j: int| 0 <= j < a.len() implies codec::op_of(#[trigger] a[j]) == Some(
                m[j]->Cell_0,
            ) by {
                assert(a[j] == canonical::value_model(out@[j]));
            }
            assert(ops_of(CanonicalValueModel::Array(a))->0 =~= m);
        }
    }
    CanonicalValue::Array(out)
}

/// Whether every operation changes the values and its form spells it.
pub open spec fn all_readable(ops: Seq<EntryOpModel>) -> bool {
    forall|i: int|
        0 <= i < ops.len() ==> (#[trigger] ops[i]) is Cell && codec::op_is_readable(ops[i]->Cell_0)
}

fn ops_from(v: &CanonicalValue) -> (r: Result<Vec<EntryOp>, RecordDecodeError>)
    ensures
        match r {
            Ok(ops) => ops_of(v@) == Some(ops.deep_view()),
            Err(e) => ops_of(v@) is None && e.0@ == ops_fault(v@),
        },
{
    match v {
        CanonicalValue::Array(list) => {
            let ghost a = v@->Array_0;
            let mut out: Vec<EntryOp> = Vec::new();
            let mut i: usize = 0;
            while i < list.len()
                invariant
                    i <= list@.len(),
                    a == canonical::items_model(list@),
                    v@ == CanonicalValueModel::Array(a),
                    out@.len() == i,
                    forall|j: int|
                        0 <= j < i ==> codec::op_of(#[trigger] a[j]) is Some && EntryOpModel::Cell(
                            codec::op_of(a[j])->0,
                        ) == out.deep_view()[j],
                decreases list@.len() - i,
            {
                assert(a[i as int] == canonical::value_model(list@[i as int]));
                let ghost before = out.deep_view();
                match op_from(&list[i]) {
                    Ok(o) => {
                        out.push(EntryOp::Cell(o));
                        assert forall|j: int| 0 <= j < i implies out.deep_view()[j]
                            == before[j] by {}
                    },
                    Err(e) => {
                        proof {
                            ops_stop(v@, i as int);
                        }
                        return Err(e);
                    },
                }
                i += 1;
            }
            assert(ops_of(v@)->0 =~= out.deep_view());
            Ok(out)
        },
        _ => Err(malformed("expected an array")),
    }
}

/// The salt that 64 lower-case hexadecimal digits spell.
pub open spec fn salt_of(t: Seq<char>) -> Option<Seq<u8>> {
    if t.len() == 64 {
        text::unhex(t)
    } else {
        None
    }
}

/// What is wrong with a text that spells no salt.
pub open spec fn salt_fault(t: Seq<char>) -> Seq<char> {
    if encode_utf8(t).len() != 64 {
        "salt must be 32 bytes hex"@
    } else {
        "salt must be lowercase hex"@
    }
}

proof fn salts_are_ascii(t: Seq<char>)
    ensures
        salt_of(t) is Some ==> encode_utf8(t).len() == 64,
{
    if salt_of(t) is Some {
        assert forall|i: int| 0 <= i < t.len() implies '\0' <= #[trigger] t[i] <= '\u{7f}' by {
            assert(text::is_hex(t[i]));
        }
        assert(is_ascii_chars(t));
        is_ascii_chars_encode_utf8(t);
    }
}

fn salt_text(s: &Salt) -> (r: String)
    ensures
        r@ == text::hex(s@),
        salt_of(r@) == Some(s@),
{
    let mut out: Vec<char> = Vec::new();
    let bytes: &[u8] = &s.0;
    push_hex(&mut out, bytes);
    let r = text_of(&out);
    proof {
        assert(r@ =~= text::hex(s@));
        text::unhex_of_hex(s@);
        text::hex_index(s@);
    }
    r
}

fn salt_from(t: &str) -> (r: Result<Salt, RecordDecodeError>)
    ensures
        match r {
            Ok(s) => salt_of(t@) == Some(s@),
            Err(e) => salt_of(t@) is None && e.0@ == salt_fault(t@),
        },
{
    proof {
        salts_are_ascii(t@);
    }
    if t.as_bytes().len() != 64 {
        return Err(malformed("salt must be 32 bytes hex"));
    }
    let v = chars_of(t);
    if v.len() != 64 {
        return Err(malformed("salt must be lowercase hex"));
    }
    assert(v@.skip(0) =~= t@);
    match read_hex(&v, 0) {
        Some(bytes) => {
            let mut out: [u8; 32] = [0;32];
            let mut k: usize = 0;
            while k < 32
                invariant
                    k <= 32,
                    bytes@.len() == 32,
                    out@.len() == 32,
                    forall|j: int| 0 <= j < k ==> #[trigger] out@[j] == bytes@[j],
                decreases 32 - k,
            {
                out[k] = bytes[k];
                k += 1;
            }
            assert(out@ =~= bytes@);
            Ok(Salt(out))
        },
        None => Err(malformed("salt must be lowercase hex")),
    }
}

/// An array of salts.
pub open spec fn salts_form(salts: Seq<Seq<u8>>) -> CanonicalValueModel {
    CanonicalValueModel::Array(
        Seq::new(salts.len(), |i: int| CanonicalValueModel::String(text::hex(salts[i]))),
    )
}

pub open spec fn salt_item(v: CanonicalValueModel) -> Option<Seq<u8>> {
    match v {
        CanonicalValueModel::String(t) => salt_of(t),
        _ => None,
    }
}

pub open spec fn salts_of(v: CanonicalValueModel) -> Option<Seq<Seq<u8>>> {
    match v {
        CanonicalValueModel::Array(a) => if forall|i: int|
            0 <= i < a.len() ==> salt_item(#[trigger] a[i]) is Some {
            Some(Seq::new(a.len(), |i: int| salt_item(a[i])->0))
        } else {
            None
        },
        _ => None,
    }
}

/// Which of some values spell salts.
pub open spec fn salts_read(a: Seq<CanonicalValueModel>) -> Seq<bool> {
    Seq::new(a.len(), |i: int| salt_item(a[i]) is Some)
}

pub open spec fn salt_item_fault(v: CanonicalValueModel) -> Seq<char> {
    match v {
        CanonicalValueModel::String(t) => salt_fault(t),
        _ => "salt must be a string"@,
    }
}

/// What is wrong with a value that is no array of salts.
pub open spec fn salts_fault(v: CanonicalValueModel) -> Seq<char> {
    match v {
        CanonicalValueModel::Array(a) => salt_item_fault(a[codec::first_unread(salts_read(a))]),
        _ => "expected an array"@,
    }
}

proof fn salts_stop(v: CanonicalValueModel, i: int)
    requires
        v is Array,
        0 <= i < (v->Array_0).len(),
        salt_item((v->Array_0)[i]) is None,
        forall|j: int| 0 <= j < i ==> salt_item(#[trigger] (v->Array_0)[j]) is Some,
    ensures
        salts_of(v) is None,
        salts_fault(v) == salt_item_fault((v->Array_0)[i]),
{
    let a = v->Array_0;
    let read = salts_read(a);
    assert(!read[i]);
    assert forall|j: int| 0 <= j < i implies #[trigger] read[j] by {
        assert(salt_item(a[j]) is Some);
    }
    codec::first_unread_is(read, i);
}

fn salts_canonical(salts: &Vec<Salt>) -> (r: CanonicalValue)
    ensures
        r@ == salts_form(salts.deep_view()),
        salts_of(r@) == Some(salts.deep_view()),
{
    let ghost m = salts.deep_view();
    let mut out: Vec<CanonicalValue> = Vec::new();
    let mut i: usize = 0;
    while i < salts.len()
        invariant
            i <= salts@.len(),
            m == salts.deep_view(),
            out@.len() == i,
            forall|j: int|
                0 <= j < i ==> canonical::value_model(#[trigger] out@[j]) == CanonicalValueModel::String(
                    text::hex(m[j]),
                ) && salt_item(canonical::value_model(out@[j])) == Some(m[j]),
        decreases salts@.len() - i,
    {
        assert(m[i as int] == salts@[i as int]@);
        out.push(CanonicalValue::String(salt_text(&salts[i])));
        i += 1;
    }
    proof {
        let a = salts_form(m)->Array_0;
        assert(canonical::items_model(out@) =~= a);
        assert forall|j: int| 0 <= j < a.len() implies salt_item(#[trigger] a[j]) == Some(
            m[j],
        ) by {
            assert(a[j] == canonical::value_model(out@[j]));
        }
        assert(salts_of(CanonicalValueModel::Array(a))->0 =~= m);
    }
    CanonicalValue::Array(out)
}

fn salts_from(v: &CanonicalValue) -> (r: Result<Vec<Salt>, RecordDecodeError>)
    ensures
        match r {
            Ok(s) => salts_of(v@) == Some(s.deep_view()),
            Err(e) => salts_of(v@) is None && e.0@ == salts_fault(v@),
        },
{
    match v {
        CanonicalValue::Array(list) => {
            let ghost a = v@->Array_0;
            let mut out: Vec<Salt> = Vec::new();
            let mut i: usize = 0;
            while i < list.len()
                invariant
                    i <= list@.len(),
                    a == canonical::items_model(list@),
                    v@ == CanonicalValueModel::Array(a),
                    out@.len() == i,
                    forall|j: int|
                        0 <= j < i ==> salt_item(#[trigger] a[j]) == Some(out.deep_view()[j]),
                decreases list@.len() - i,
            {
                assert(a[i as int] == canonical::value_model(list@[i as int]));
                let ghost before = out.deep_view();
                let salt = match &list[i] {
                    CanonicalValue::String(t) => salt_from(t.as_str()),
                    _ => Err(malformed("salt must be a string")),
                };
                match salt {
                    Ok(s) => {
                        out.push(s);
                        assert forall|j: int| 0 <= j < i implies out.deep_view()[j]
                            == before[j] by {}
                    },
                    Err(e) => {
                        proof {
                            salts_stop(v@, i as int);
                        }
                        return Err(e);
                    },
                }
                i += 1;
            }
            assert(salts_of(v@)->0 =~= out.deep_view());
            Ok(out)
        },
        _ => Err(malformed("expected an array")),
    }
}

/// An envelope's head, with the content and the salts.
pub open spec fn with_tail(
    head: Seq<(Seq<char>, CanonicalValueModel)>,
    content_hash: CanonicalValueModel,
    origin: CanonicalValueModel,
    note: CanonicalValueModel,
    ops: CanonicalValueModel,
    meta_salt: CanonicalValueModel,
    op_salts: CanonicalValueModel,
) -> Seq<(Seq<char>, CanonicalValueModel)> {
    let m = canonical::with_member(head, "content_hash"@, content_hash);
    let m = canonical::with_member(m, "origin"@, origin);
    let m = canonical::with_member(m, "note"@, note);
    let m = canonical::with_member(m, "ops"@, ops);
    let m = canonical::with_member(m, "meta_salt"@, meta_salt);
    canonical::with_member(m, "op_salts"@, op_salts)
}

proof fn with_tail_is(
    head: Seq<(Seq<char>, CanonicalValueModel)>,
    content_hash: CanonicalValueModel,
    origin: CanonicalValueModel,
    note: CanonicalValueModel,
    ops: CanonicalValueModel,
    meta_salt: CanonicalValueModel,
    op_salts: CanonicalValueModel,
)
    requires
        canonical::members_in_order(head),
        canonical::member(head, "content_hash"@) is None,
        canonical::member(head, "origin"@) is None,
        canonical::member(head, "note"@) is None,
        canonical::member(head, "ops"@) is None,
        canonical::member(head, "meta_salt"@) is None,
        canonical::member(head, "op_salts"@) is None,
    ensures
        with_tail(head, content_hash, origin, note, ops, meta_salt, op_salts).len() == head.len()
            + 6,
        forall|k: Seq<char>|
            #[trigger] canonical::member(
                with_tail(head, content_hash, origin, note, ops, meta_salt, op_salts),
                k,
            ) == (if k == "op_salts"@ {
                Some(op_salts)
            } else if k == "meta_salt"@ {
                Some(meta_salt)
            } else if k == "ops"@ {
                Some(ops)
            } else if k == "note"@ {
                Some(note)
            } else if k == "origin"@ {
                Some(origin)
            } else if k == "content_hash"@ {
                Some(content_hash)
            } else {
                canonical::member(head, k)
            }),
{
    reveal_strlit("content_hash");
    reveal_strlit("origin");
    reveal_strlit("note");
    reveal_strlit("ops");
    reveal_strlit("meta_salt");
    reveal_strlit("op_salts");
    assert("content_hash"@.len() == 12);
    assert("origin"@.len() == 6);
    assert("note"@.len() == 4);
    assert("ops"@.len() == 3);
    assert("meta_salt"@.len() == 9);
    assert("op_salts"@.len() == 8);
    canonical::with_member_is(head, "content_hash"@, content_hash);
    let m1 = canonical::with_member(head, "content_hash"@, content_hash);
    canonical::with_member_is(m1, "origin"@, origin);
    let m2 = canonical::with_member(m1, "origin"@, origin);
    canonical::with_member_is(m2, "note"@, note);
    let m3 = canonical::with_member(m2, "note"@, note);
    canonical::with_member_is(m3, "ops"@, ops);
    let m4 = canonical::with_member(m3, "ops"@, ops);
    canonical::with_member_is(m4, "meta_salt"@, meta_salt);
    let m5 = canonical::with_member(m4, "meta_salt"@, meta_salt);
    canonical::with_member_is(m5, "op_salts"@, op_salts);
}

/// The members of a whole entry.
pub open spec fn entry_members(e: EntryModel) -> Seq<(Seq<char>, CanonicalValueModel)> {
    with_tail(
        head_members(e.envelope),
        CanonicalValueModel::String(canonical::hash_text(e.envelope.content_hash)),
        origin_form(e.content.origin),
        optional_form(e.content.note),
        entry_ops_form(e.content.ops),
        CanonicalValueModel::String(text::hex(e.salts.meta)),
        salts_form(e.salts.ops),
    )
}

/// The form of a whole entry: envelope in the clear, with the content and
/// the salts, so that a receiver can check every commitment.
pub open spec fn entry_form(e: EntryModel) -> CanonicalValueModel {
    CanonicalValueModel::Object(entry_members(e))
}

pub open spec fn content_of(m: Seq<(Seq<char>, CanonicalValueModel)>) -> Option<
    EntryContentModel,
> {
    match (canonical::member(m, "ops"@), canonical::member(m, "origin"@), canonical::member(m, "note"@)) {
        (Some(ops), Some(origin), Some(note)) => match (
            ops_of(ops),
            origin_of(origin),
            optional_of(note),
        ) {
            (Some(ops), Some(origin), Some(note)) => Some(
                EntryContentModel { ops, origin, note },
            ),
            _ => None,
        },
        _ => None,
    }
}

/// What is wrong with an entry's content that cannot be read.
pub open spec fn content_fault(m: Seq<(Seq<char>, CanonicalValueModel)>) -> Seq<char> {
    match canonical::member(m, "ops"@) {
        None => codec::missing_fault("ops"@),
        Some(ops) => if ops_of(ops) is None {
            ops_fault(ops)
        } else {
            match canonical::member(m, "origin"@) {
                None => codec::missing_fault("origin"@),
                Some(origin) => if origin_of(origin) is None {
                    origin_fault(origin)
                } else if canonical::member(m, "note"@) is None {
                    codec::missing_fault("note"@)
                } else {
                    "note must be a string or null"@
                },
            }
        },
    }
}

/// What is wrong with an entry's salts that cannot be read.
pub open spec fn entry_salts_fault(m: Seq<(Seq<char>, CanonicalValueModel)>) -> Seq<char> {
    match codec::text_member(m, "meta_salt"@) {
        None => codec::text_fault("meta_salt"@),
        Some(t) => if salt_of(t) is None {
            salt_fault(t)
        } else {
            match canonical::member(m, "op_salts"@) {
                None => codec::missing_fault("op_salts"@),
                Some(v) => salts_fault(v),
            }
        },
    }
}

pub open spec fn entry_salts_of(m: Seq<(Seq<char>, CanonicalValueModel)>) -> Option<
    EntrySaltsModel,
> {
    match (codec::text_member(m, "meta_salt"@), canonical::member(m, "op_salts"@)) {
        (Some(t), Some(v)) => match (salt_of(t), salts_of(v)) {
            (Some(meta), Some(ops)) => Some(EntrySaltsModel { meta, ops }),
            _ => None,
        },
        _ => None,
    }
}

/// The keys of an entry, with the two that wrap an exported one.
pub open spec fn entry_keys() -> Seq<Seq<char>> {
    seq![
        "k"@,
        "record"@,
        "seq"@,
        "prev"@,
        "actor"@,
        "actor_kind"@,
        "timestamp"@,
        "revision"@,
        "base_version"@,
        "content_hash"@,
        "origin"@,
        "note"@,
        "ops"@,
        "meta_salt"@,
        "op_salts"@,
    ]
}

/// What is wrong with an entry that has some operations and another
/// number of salts.
pub open spec fn uneven_fault(ops: nat, salts: nat) -> Seq<char> {
    text::digits(ops) + " ops but "@ + text::digits(salts) + " op salts (need one per op)"@
}

/// What is wrong with a value that is no entry's form.
pub open spec fn entry_fault(v: CanonicalValueModel) -> Seq<char> {
    match v {
        CanonicalValueModel::Object(m) => if !codec::has_only(m, entry_keys()) {
            codec::extra_fault(m, entry_keys())
        } else {
            match (content_of(m), entry_salts_of(m)) {
                (None, _) => content_fault(m),
                (_, None) => entry_salts_fault(m),
                (Some(c), Some(s)) => if c.ops.len() != s.ops.len() {
                    uneven_fault(c.ops.len(), s.ops.len())
                } else {
                    head_fault(m)
                },
            }
        },
        _ => "expected an object"@,
    }
}

/// The entry that a value spells, if it is an entry's form, possibly with
/// the wrapper's keys `k` and `record`.
pub open spec fn entry_of(v: CanonicalValueModel) -> Option<EntryModel> {
    match v {
        CanonicalValueModel::Object(m) => match (
            content_of(m),
            entry_salts_of(m),
            codec::hash_member(m, "content_hash"@),
        ) {
            (Some(content), Some(salts), Some(content_hash)) => match head_of(m, content_hash) {
                Some(envelope) if codec::has_only(m, entry_keys()) && content.ops.len()
                    == salts.ops.len() => Some(EntryModel { envelope, content, salts }),
                _ => None,
            },
            _ => None,
        },
        _ => None,
    }
}

/// Whether an entry's form spells it: its counts fit JSON numbers, its
/// operations change the values and are readable, each with its salt.
pub open spec fn entry_is_readable(e: EntryModel) -> bool {
    &&& e.envelope.seq <= MAX_SAFE_INTEGER
    &&& e.envelope.base_version <= MAX_SAFE_INTEGER
    &&& all_readable(e.content.ops)
    &&& e.content.ops.len() == e.salts.ops.len()
}

proof fn entry_has_its_keys(m: Seq<(Seq<char>, CanonicalValueModel)>)
    requires
        forall|k: Seq<char>|
            #[trigger] canonical::member(m, k) is Some ==> k == "seq"@ || k == "prev"@ || k == "actor"@ || k
                == "actor_kind"@ || k == "timestamp"@ || k == "revision"@ || k == "base_version"@
                || k == "content_hash"@ || k == "origin"@ || k == "note"@ || k == "ops"@ || k
                == "meta_salt"@ || k == "op_salts"@,
    ensures
        codec::has_only(m, entry_keys()),
{
    let keys = entry_keys();
    assert(keys[2] == "seq"@ && keys[3] == "prev"@ && keys[4] == "actor"@);
    assert(keys[5] == "actor_kind"@ && keys[6] == "timestamp"@ && keys[7] == "revision"@);
    assert(keys[8] == "base_version"@ && keys[9] == "content_hash"@ && keys[10] == "origin"@);
    assert(keys[11] == "note"@ && keys[12] == "ops"@ && keys[13] == "meta_salt"@);
    assert(keys[14] == "op_salts"@);
    codec::has_only_is(m, keys);
}

/// An entry reads back from its form.
pub proof fn entry_reads_back(e: EntryModel)
    requires
        entry_is_readable(e),
        ops_of(entry_ops_form(e.content.ops)) == Some(e.content.ops),
        salts_of(salts_form(e.salts.ops)) == Some(e.salts.ops),
        salt_of(text::hex(e.salts.meta)) == Some(e.salts.meta),
        origin_is_valid(e.content.origin),
        e.envelope.prev.len() == 32,
        e.envelope.content_hash.len() == 32,
        time::instant_of(time::timestamp_text(e.envelope.timestamp)) == Some(e.envelope.timestamp),
    ensures
        entry_of(entry_form(e)) == Some(e),
{
    reveal_strlit("seq");
    reveal_strlit("prev");
    reveal_strlit("actor");
    reveal_strlit("actor_kind");
    reveal_strlit("timestamp");
    reveal_strlit("revision");
    reveal_strlit("base_version");
    reveal_strlit("content_hash");
    reveal_strlit("origin");
    reveal_strlit("note");
    reveal_strlit("ops");
    reveal_strlit("meta_salt");
    reveal_strlit("op_salts");
    reveal_strlit("k");
    reveal_strlit("record");
    assert("seq"@.len() == 3);
    assert("prev"@.len() == 4);
    assert("actor"@.len() == 5);
    assert("actor_kind"@.len() == 10);
    assert("timestamp"@.len() == 9);
    assert("revision"@.len() == 8);
    assert("base_version"@.len() == 12);
    assert("content_hash"@.len() == 12);
    assert("origin"@.len() == 6);
    assert("note"@.len() == 4);
    assert("ops"@.len() == 3);
    assert("meta_salt"@.len() == 9);
    assert("op_salts"@.len() == 8);
    assert("k"@.len() == 1);
    assert("record"@.len() == 6);
    assert("seq"@[0] == 's');
    assert("prev"@[0] == 'p');
    assert("timestamp"@[0] == 't');
    assert("revision"@[0] == 'r');
    assert("base_version"@[0] == 'b');
    assert("content_hash"@[0] == 'c');
    assert("origin"@[0] == 'o');
    assert("note"@[0] == 'n');
    assert("ops"@[0] == 'o');
    assert("meta_salt"@[0] == 'm');
    assert("op_salts"@[0] == 'o');
    assert("record"@[0] == 'r');
    head_members_are(e.envelope);
    with_tail_is(
        head_members(e.envelope),
        CanonicalValueModel::String(canonical::hash_text(e.envelope.content_hash)),
        origin_form(e.content.origin),
        optional_form(e.content.note),
        entry_ops_form(e.content.ops),
        CanonicalValueModel::String(text::hex(e.salts.meta)),
        salts_form(e.salts.ops),
    );
    let m = entry_members(e);
    entry_has_its_keys(m);
    assert(content_of(m) == Some(e.content)) by {
        origin_reads_back(e.content.origin);
    }
    assert(entry_salts_of(m) == Some(e.salts));
    assert(codec::hash_member(m, "content_hash"@) == Some(e.envelope.content_hash)) by {
        canonical::hash_text_reads_back(e.envelope.content_hash, e.envelope.revision);
    }
    assert(head_of(m, e.envelope.content_hash) == Some(e.envelope)) by {
        kind_reads_back(e.envelope.actor.kind);
        canonical::hash_text_reads_back(e.envelope.prev, e.envelope.revision);
    }
}

/// The form of an entry, which reads back as the entry.
pub fn entry_canonical(entry: &Entry) -> (r: CanonicalValue)
    ensures
        r@ == entry_form(entry@),
        entry_is_readable(entry@) ==> entry_of(r@) == Some(entry@),
{
    let mut m = Members::new();
    put_head(&mut m, &entry.envelope);
    put_text(&mut m, "content_hash", entry.envelope.content_hash.to_string().as_str());
    put(&mut m, "origin", origin_canonical(&entry.content.origin));
    put(&mut m, "note", optional_canonical(&entry.content.note));
    put(&mut m, "ops", entry_ops(&entry.content.ops));
    put_text(&mut m, "meta_salt", salt_text(&entry.salts.meta).as_str());
    put(&mut m, "op_salts", salts_canonical(&entry.salts.ops));
    proof {
        if entry_is_readable(entry@) {
            entry_reads_back(entry@);
        }
    }
    CanonicalValue::Object(m)
}

fn content_from(m: &Members) -> (r: Result<EntryContent, RecordDecodeError>)
    ensures
        match r {
            Ok(c) => content_of(m@) == Some(c@),
            Err(e) => content_of(m@) is None && e.0@ == content_fault(m@),
        },
{
    let ops = match get_member(m, "ops") {
        Ok(v) => match ops_from(v) {
            Ok(x) => x,
            Err(e) => {
                return Err(e);
            },
        },
        Err(e) => {
            return Err(e);
        },
    };
    let origin = match get_member(m, "origin") {
        Ok(v) => match origin_from(v) {
            Ok(x) => x,
            Err(e) => {
                return Err(e);
            },
        },
        Err(e) => {
            return Err(e);
        },
    };
    match get_member(m, "note") {
        Ok(v) => match note_from(v) {
            Ok(note) => Ok(EntryContent { ops, origin, note }),
            Err(e) => Err(e),
        },
        Err(e) => Err(e),
    }
}

fn entry_salts_from(m: &Members) -> (r: Result<EntrySalts, RecordDecodeError>)
    ensures
        match r {
            Ok(s) => entry_salts_of(m@) == Some(s@),
            Err(e) => entry_salts_of(m@) is None && e.0@ == entry_salts_fault(m@),
        },
{
    let meta = match get_str(m, "meta_salt") {
        Ok(t) => match salt_from(t.as_str()) {
            Ok(x) => x,
            Err(e) => {
                return Err(e);
            },
        },
        Err(e) => {
            return Err(e);
        },
    };
    match get_member(m, "op_salts") {
        Ok(v) => match salts_from(v) {
            Ok(ops) => Ok(EntrySalts { meta, ops }),
            Err(e) => Err(e),
        },
        Err(e) => Err(e),
    }
}

fn only_entry_keys(m: &Members) -> (r: Result<(), RecordDecodeError>)
    ensures
        match r {
            Ok(_) => codec::has_only(m@, entry_keys()),
            Err(e) => !codec::has_only(m@, entry_keys()) && e.0@ == codec::extra_fault(m@, entry_keys()),
        },
{
    let keys: [&str; 15] = [
        "k",
        "record",
        "seq",
        "prev",
        "actor",
        "actor_kind",
        "timestamp",
        "revision",
        "base_version",
        "content_hash",
        "origin",
        "note",
        "ops",
        "meta_salt",
        "op_salts",
    ];
    assert(codec::texts_at(keys@) =~= entry_keys());
    only_keys(m, &keys)
}

fn uneven(ops: usize, salts: usize) -> (r: RecordDecodeError)
    ensures
        r.0@ == uneven_fault(ops as nat, salts as nat),
{
    let mut text = digits_text(ops as u128);
    push_text(&mut text, " ops but ");
    let mut more = digits_text(salts as u128);
    push_text(&mut more, " op salts (need one per op)");
    text.append(&mut more);
    let r = text_of(&text);
    assert(r@ =~= uneven_fault(ops as nat, salts as nat));
    RecordDecodeError(r)
}

/// Reads an entry strictly.
pub fn entry_from(v: &CanonicalValue) -> (r: Result<Entry, RecordDecodeError>)
    ensures
        match r {
            Ok(e) => entry_of(v@) == Some(e@),
            Err(e) => entry_of(v@) is None && e.0@ == entry_fault(v@),
        },
{
    let m = match v {
        CanonicalValue::Object(m) => m,
        _ => {
            return Err(malformed("expected an object"));
        },
    };
    if let Err(e) = only_entry_keys(m) {
        return Err(e);
    }
    let content = match content_from(m) {
        Ok(c) => c,
        Err(e) => {
            return Err(e);
        },
    };
    let salts = match entry_salts_from(m) {
        Ok(s) => s,
        Err(e) => {
            return Err(e);
        },
    };
    if salts.ops.len() != content.ops.len() {
        return Err(uneven(content.ops.len(), salts.ops.len()));
    }
    match envelope_from(m) {
        Ok(envelope) => Ok(Entry { envelope, content, salts }),
        Err(e) => Err(e),
    }
}

} // verus!
