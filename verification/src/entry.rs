//! The log entry: an envelope in the clear, which lives as long as the
//! record, and content that can be redacted, committed op by op.

use vstd::prelude::*;
use crate::canonical;
use crate::codec;
use crate::entry_codec;
use crate::order;
use crate::canonical::{
    CanonicalValue, CanonicalValueModel, ContentHash, Salt, commit, commit_vector, hash_plain,
};
use crate::checkpoint::{Checkpoint, CheckpointModel};
use crate::codec::op;
use crate::entry_codec::{entry_op, envelope_canonical, meta};
use crate::ids::{GroupId, PathSegModel, RecordId, ResolverId, RevisionId, RowPath};
use crate::order::Modeled;
use crate::resolution::{Transition, TransitionModel};
use crate::scan::{ScanTransition, ScanTransitionModel};
use crate::text::{push_text, text_of};
use crate::time::Instant;
use crate::value::{Op, OpModel};

verus! {

/// What kind of author an entry has.
#[derive(Clone, Copy, Debug, PartialEq, Eq, Structural)]
pub enum ActorKind {
    Human,
    Resolver,
    System,
}

impl DeepView for ActorKind {
    type V = ActorKind;

    open spec fn deep_view(&self) -> ActorKind {
        *self
    }
}

impl View for ActorKind {
    type V = ActorKind;

    open spec fn view(&self) -> ActorKind {
        *self
    }
}

impl Modeled for ActorKind {
    fn dup(&self) -> (r: Self) {
        *self
    }

    fn same(&self, other: &Self) -> (b: bool) {
        *self == *other
    }
}

/// Who authored an entry: an opaque, pseudonymous id and a kind.
#[derive(Clone, Debug, PartialEq, Eq)]
pub struct Actor {
    pub id: String,
    pub kind: ActorKind,
}

/// The model of [`Actor`].
#[verifier::ext_equal]
pub struct ActorModel {
    pub id: Seq<char>,
    pub kind: ActorKind,
}

impl DeepView for Actor {
    type V = ActorModel;

    open spec fn deep_view(&self) -> ActorModel {
        ActorModel {
            id: self.id.deep_view(),
            kind: self.kind.deep_view(),
        }
    }
}

impl View for Actor {
    type V = ActorModel;

    open spec fn view(&self) -> ActorModel {
        self.deep_view()
    }
}

impl Modeled for Actor {
    fn dup(&self) -> (r: Self) {
        Actor {
            id: self.id.dup(),
            kind: self.kind.dup(),
        }
    }

    fn same(&self, other: &Self) -> (b: bool) {
        self.id.same(&other.id)
            && self.kind.same(&other.kind)
    }
}

/// Where a value was derived from.
#[derive(Clone, Debug, PartialEq, Eq)]
pub struct Derivation {
    pub source: ResolverId,
    pub source_version: u32,
    pub mapping_version: u32,
    pub snapshot_ref: ContentHash,
}

/// The model of [`Derivation`].
#[verifier::ext_equal]
pub struct DerivationModel {
    pub source: Seq<char>,
    pub source_version: u32,
    pub mapping_version: u32,
    pub snapshot_ref: Seq<u8>,
}

impl DeepView for Derivation {
    type V = DerivationModel;

    open spec fn deep_view(&self) -> DerivationModel {
        DerivationModel {
            source: self.source.deep_view(),
            source_version: self.source_version,
            mapping_version: self.mapping_version,
            snapshot_ref: self.snapshot_ref.deep_view(),
        }
    }
}

impl View for Derivation {
    type V = DerivationModel;

    open spec fn view(&self) -> DerivationModel {
        self.deep_view()
    }
}

impl Modeled for Derivation {
    fn dup(&self) -> (r: Self) {
        Derivation {
            source: self.source.dup(),
            source_version: self.source_version,
            mapping_version: self.mapping_version,
            snapshot_ref: self.snapshot_ref.dup(),
        }
    }

    fn same(&self, other: &Self) -> (b: bool) {
        self.source.same(&other.source)
            && self.source_version == other.source_version
            && self.mapping_version == other.mapping_version
            && self.snapshot_ref.same(&other.snapshot_ref)
    }
}

/// Where an entry's values came from.
#[derive(Clone, Debug, PartialEq, Eq)]
pub enum Origin {
    Entered,
    Derived(Derivation),
    /// Keeps what it replaced. `superseded` is absent only while an
    /// override made during a pending resolution is not yet answered.
    Overridden { superseded: Option<Derivation> },
}

/// The model of [`Origin`].
#[verifier::ext_equal]
pub enum OriginModel {
    Entered,
    Derived(DerivationModel),
    Overridden { superseded: Option<DerivationModel> },
}

impl DeepView for Origin {
    type V = OriginModel;

    open spec fn deep_view(&self) -> OriginModel {
        match self {
            Origin::Entered => OriginModel::Entered,
            Origin::Derived(x) => OriginModel::Derived(x.deep_view()),
            Origin::Overridden { superseded } => OriginModel::Overridden {
                superseded: superseded.deep_view(),
            },
        }
    }
}

impl View for Origin {
    type V = OriginModel;

    open spec fn view(&self) -> OriginModel {
        self.deep_view()
    }
}

impl Modeled for Origin {
    fn dup(&self) -> (r: Self) {
        match self {
            Origin::Entered => Origin::Entered,
            Origin::Derived(x) => Origin::Derived(x.dup()),
            Origin::Overridden { superseded } => Origin::Overridden {
                superseded: superseded.dup(),
            },
        }
    }

    fn same(&self, other: &Self) -> (b: bool) {
        match (self, other) {
            (Origin::Entered, Origin::Entered) => true,
            (Origin::Derived(x), Origin::Derived(y)) => x.same(y),
            (
                Origin::Overridden { superseded },
                Origin::Overridden { superseded: superseded2 },
            ) => {
                superseded.same(superseded2)
            },
            _ => false,
        }
    }
}

/// One operation of an entry: a change to the values, or a step of a
/// lifecycle. All kinds ride in one chained, salted, committed list.
#[derive(Clone, Debug, PartialEq, Eq)]
pub enum EntryOp {
    Cell(Op),
    Resolution { anchor: GroupId, scope: RowPath, transition: Transition },
    Scan { element: String, transition: ScanTransition },
    Checkpoint(Checkpoint),
}

/// The model of [`EntryOp`].
#[verifier::ext_equal]
pub enum EntryOpModel {
    Cell(OpModel),
    Resolution { anchor: Seq<char>, scope: Seq<PathSegModel>, transition: TransitionModel },
    Scan { element: Seq<char>, transition: ScanTransitionModel },
    Checkpoint(CheckpointModel),
}

impl DeepView for EntryOp {
    type V = EntryOpModel;

    open spec fn deep_view(&self) -> EntryOpModel {
        match self {
            EntryOp::Cell(x) => EntryOpModel::Cell(x.deep_view()),
            EntryOp::Resolution { anchor, scope, transition } => EntryOpModel::Resolution {
                anchor: anchor.deep_view(),
                scope: scope.deep_view(),
                transition: transition.deep_view(),
            },
            EntryOp::Scan { element, transition } => EntryOpModel::Scan {
                element: element.deep_view(),
                transition: transition.deep_view(),
            },
            EntryOp::Checkpoint(x) => EntryOpModel::Checkpoint(x.deep_view()),
        }
    }
}

impl View for EntryOp {
    type V = EntryOpModel;

    open spec fn view(&self) -> EntryOpModel {
        self.deep_view()
    }
}

impl Modeled for EntryOp {
    fn dup(&self) -> (r: Self) {
        match self {
            EntryOp::Cell(x) => EntryOp::Cell(x.dup()),
            EntryOp::Resolution { anchor, scope, transition } => EntryOp::Resolution {
                anchor: anchor.dup(),
                scope: scope.dup(),
                transition: transition.dup(),
            },
            EntryOp::Scan { element, transition } => EntryOp::Scan {
                element: element.dup(),
                transition: transition.dup(),
            },
            EntryOp::Checkpoint(x) => EntryOp::Checkpoint(x.dup()),
        }
    }

    fn same(&self, other: &Self) -> (b: bool) {
        match (self, other) {
            (EntryOp::Cell(x), EntryOp::Cell(y)) => x.same(y),
            (
                EntryOp::Resolution { anchor, scope, transition },
                EntryOp::Resolution { anchor: anchor2, scope: scope2, transition: transition2 },
            ) => {
                anchor.same(anchor2)
                    && scope.same(scope2)
                    && transition.same(transition2)
            },
            (
                EntryOp::Scan { element, transition },
                EntryOp::Scan { element: element2, transition: transition2 },
            ) => {
                element.same(element2)
                    && transition.same(transition2)
            },
            (EntryOp::Checkpoint(x), EntryOp::Checkpoint(y)) => x.same(y),
            _ => false,
        }
    }
}

impl From<Op> for EntryOp {
    fn from(op: Op) -> (r: EntryOp) {
        EntryOp::Cell(op)
    }
}

impl vstd::std_specs::convert::FromSpecImpl<Op> for EntryOp {
    open spec fn obeys_from_spec() -> bool {
        true
    }

    open spec fn from_spec(op: Op) -> EntryOp {
        EntryOp::Cell(op)
    }
}

impl EntryOp {
    /// The change to the values, if this is one.
    pub fn cell(&self) -> (r: Option<&Op>)
        ensures
            match r {
                Some(op) => self@ == EntryOpModel::Cell(op@),
                None => !(self@ is Cell),
            },
    {
        match self {
            EntryOp::Cell(op) => Some(op),
            _ => None,
        }
    }
}

/// The part of an entry that survives redaction.
#[derive(Clone, Debug, PartialEq, Eq)]
pub struct Envelope {
    pub seq: u64,
    pub prev: ContentHash,
    pub actor: Actor,
    pub timestamp: Instant,
    /// The revision that the entry was authored against.
    pub revision: RevisionId,
    /// The log version that the author had seen.
    pub base_version: u64,
    pub content_hash: ContentHash,
}

/// The model of [`Envelope`].
#[verifier::ext_equal]
pub struct EnvelopeModel {
    pub seq: u64,
    pub prev: Seq<u8>,
    pub actor: ActorModel,
    pub timestamp: int,
    pub revision: Seq<char>,
    pub base_version: u64,
    pub content_hash: Seq<u8>,
}

impl DeepView for Envelope {
    type V = EnvelopeModel;

    open spec fn deep_view(&self) -> EnvelopeModel {
        EnvelopeModel {
            seq: self.seq,
            prev: self.prev.deep_view(),
            actor: self.actor.deep_view(),
            timestamp: self.timestamp.deep_view(),
            revision: self.revision.deep_view(),
            base_version: self.base_version,
            content_hash: self.content_hash.deep_view(),
        }
    }
}

impl View for Envelope {
    type V = EnvelopeModel;

    open spec fn view(&self) -> EnvelopeModel {
        self.deep_view()
    }
}

impl Modeled for Envelope {
    fn dup(&self) -> (r: Self) {
        Envelope {
            seq: self.seq,
            prev: self.prev.dup(),
            actor: self.actor.dup(),
            timestamp: self.timestamp.dup(),
            revision: self.revision.dup(),
            base_version: self.base_version,
            content_hash: self.content_hash.dup(),
        }
    }

    fn same(&self, other: &Self) -> (b: bool) {
        self.seq == other.seq
            && self.prev.same(&other.prev)
            && self.actor.same(&other.actor)
            && self.timestamp.same(&other.timestamp)
            && self.revision.same(&other.revision)
            && self.base_version == other.base_version
            && self.content_hash.same(&other.content_hash)
    }
}

/// The part of an entry that can be redacted.
#[derive(Clone, Debug, PartialEq, Eq)]
pub struct EntryContent {
    pub ops: Vec<EntryOp>,
    pub origin: Origin,
    pub note: Option<String>,
}

/// The model of [`EntryContent`].
#[verifier::ext_equal]
pub struct EntryContentModel {
    pub ops: Seq<EntryOpModel>,
    pub origin: OriginModel,
    pub note: Option<Seq<char>>,
}

impl DeepView for EntryContent {
    type V = EntryContentModel;

    open spec fn deep_view(&self) -> EntryContentModel {
        EntryContentModel {
            ops: self.ops.deep_view(),
            origin: self.origin.deep_view(),
            note: self.note.deep_view(),
        }
    }
}

impl View for EntryContent {
    type V = EntryContentModel;

    open spec fn view(&self) -> EntryContentModel {
        self.deep_view()
    }
}

impl Modeled for EntryContent {
    fn dup(&self) -> (r: Self) {
        EntryContent {
            ops: self.ops.dup(),
            origin: self.origin.dup(),
            note: self.note.dup(),
        }
    }

    fn same(&self, other: &Self) -> (b: bool) {
        self.ops.same(&other.ops)
            && self.origin.same(&other.origin)
            && self.note.same(&other.note)
    }
}

/// One salt per operation and one for origin and note.
#[derive(Clone, Debug, PartialEq, Eq)]
pub struct EntrySalts {
    pub meta: Salt,
    pub ops: Vec<Salt>,
}

/// The model of [`EntrySalts`].
#[verifier::ext_equal]
pub struct EntrySaltsModel {
    pub meta: Seq<u8>,
    pub ops: Seq<Seq<u8>>,
}

impl DeepView for EntrySalts {
    type V = EntrySaltsModel;

    open spec fn deep_view(&self) -> EntrySaltsModel {
        EntrySaltsModel {
            meta: self.meta.deep_view(),
            ops: self.ops.deep_view(),
        }
    }
}

impl View for EntrySalts {
    type V = EntrySaltsModel;

    open spec fn view(&self) -> EntrySaltsModel {
        self.deep_view()
    }
}

impl Modeled for EntrySalts {
    fn dup(&self) -> (r: Self) {
        EntrySalts {
            meta: self.meta.dup(),
            ops: self.ops.dup(),
        }
    }

    fn same(&self, other: &Self) -> (b: bool) {
        self.meta.same(&other.meta)
            && self.ops.same(&other.ops)
    }
}

/// An entry of a record's log.
#[derive(Clone, Debug, PartialEq, Eq)]
pub struct Entry {
    pub envelope: Envelope,
    pub content: EntryContent,
    pub salts: EntrySalts,
}

/// The model of [`Entry`].
#[verifier::ext_equal]
pub struct EntryModel {
    pub envelope: EnvelopeModel,
    pub content: EntryContentModel,
    pub salts: EntrySaltsModel,
}

impl DeepView for Entry {
    type V = EntryModel;

    open spec fn deep_view(&self) -> EntryModel {
        EntryModel {
            envelope: self.envelope.deep_view(),
            content: self.content.deep_view(),
            salts: self.salts.deep_view(),
        }
    }
}

impl View for Entry {
    type V = EntryModel;

    open spec fn view(&self) -> EntryModel {
        self.deep_view()
    }
}

impl Modeled for Entry {
    fn dup(&self) -> (r: Self) {
        Entry {
            envelope: self.envelope.dup(),
            content: self.content.dup(),
            salts: self.salts.dup(),
        }
    }

    fn same(&self, other: &Self) -> (b: bool) {
        self.envelope.same(&other.envelope)
            && self.content.same(&other.content)
            && self.salts.same(&other.salts)
    }
}

/// What an appender provides. Position, link and hashes are computed.
#[derive(Clone, Debug, PartialEq, Eq)]
pub struct Draft {
    pub actor: Actor,
    pub timestamp: Instant,
    pub revision: RevisionId,
    pub base_version: u64,
    pub origin: Origin,
    pub note: Option<String>,
    pub ops: Vec<EntryOp>,
    pub salts: EntrySalts,
}

/// The model of [`Draft`].
#[verifier::ext_equal]
pub struct DraftModel {
    pub actor: ActorModel,
    pub timestamp: int,
    pub revision: Seq<char>,
    pub base_version: u64,
    pub origin: OriginModel,
    pub note: Option<Seq<char>>,
    pub ops: Seq<EntryOpModel>,
    pub salts: EntrySaltsModel,
}

impl DeepView for Draft {
    type V = DraftModel;

    open spec fn deep_view(&self) -> DraftModel {
        DraftModel {
            actor: self.actor.deep_view(),
            timestamp: self.timestamp.deep_view(),
            revision: self.revision.deep_view(),
            base_version: self.base_version,
            origin: self.origin.deep_view(),
            note: self.note.deep_view(),
            ops: self.ops.deep_view(),
            salts: self.salts.deep_view(),
        }
    }
}

impl View for Draft {
    type V = DraftModel;

    open spec fn view(&self) -> DraftModel {
        self.deep_view()
    }
}

impl Modeled for Draft {
    fn dup(&self) -> (r: Self) {
        Draft {
            actor: self.actor.dup(),
            timestamp: self.timestamp.dup(),
            revision: self.revision.dup(),
            base_version: self.base_version,
            origin: self.origin.dup(),
            note: self.note.dup(),
            ops: self.ops.dup(),
            salts: self.salts.dup(),
        }
    }

    fn same(&self, other: &Self) -> (b: bool) {
        self.actor.same(&other.actor)
            && self.timestamp.same(&other.timestamp)
            && self.revision.same(&other.revision)
            && self.base_version == other.base_version
            && self.origin.same(&other.origin)
            && self.note.same(&other.note)
            && self.ops.same(&other.ops)
            && self.salts.same(&other.salts)
    }
}

/// Operations and their salts do not pair one to one. An operation
/// without a salt would fall outside the commitment.
#[derive(Clone, Copy, Debug, PartialEq, Eq, Structural)]
pub struct SaltCountMismatch {
    pub ops: usize,
    pub salts: usize,
}

impl DeepView for SaltCountMismatch {
    type V = SaltCountMismatch;

    open spec fn deep_view(&self) -> SaltCountMismatch {
        *self
    }
}

impl View for SaltCountMismatch {
    type V = SaltCountMismatch;

    open spec fn view(&self) -> SaltCountMismatch {
        *self
    }
}

impl Modeled for SaltCountMismatch {
    fn dup(&self) -> (r: Self) {
        *self
    }

    fn same(&self, other: &Self) -> (b: bool) {
        *self == *other
    }
}

/// The text that a record's chain begins with.
pub open spec fn genesis_text(record: Seq<char>) -> Seq<char> {
    "varve:genesis:"@ + record
}

/// The link of a record's first entry.
pub open spec fn genesis(record: Seq<char>) -> Seq<u8> {
    canonical::plain_hash(CanonicalValueModel::String(genesis_text(record)))->Ok_0
}

/// The link of the entry at position 0. It commits to the record's id,
/// so a log verifies only under the record that it belongs to.
pub fn genesis_hash(record: &RecordId) -> (r: ContentHash)
    ensures
        r@ == genesis(record@),
{
    let mut text: Vec<char> = Vec::new();
    push_text(&mut text, "varve:genesis:");
    push_text(&mut text, record.as_str());
    assert(text@ =~= genesis_text(record@));
    let value = CanonicalValue::String(text_of(&text));
    hash_plain(&value).unwrap()
}

/// The commitments of an entry's operations, each under its own salt.
pub open spec fn op_commitments(ops: Seq<EntryOpModel>, salts: Seq<Seq<u8>>) -> Seq<Seq<u8>> {
    Seq::new(ops.len(), |i: int| canonical::commitment(salts[i], entry_codec::entry_op_form(ops[i]))->Ok_0)
}

/// The content commitment of operations, origin and note under their
/// salts.
pub open spec fn content_commitment(c: EntryContentModel, salts: EntrySaltsModel) -> Seq<u8> {
    canonical::vector_commitment(
        seq![canonical::commitment(salts.meta, entry_codec::meta_form(c.origin, c.note))->Ok_0] + op_commitments(
            c.ops,
            salts.ops,
        ),
    )
}

/// Whether every count in an entry's operations fits a JSON number.
pub open spec fn committable(ops: Seq<EntryOpModel>) -> bool {
    forall|i: int| 0 <= i < ops.len() ==> entry_codec::entry_op_is_safe(#[trigger] ops[i])
}

/// Whether an envelope's counts fit JSON numbers.
pub open spec fn hashable(e: EnvelopeModel) -> bool {
    codec::is_safe(e.seq) && codec::is_safe(e.base_version)
}

/// The address of an envelope.
pub open spec fn envelope_hash(e: EnvelopeModel) -> Seq<u8> {
    canonical::plain_hash(entry_codec::envelope_form(e))->Ok_0
}

impl Entry {
    /// The content commitment: a vector commitment over the salted
    /// commitment of origin and note and one salted commitment per
    /// operation.
    pub fn content_hash(content: &EntryContent, salts: &EntrySalts) -> (r: Result<
        ContentHash,
        SaltCountMismatch,
    >)
        requires
            content@.ops.len() == salts@.ops.len() ==> committable(content@.ops),
        ensures
            match r {
                Ok(h) => content@.ops.len() == salts@.ops.len() && h@ == content_commitment(
                    content@,
                    salts@,
                ),
                Err(e) => content@.ops.len() != salts@.ops.len() && e.ops == content@.ops.len()
                    && e.salts == salts@.ops.len(),
            },
    {
        if content.ops.len() != salts.ops.len() {
            return Err(SaltCountMismatch { ops: content.ops.len(), salts: salts.ops.len() });
        }
        let mut parts: Vec<ContentHash> = Vec::new();
        let head = meta(&content.origin, &content.note);
        parts.push(
            commit(&salts.meta, &head).unwrap(),
        );
        let ghost first = canonical::commitment(salts@.meta, entry_codec::meta_form(content@.origin, content@.note))->Ok_0;
        let ghost all = op_commitments(content@.ops, salts@.ops);
        let mut i: usize = 0;
        assert(parts.deep_view() =~= seq![first] + all.take(0));
        while i < content.ops.len()
            invariant
                i <= content.ops@.len() == salts.ops@.len(),
                committable(content@.ops),
                all == op_commitments(content@.ops, salts@.ops),
                parts.deep_view() == seq![first] + all.take(i as int),
            decreases content.ops@.len() - i,
        {
            assert(content@.ops[i as int] == content.ops@[i as int]@);
            let value = entry_op(&content.ops[i]);
            let h = commit(&salts.ops[i], &value).unwrap();
            let ghost had = parts.deep_view();
            assert(all[i as int] == h@);
            parts.push(h);
            assert(parts.deep_view() =~= had.push(all[i as int]));
            assert(had.push(all[i as int]) =~= seq![first] + all.take(i + 1));
            i += 1;
        }
        assert(all.take(all.len() as int) =~= all);
        assert(order::models(parts@) =~= parts.deep_view());
        Ok(commit_vector(parts.as_slice()))
    }

    /// The entry hash: the plain hash of the envelope, which holds the
    /// content commitment. It is the link of the next entry.
    pub fn hash(&self) -> (r: ContentHash)
        requires
            hashable(self@.envelope),
        ensures
            r@ == envelope_hash(self@.envelope),
    {
        let value = envelope_canonical(&self.envelope);
        hash_plain(&value).unwrap()
    }
}

} // verus!
