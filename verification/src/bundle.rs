//! The lines of a stream that meet something beside it: those that
//! describe blobs, and those that carry the bodies of surfaces and of
//! block defaults.

use vstd::prelude::*;
use crate::canonical;
use crate::collections;
use crate::order;
use crate::sidecar;
use crate::canonical::{
    CanonicalError, CanonicalValue, CanonicalValueModel, ContentHash, hash_plain,
};
use crate::collections::OrderedMap;
use crate::ids::{BlockId, RevisionId, SurfaceId};
use crate::order::Modeled;
use crate::schema::{BlockRef, BlockRefModel};
use crate::sidecar::{DescribedBlob, DescribedBlobModel, address};

verus! {

/// A presentation of a revision. The stream carries its body as it is.
#[derive(Clone, Debug, PartialEq, Eq)]
pub struct Surface {
    pub id: SurfaceId,
    pub revision: RevisionId,
    pub body: CanonicalValue,
}

/// The model of [`Surface`].
#[verifier::ext_equal]
pub struct SurfaceModel {
    pub id: Seq<char>,
    pub revision: Seq<char>,
    pub body: CanonicalValueModel,
}

impl DeepView for Surface {
    type V = SurfaceModel;

    open spec fn deep_view(&self) -> SurfaceModel {
        SurfaceModel {
            id: self.id.deep_view(),
            revision: self.revision.deep_view(),
            body: self.body.deep_view(),
        }
    }
}

impl View for Surface {
    type V = SurfaceModel;

    open spec fn view(&self) -> SurfaceModel {
        self.deep_view()
    }
}

impl Modeled for Surface {
    fn dup(&self) -> (r: Self) {
        Surface {
            id: self.id.dup(),
            revision: self.revision.dup(),
            body: self.body.dup(),
        }
    }

    fn same(&self, other: &Self) -> (b: bool) {
        self.id.same(&other.id)
            && self.revision.same(&other.revision)
            && self.body.same(&other.body)
    }
}

/// How a block is presented where nothing else is said.
#[derive(Clone, Debug, PartialEq, Eq)]
pub struct BlockDefaults {
    pub block: BlockRef,
    pub body: CanonicalValue,
}

/// The model of [`BlockDefaults`].
#[verifier::ext_equal]
pub struct BlockDefaultsModel {
    pub block: BlockRefModel,
    pub body: CanonicalValueModel,
}

impl DeepView for BlockDefaults {
    type V = BlockDefaultsModel;

    open spec fn deep_view(&self) -> BlockDefaultsModel {
        BlockDefaultsModel {
            block: self.block.deep_view(),
            body: self.body.deep_view(),
        }
    }
}

impl View for BlockDefaults {
    type V = BlockDefaultsModel;

    open spec fn view(&self) -> BlockDefaultsModel {
        self.deep_view()
    }
}

impl Modeled for BlockDefaults {
    fn dup(&self) -> (r: Self) {
        BlockDefaults {
            block: self.block.dup(),
            body: self.body.dup(),
        }
    }

    fn same(&self, other: &Self) -> (b: bool) {
        self.block.same(&other.block)
            && self.body.same(&other.body)
    }
}

/// A line of a stream.
#[derive(Clone, Debug, PartialEq, Eq)]
pub enum Line {
    Surface { id: SurfaceId, revision: RevisionId, body: CanonicalValue },
    BlockDefaults { block: BlockId, version: u32, hash: ContentHash, body: CanonicalValue },
    /// A blob that a cell refers to.
    Attachment { hash: ContentHash, byte_size: u64, content_type: String },
    /// A blob that a resolution landed.
    Snapshot { hash: ContentHash, byte_size: u64, content_type: String },
    /// Any other line.
    Other(CanonicalValue),
}

/// The model of [`Line`].
#[verifier::ext_equal]
pub enum LineModel {
    Surface { id: Seq<char>, revision: Seq<char>, body: CanonicalValueModel },
    BlockDefaults { block: Seq<char>, version: u32, hash: Seq<u8>, body: CanonicalValueModel },
    Attachment { hash: Seq<u8>, byte_size: u64, content_type: Seq<char> },
    Snapshot { hash: Seq<u8>, byte_size: u64, content_type: Seq<char> },
    Other(CanonicalValueModel),
}

impl DeepView for Line {
    type V = LineModel;

    open spec fn deep_view(&self) -> LineModel {
        match self {
            Line::Surface { id, revision, body } => LineModel::Surface {
                id: id.deep_view(),
                revision: revision.deep_view(),
                body: body.deep_view(),
            },
            Line::BlockDefaults { block, version, hash, body } => LineModel::BlockDefaults {
                block: block.deep_view(),
                version: *version,
                hash: hash.deep_view(),
                body: body.deep_view(),
            },
            Line::Attachment { hash, byte_size, content_type } => LineModel::Attachment {
                hash: hash.deep_view(),
                byte_size: *byte_size,
                content_type: content_type.deep_view(),
            },
            Line::Snapshot { hash, byte_size, content_type } => LineModel::Snapshot {
                hash: hash.deep_view(),
                byte_size: *byte_size,
                content_type: content_type.deep_view(),
            },
            Line::Other(x) => LineModel::Other(x.deep_view()),
        }
    }
}

impl View for Line {
    type V = LineModel;

    open spec fn view(&self) -> LineModel {
        self.deep_view()
    }
}

impl Modeled for Line {
    fn dup(&self) -> (r: Self) {
        match self {
            Line::Surface { id, revision, body } => Line::Surface {
                id: id.dup(),
                revision: revision.dup(),
                body: body.dup(),
            },
            Line::BlockDefaults { block, version, hash, body } => Line::BlockDefaults {
                block: block.dup(),
                version: *version,
                hash: hash.dup(),
                body: body.dup(),
            },
            Line::Attachment { hash, byte_size, content_type } => Line::Attachment {
                hash: hash.dup(),
                byte_size: *byte_size,
                content_type: content_type.dup(),
            },
            Line::Snapshot { hash, byte_size, content_type } => Line::Snapshot {
                hash: hash.dup(),
                byte_size: *byte_size,
                content_type: content_type.dup(),
            },
            Line::Other(x) => Line::Other(x.dup()),
        }
    }

    fn same(&self, other: &Self) -> (b: bool) {
        match (self, other) {
            (
                Line::Surface { id, revision, body },
                Line::Surface { id: id2, revision: revision2, body: body2 },
            ) => {
                id.same(id2)
                    && revision.same(revision2)
                    && body.same(body2)
            },
            (
                Line::BlockDefaults { block, version, hash, body },
                Line::BlockDefaults { block: block2, version: version2, hash: hash2, body: body2 },
            ) => {
                block.same(block2)
                    && *version == *version2
                    && hash.same(hash2)
                    && body.same(body2)
            },
            (
                Line::Attachment { hash, byte_size, content_type },
                Line::Attachment { hash: hash2, byte_size: byte_size2, content_type: content_type2 },
            ) => {
                hash.same(hash2)
                    && *byte_size == *byte_size2
                    && content_type.same(content_type2)
            },
            (
                Line::Snapshot { hash, byte_size, content_type },
                Line::Snapshot { hash: hash2, byte_size: byte_size2, content_type: content_type2 },
            ) => {
                hash.same(hash2)
                    && *byte_size == *byte_size2
                    && content_type.same(content_type2)
            },
            (Line::Other(x), Line::Other(y)) => x.same(y),
            _ => false,
        }
    }
}

/// The line of a surface.
pub open spec fn line_of_surface(s: SurfaceModel) -> LineModel {
    LineModel::Surface { id: s.id, revision: s.revision, body: s.body }
}

/// A surface as a line.
pub fn surface_line(surface: &Surface) -> (r: Line)
    ensures
        r@ == line_of_surface(surface@),
{
    Line::Surface {
        id: surface.id.dup(),
        revision: surface.revision.dup(),
        body: surface.body.dup(),
    }
}

/// The line of a block's defaults: it carries their address.
pub open spec fn line_of_defaults(d: BlockDefaultsModel) -> Result<LineModel, CanonicalError> {
    match canonical::plain_hash(d.body) {
        Ok(hash) => Ok(
            LineModel::BlockDefaults {
                block: d.block.id,
                version: d.block.version,
                hash,
                body: d.body,
            },
        ),
        Err(e) => Err(e),
    }
}

/// Block defaults as a line, under the address of their body.
pub fn block_defaults_line(defaults: &BlockDefaults) -> (r: Result<Line, CanonicalError>)
    ensures
        match r {
            Ok(line) => line_of_defaults(defaults@) == Ok::<_, CanonicalError>(line@),
            Err(e) => line_of_defaults(defaults@) == Err::<LineModel, _>(e),
        },
{
    match hash_plain(&defaults.body) {
        Ok(hash) => Ok(
            Line::BlockDefaults {
                block: defaults.block.id.dup(),
                version: defaults.block.version,
                hash,
                body: defaults.body.dup(),
            },
        ),
        Err(e) => Err(e),
    }
}

/// The surfaces among some lines, in order.
pub open spec fn surfaces_of(lines: Seq<LineModel>) -> Seq<SurfaceModel>
    decreases lines.len(),
{
    if lines.len() == 0 {
        Seq::empty()
    } else {
        match lines.last() {
            LineModel::Surface { id, revision, body } => surfaces_of(lines.drop_last()).push(
                SurfaceModel { id, revision, body },
            ),
            _ => surfaces_of(lines.drop_last()),
        }
    }
}

/// The surfaces that a stream carries.
pub fn surfaces(lines: &[Line]) -> (r: Vec<Surface>)
    ensures
        r.deep_view() == surfaces_of(order::models(lines@)),
{
    let ghost m = order::models(lines@);
    let mut r: Vec<Surface> = Vec::new();
    let mut i: usize = 0;
    assert(r.deep_view() =~= Seq::<SurfaceModel>::empty());
    while i < lines.len()
        invariant
            i <= lines@.len(),
            m == order::models(lines@),
            r.deep_view() == surfaces_of(m.take(i as int)),
        decreases lines@.len() - i,
    {
        let ghost had = r.deep_view();
        proof {
            assert(m.take(i + 1).drop_last() =~= m.take(i as int));
            assert(m.take(i + 1).last() == lines@[i as int]@);
        }
        match &lines[i] {
            Line::Surface { id, revision, body } => {
                let s = Surface { id: id.dup(), revision: revision.dup(), body: body.dup() };
                let ghost e = s@;
                r.push(s);
                assert(r.deep_view() =~= had.push(e));
            },
            _ => {},
        }
        i += 1;
    }
    assert(m.take(m.len() as int) =~= m);
    r
}

/// The block defaults among some lines, in order.
pub open spec fn defaults_of(lines: Seq<LineModel>) -> Seq<BlockDefaultsModel>
    decreases lines.len(),
{
    if lines.len() == 0 {
        Seq::empty()
    } else {
        match lines.last() {
            LineModel::BlockDefaults { block, version, hash, body } => defaults_of(
                lines.drop_last(),
            ).push(BlockDefaultsModel { block: BlockRefModel { id: block, version }, body }),
            _ => defaults_of(lines.drop_last()),
        }
    }
}

/// The block defaults that a stream carries.
pub fn block_defaults(lines: &[Line]) -> (r: Vec<BlockDefaults>)
    ensures
        r.deep_view() == defaults_of(order::models(lines@)),
{
    let ghost m = order::models(lines@);
    let mut r: Vec<BlockDefaults> = Vec::new();
    let mut i: usize = 0;
    assert(r.deep_view() =~= Seq::<BlockDefaultsModel>::empty());
    while i < lines.len()
        invariant
            i <= lines@.len(),
            m == order::models(lines@),
            r.deep_view() == defaults_of(m.take(i as int)),
        decreases lines@.len() - i,
    {
        let ghost had = r.deep_view();
        proof {
            assert(m.take(i + 1).drop_last() =~= m.take(i as int));
            assert(m.take(i + 1).last() == lines@[i as int]@);
        }
        match &lines[i] {
            Line::BlockDefaults { block, version, hash, body } => {
                let d = BlockDefaults {
                    block: BlockRef { id: block.dup(), version: *version },
                    body: body.dup(),
                };
                let ghost e = d@;
                r.push(d);
                assert(r.deep_view() =~= had.push(e));
            },
            _ => {},
        }
        i += 1;
    }
    assert(m.take(m.len() as int) =~= m);
    r
}

/// The blobs that some lines describe, by their addresses.
pub open spec fn blobs_of(lines: Seq<LineModel>) -> Map<Seq<u8>, DescribedBlobModel>
    decreases lines.len(),
{
    if lines.len() == 0 {
        Map::empty()
    } else {
        match lines.last() {
            LineModel::Attachment { hash, byte_size, content_type }
            | LineModel::Snapshot { hash, byte_size, content_type } => blobs_of(
                lines.drop_last(),
            ).insert(hash, DescribedBlobModel { hash, byte_size, content_type }),
            _ => blobs_of(lines.drop_last()),
        }
    }
}

/// The described blobs in the order of their addresses.
pub open spec fn blobs_in_order(lines: Seq<LineModel>) -> Seq<DescribedBlobModel> {
    let blobs = blobs_of(lines);
    let keys = collections::key_order::<ContentHash>(blobs.dom());
    Seq::new(keys.len(), |i: int| blobs[keys[i]])
}

fn blob_map(lines: &[Line]) -> (r: OrderedMap<ContentHash, DescribedBlob>)
    ensures
        r@ == blobs_of(order::models(lines@)),
{
    let ghost m = order::models(lines@);
    let mut blobs: OrderedMap<ContentHash, DescribedBlob> = OrderedMap::new();
    let mut i: usize = 0;
    while i < lines.len()
        invariant
            i <= lines@.len(),
            m == order::models(lines@),
            blobs@ == blobs_of(m.take(i as int)),
        decreases lines@.len() - i,
    {
        proof {
            assert(m.take(i + 1).drop_last() =~= m.take(i as int));
            assert(m.take(i + 1).last() == lines@[i as int]@);
        }
        match &lines[i] {
            Line::Attachment { hash, byte_size, content_type } => {
                blobs.insert(
                    *hash,
                    DescribedBlob {
                        hash: *hash,
                        byte_size: *byte_size,
                        content_type: content_type.dup(),
                    },
                );
            },
            Line::Snapshot { hash, byte_size, content_type } => {
                blobs.insert(
                    *hash,
                    DescribedBlob {
                        hash: *hash,
                        byte_size: *byte_size,
                        content_type: content_type.dup(),
                    },
                );
            },
            _ => {},
        }
        i += 1;
    }
    assert(m.take(m.len() as int) =~= m);
    blobs
}

/// The blobs that a stream describes, in the order of their addresses,
/// each once.
pub fn described_blobs(lines: &[Line]) -> (r: Vec<DescribedBlob>)
    ensures
        r.deep_view() == blobs_in_order(order::models(lines@)),
{
    let blobs = blob_map(lines);
    let n = blobs.len();
    let ghost keys = blobs.keys();
    let mut r: Vec<DescribedBlob> = Vec::new();
    let mut i: usize = 0;
    while i < n
        invariant
            i <= n == keys.len(),
            keys == blobs.keys(),
            r@.len() == i,
            forall|j: int| 0 <= j < i ==> (#[trigger] r@[j])@ == blobs@[keys[j]],
        decreases n - i,
    {
        r.push(blobs.value_at(i).dup());
        i += 1;
    }
    assert(r.deep_view() =~= blobs_in_order(order::models(lines@)));
    r
}

/// A line of a surface carries the surface, wherever it stands.
pub proof fn surfaces_come_through(lines: Seq<LineModel>, s: SurfaceModel)
    ensures
        surfaces_of(lines.push(line_of_surface(s))) == surfaces_of(lines).push(s),
{
    assert(lines.push(line_of_surface(s)).drop_last() =~= lines);
}

/// A line of block defaults carries the defaults, wherever it stands.
pub proof fn defaults_come_through(lines: Seq<LineModel>, d: BlockDefaultsModel)
    ensures
        line_of_defaults(d) matches Ok(line) ==> defaults_of(lines.push(line)) == defaults_of(
            lines,
        ).push(d),
{
    if line_of_defaults(d) is Ok {
        let line = line_of_defaults(d)->Ok_0;
        assert(lines.push(line).drop_last() =~= lines);
    }
}

proof fn blobs_are_finite(lines: Seq<LineModel>)
    ensures
        blobs_of(lines).dom().finite(),
        forall|h: Seq<u8>| #[trigger]
            blobs_of(lines).dom().contains(h) ==> blobs_of(lines)[h].hash == h,
    decreases lines.len(),
{
    if lines.len() > 0 {
        blobs_are_finite(lines.drop_last());
    }
}

/// The described blobs stand in the order of their addresses, each once:
/// the archive of a stream has one form.
pub proof fn described_once_in_order(lines: Seq<LineModel>)
    ensures
        collections::lists::<ContentHash>(sidecar::hashes(blobs_in_order(lines)), blobs_of(lines).dom()),
        sidecar::hashes(blobs_in_order(lines)).no_duplicates(),
{
    let blobs = blobs_of(lines);
    blobs_are_finite(lines);
    collections::finite_is_listed::<ContentHash>(blobs.dom());
    let keys = collections::key_order::<ContentHash>(blobs.dom());
    assert(collections::lists::<ContentHash>(keys, blobs.dom()));
    assert forall|i: int| 0 <= i < keys.len() implies blobs[#[trigger] keys[i]].hash == keys[i] by {
        assert(keys.contains(keys[i]));
    }
    assert(sidecar::hashes(blobs_in_order(lines)) =~= keys);
    collections::in_order_is_distinct::<ContentHash>(keys);
}

} // verus!
