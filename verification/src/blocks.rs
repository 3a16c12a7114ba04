//! Blocks: reusable groups with the resolvers that they come with,
//! published under an identity and numbered versions. Including a block
//! pastes its group, with its provenance.

use vstd::prelude::*;
use crate::collections;
use crate::schema;
use crate::collections::OrderedMap;
use crate::ids::BlockId;
use crate::order::Modeled;
use crate::schema::{
    BlockRef, BlockRefModel, DepthPolicy, Element, ElementModel, Group, GroupModel,
    ResolverDeclaration, ResolverDeclarationModel, Schema, SchemaError, SchemaErrorModel,
    SchemaModel, validate,
};

verus! {

/// A reusable group.
#[derive(Clone, Debug, PartialEq, Eq)]
pub struct Block {
    pub id: BlockId,
    pub version: u32,
    pub group: Group,
    pub resolvers: Vec<ResolverDeclaration>,
}

/// The model of [`Block`].
#[verifier::ext_equal]
pub struct BlockModel {
    pub id: Seq<char>,
    pub version: u32,
    pub group: GroupModel,
    pub resolvers: Seq<ResolverDeclarationModel>,
}

impl DeepView for Block {
    type V = BlockModel;

    open spec fn deep_view(&self) -> BlockModel {
        BlockModel {
            id: self.id.deep_view(),
            version: self.version,
            group: self.group.deep_view(),
            resolvers: self.resolvers.deep_view(),
        }
    }
}

impl View for Block {
    type V = BlockModel;

    open spec fn view(&self) -> BlockModel {
        self.deep_view()
    }
}

impl Modeled for Block {
    fn dup(&self) -> (r: Self) {
        Block {
            id: self.id.dup(),
            version: self.version,
            group: self.group.dup(),
            resolvers: self.resolvers.dup(),
        }
    }

    fn same(&self, other: &Self) -> (b: bool) {
        self.id.same(&other.id)
            && self.version == other.version
            && self.group.same(&other.group)
            && self.resolvers.same(&other.resolvers)
    }
}

/// What is wrong with a block.
#[derive(Clone, Debug, PartialEq, Eq)]
pub enum BlockError {
    /// The block, as a schema of its own, has this error.
    Schema(SchemaError),
}

/// The model of [`BlockError`].
#[verifier::ext_equal]
pub enum BlockErrorModel {
    Schema(SchemaErrorModel),
}

impl DeepView for BlockError {
    type V = BlockErrorModel;

    open spec fn deep_view(&self) -> BlockErrorModel {
        match self {
            BlockError::Schema(x) => BlockErrorModel::Schema(x.deep_view()),
        }
    }
}

impl View for BlockError {
    type V = BlockErrorModel;

    open spec fn view(&self) -> BlockErrorModel {
        self.deep_view()
    }
}

impl Modeled for BlockError {
    fn dup(&self) -> (r: Self) {
        match self {
            BlockError::Schema(x) => BlockError::Schema(x.dup()),
        }
    }

    fn same(&self, other: &Self) -> (b: bool) {
        match (self, other) {
            (BlockError::Schema(x), BlockError::Schema(y)) => x.same(y),
        }
    }
}

/// A block as a schema of its own.
pub open spec fn as_schema(b: BlockModel) -> SchemaModel {
    SchemaModel { root: seq![ElementModel::Group(b.group)], resolvers: b.resolvers }
}

/// What is wrong with a block.
pub open spec fn block_errors(b: BlockModel, max: usize) -> Seq<BlockErrorModel> {
    let errors = schema::schema_errors(as_schema(b), max);
    Seq::new(errors.len(), |i: int| BlockErrorModel::Schema(errors[i]))
}

/// A block's group as it is pasted: tied to the block's version.
pub open spec fn pasted(b: BlockModel) -> GroupModel {
    GroupModel {
        included_from: Some(BlockRefModel { id: b.id, version: b.version }),
        ..b.group
    }
}

impl Block {
    /// What is wrong with the block: what would be wrong with it as a
    /// schema of its own.
    pub fn validate(&self, policy: DepthPolicy) -> (r: Vec<BlockError>)
        ensures
            r.deep_view() == block_errors(self@, policy.max_many_depth),
    {
        let mut root: Vec<Element> = Vec::new();
        root.push(Element::Group(self.group.dup()));
        let schema = Schema { root, resolvers: self.resolvers.dup() };
        assert(schema@.root =~= seq![ElementModel::Group(self@.group)]);
        let errors = validate(&schema, policy);
        let ghost m = errors.deep_view();
        let mut r: Vec<BlockError> = Vec::new();
        let mut i: usize = 0;
        while i < errors.len()
            invariant
                i <= errors@.len(),
                m == errors.deep_view(),
                r@.len() == i,
                forall|j: int| 0 <= j < i ==> (#[trigger] r@[j])@ == BlockErrorModel::Schema(m[j]),
            decreases errors@.len() - i,
        {
            assert(m[i as int] == errors@[i as int]@);
            r.push(BlockError::Schema(errors[i].dup()));
            i += 1;
        }
        assert(r.deep_view() =~= block_errors(self@, policy.max_many_depth));
        r
    }

    /// Pastes the block at the end of a schema: its group, tied to the
    /// block's version, and its resolvers.
    pub fn include_into(&self, schema: &mut Schema)
        ensures
            final(schema)@ == (SchemaModel {
                root: old(schema)@.root.push(ElementModel::Group(pasted(self@))),
                resolvers: old(schema)@.resolvers + self@.resolvers,
            }),
    {
        let ghost before = schema@;
        let group = Group {
            id: self.group.id.dup(),
            label: self.group.label.dup(),
            cardinality: self.group.cardinality,
            children: self.group.children.dup(),
            included_from: Some(BlockRef { id: self.id.dup(), version: self.version }),
        };
        proof {
            assert(schema::elements_model(group.children@) =~= group.children.deep_view());
            assert(schema::elements_model(self.group.children@) =~= self.group.children.deep_view());
        }
        assert(group@ == pasted(self@));
        schema.root.push(Element::Group(group));
        assert(schema@.root =~= before.root.push(ElementModel::Group(pasted(self@))));
        let mut i: usize = 0;
        assert(before.resolvers =~= before.resolvers + self@.resolvers.take(0));
        while i < self.resolvers.len()
            invariant
                i <= self.resolvers@.len(),
                before == old(schema)@,
                schema@.root == before.root.push(ElementModel::Group(pasted(self@))),
                schema@.resolvers == before.resolvers + self@.resolvers.take(i as int),
            decreases self.resolvers@.len() - i,
        {
            let ghost had = schema@.resolvers;
            schema.resolvers.push(self.resolvers[i].dup());
            proof {
                assert(schema@.resolvers =~= had.push(self@.resolvers[i as int]));
                assert(schema@.resolvers =~= before.resolvers + self@.resolvers.take(i + 1));
            }
            i += 1;
        }
        assert(self@.resolvers.take(self@.resolvers.len() as int) =~= self@.resolvers);
    }
}

/// Why a block is refused.
#[derive(Clone, Debug, PartialEq, Eq)]
pub enum PublishBlockError {
    Invalid { id: BlockId, errors: Vec<BlockError> },
    /// A block declares the version that it expects to become.
    VersionMismatch { id: BlockId, expected: u32, next: u32 },
    /// Every version keeps the identity of the block's group.
    ShellIdChanged { id: BlockId },
}

/// The model of [`PublishBlockError`].
#[verifier::ext_equal]
pub enum PublishBlockErrorModel {
    Invalid { id: Seq<char>, errors: Seq<BlockErrorModel> },
    VersionMismatch { id: Seq<char>, expected: u32, next: u32 },
    ShellIdChanged { id: Seq<char> },
}

impl DeepView for PublishBlockError {
    type V = PublishBlockErrorModel;

    open spec fn deep_view(&self) -> PublishBlockErrorModel {
        match self {
            PublishBlockError::Invalid { id, errors } => PublishBlockErrorModel::Invalid {
                id: id.deep_view(),
                errors: errors.deep_view(),
            },
            PublishBlockError::VersionMismatch { id, expected, next } => PublishBlockErrorModel::VersionMismatch {
                id: id.deep_view(),
                expected: *expected,
                next: *next,
            },
            PublishBlockError::ShellIdChanged { id } => PublishBlockErrorModel::ShellIdChanged {
                id: id.deep_view(),
            },
        }
    }
}

impl View for PublishBlockError {
    type V = PublishBlockErrorModel;

    open spec fn view(&self) -> PublishBlockErrorModel {
        self.deep_view()
    }
}

impl Modeled for PublishBlockError {
    fn dup(&self) -> (r: Self) {
        match self {
            PublishBlockError::Invalid { id, errors } => PublishBlockError::Invalid {
                id: id.dup(),
                errors: errors.dup(),
            },
            PublishBlockError::VersionMismatch { id, expected, next } => PublishBlockError::VersionMismatch {
                id: id.dup(),
                expected: *expected,
                next: *next,
            },
            PublishBlockError::ShellIdChanged { id } => PublishBlockError::ShellIdChanged {
                id: id.dup(),
            },
        }
    }

    fn same(&self, other: &Self) -> (b: bool) {
        match (self, other) {
            (
                PublishBlockError::Invalid { id, errors },
                PublishBlockError::Invalid { id: id2, errors: errors2 },
            ) => {
                id.same(id2)
                    && errors.same(errors2)
            },
            (
                PublishBlockError::VersionMismatch { id, expected, next },
                PublishBlockError::VersionMismatch { id: id2, expected: expected2, next: next2 },
            ) => {
                id.same(id2)
                    && *expected == *expected2
                    && *next == *next2
            },
            (
                PublishBlockError::ShellIdChanged { id },
                PublishBlockError::ShellIdChanged { id: id2 },
            ) => {
                id.same(id2)
            },
            _ => false,
        }
    }
}

/// Published blocks.
#[derive(Debug, PartialEq, Eq)]
pub struct BlockRegistry {
    /// By block, the first version first.
    versions: OrderedMap<BlockId, Vec<Block>>,
}

impl View for BlockRegistry {
    type V = Map<Seq<char>, Seq<BlockModel>>;

    closed spec fn view(&self) -> Map<Seq<char>, Seq<BlockModel>> {
        self.versions@
    }
}

/// The versions of a block; none where nothing is published.
pub open spec fn block_versions(m: Map<Seq<char>, Seq<BlockModel>>, id: Seq<char>) -> Seq<
    BlockModel,
> {
    if m.dom().contains(id) {
        m[id]
    } else {
        Seq::empty()
    }
}

/// Whether versions are numbered from 1, carry the block's identity and
/// keep the group's.
pub open spec fn is_numbered(id: Seq<char>, versions: Seq<BlockModel>) -> bool {
    &&& forall|i: int|
        0 <= i < versions.len() ==> (#[trigger] versions[i]).version == i + 1 && versions[i].id
            == id
    &&& forall|i: int, j: int|
        0 <= i < versions.len() && 0 <= j < versions.len() ==> (#[trigger] versions[i]).group.id
            == (#[trigger] versions[j]).group.id
}

/// Whether every block's versions are numbered.
pub open spec fn all_numbered(m: Map<Seq<char>, Seq<BlockModel>>) -> bool {
    forall|id: Seq<char>| #[trigger] m.dom().contains(id) ==> is_numbered(id, m[id])
}

/// What publishing a block comes to: its number, or why it is refused.
pub open spec fn publication(
    m: Map<Seq<char>, Seq<BlockModel>>,
    block: BlockModel,
    max: usize,
) -> Result<u32, PublishBlockErrorModel> {
    let versions = block_versions(m, block.id);
    let errors = block_errors(block, max);
    if errors.len() > 0 {
        Err(PublishBlockErrorModel::Invalid { id: block.id, errors })
    } else if block.version != versions.len() + 1 {
        Err(
            PublishBlockErrorModel::VersionMismatch {
                id: block.id,
                expected: block.version,
                next: (versions.len() + 1) as u32,
            },
        )
    } else if versions.len() > 0 && versions.last().group.id != block.group.id {
        Err(PublishBlockErrorModel::ShellIdChanged { id: block.id })
    } else {
        Ok(block.version)
    }
}

/// The versions of some blocks, one after the other.
pub open spec fn blocks_of(keys: Seq<Seq<char>>, m: Map<Seq<char>, Seq<BlockModel>>) -> Seq<
    BlockModel,
>
    decreases keys.len(),
{
    if keys.len() == 0 {
        Seq::empty()
    } else {
        blocks_of(keys.drop_last(), m) + m[keys.last()]
    }
}

impl Default for BlockRegistry {
    fn default() -> (r: Self)
        ensures
            r@ == Map::<Seq<char>, Seq<BlockModel>>::empty(),
    {
        BlockRegistry::new()
    }
}

impl BlockRegistry {
    #[verifier::type_invariant]
    spec fn is_in_order(self) -> bool {
        all_numbered(self@)
    }

    pub fn new() -> (r: Self)
        ensures
            r@ == Map::<Seq<char>, Seq<BlockModel>>::empty(),
    {
        let versions: OrderedMap<BlockId, Vec<Block>> = OrderedMap::new();
        BlockRegistry { versions }
    }

    /// What every registry keeps.
    pub fn facts(&self)
        ensures
            all_numbered(self@),
    {
        proof {
            use_type_invariant(self);
        }
    }

    /// Publishes the next version of a block, which must be numbered as
    /// such. A block can have as many versions as 32 bits can number.
    pub fn publish(&mut self, block: Block, policy: DepthPolicy) -> (r: Result<
        u32,
        PublishBlockError,
    >)
        requires
            block_versions(old(self)@, block@.id).len() < u32::MAX,
        ensures
            match publication(old(self)@, block@, policy.max_many_depth) {
                Ok(n) => r == Ok::<u32, PublishBlockError>(n) && final(self)@ == old(self)@.insert(
                    block@.id,
                    block_versions(old(self)@, block@.id).push(block@),
                ),
                Err(e) => final(self)@ == old(self)@ && (r matches Err(x) && x@ == e),
            },
            all_numbered(final(self)@),
    {
        proof {
            use_type_invariant(&*self);
        }
        let ghost before = self@;
        let ghost bm = block@;
        let errors = block.validate(policy);
        assert(errors.deep_view().len() == errors@.len());
        if errors.len() > 0 {
            return Err(PublishBlockError::Invalid { id: block.id.dup(), errors });
        }
        let ghost list = block_versions(self@, block@.id);
        let mut versions: Vec<Block> = match self.versions.get(&block.id) {
            Some(v) => v.dup(),
            None => Vec::new(),
        };
        assert(versions.deep_view() =~= list);
        let n = versions.len();
        assert(versions.deep_view().len() == n);
        let next = n as u32 + 1;
        if block.version != next {
            return Err(
                PublishBlockError::VersionMismatch {
                    id: block.id.dup(),
                    expected: block.version,
                    next,
                },
            );
        }
        if n > 0 {
            let previous = &versions[n - 1];
            assert(list.last() == previous@);
            if !previous.group.id.same(&block.group.id) {
                return Err(PublishBlockError::ShellIdChanged { id: block.id.dup() });
            }
        }
        let id = block.id.dup();
        versions.push(block);
        let mut all = self.versions.dup();
        proof {
            let longer = list.push(bm);
            assert(versions.deep_view() =~= longer);
            assert(before.dom().contains(id@) ==> is_numbered(id@, list));
            assert(is_numbered(id@, longer)) by {
                assert forall|i: int| 0 <= i < longer.len() implies (#[trigger] longer[i]).version
                    == i + 1 && longer[i].id == id@ && longer[i].group.id == bm.group.id by {
                    if i < list.len() {
                        assert(longer[i] == list[i]);
                        assert(list[i].group.id == list[list.len() - 1].group.id);
                    }
                }
            }
        }
        all.insert(id, versions);
        assert(all_numbered(all@)) by {
            assert forall|x: Seq<char>| #[trigger] all@.dom().contains(x) implies is_numbered(
                x,
                all@[x],
            ) by {
                if x != bm.id {
                    assert(before.dom().contains(x));
                }
            }
        }
        *self = BlockRegistry { versions: all };
        Ok(next)
    }

    /// One version of a block.
    pub fn get(&self, id: &BlockId, version: u32) -> (r: Option<&Block>)
        ensures
            ({
                let versions = block_versions(self@, id@);
                match r {
                    Some(b) => 1 <= version <= versions.len() && b@ == versions[version - 1],
                    None => version == 0 || version > versions.len(),
                }
            }),
    {
        match self.versions.get(id) {
            Some(v) => {
                let n = v.len();
                assert(v.deep_view().len() == n);
                if version == 0 || version as usize > n {
                    None
                } else {
                    let i = version as usize - 1;
                    assert(v.deep_view()[i as int] == v@[i as int]@);
                    Some(&v[i])
                }
            },
            None => None,
        }
    }

    /// The latest version of a block.
    pub fn latest(&self, id: &BlockId) -> (r: Option<&Block>)
        ensures
            ({
                let versions = block_versions(self@, id@);
                match r {
                    Some(b) => versions.len() > 0 && b@ == versions.last(),
                    None => versions.len() == 0,
                }
            }),
    {
        match self.versions.get(id) {
            Some(v) => {
                let n = v.len();
                assert(v.deep_view().len() == n);
                if n == 0 {
                    None
                } else {
                    assert(v.deep_view()[n - 1] == v@[n - 1]@);
                    Some(&v[n - 1])
                }
            },
            None => None,
        }
    }

    /// Every version of every block.
    pub fn all(&self) -> (r: Vec<Block>)
        ensures
            r.deep_view() == blocks_of(collections::key_order::<BlockId>(self@.dom()), self@),
    {
        let n = self.versions.len();
        let ghost keys = self.versions.keys();
        let mut r: Vec<Block> = Vec::new();
        let mut i: usize = 0;
        assert(keys.take(0) =~= Seq::<Seq<char>>::empty());
        assert(r.deep_view() =~= Seq::<BlockModel>::empty());
        while i < n
            invariant
                i <= n == keys.len(),
                keys == self.versions.keys(),
                r.deep_view() == blocks_of(keys.take(i as int), self@),
            decreases n - i,
        {
            proof {
                assert(keys.take(i + 1).drop_last() =~= keys.take(i as int));
            }
            let versions = self.versions.value_at(i);
            let ghost start = r.deep_view();
            let ghost m = versions.deep_view();
            let mut j: usize = 0;
            assert(start =~= start + m.take(0));
            while j < versions.len()
                invariant
                    j <= versions@.len(),
                    m == versions.deep_view(),
                    r.deep_view() == start + m.take(j as int),
                decreases versions@.len() - j,
            {
                let ghost had = r.deep_view();
                r.push(versions[j].dup());
                assert(r.deep_view() =~= had.push(m[j as int]));
                assert(had.push(m[j as int]) =~= start + m.take(j + 1));
                j += 1;
            }
            assert(m.take(m.len() as int) =~= m);
            i += 1;
        }
        assert(keys.take(n as int) =~= keys);
        r
    }
}

} // verus!
