//! The revisions of one schema lineage: published, immutable and
//! addressed by their content. Records are never on a revision; entries
//! are authored against one.

use vstd::prelude::*;
use crate::aggregate;
use crate::order;
use crate::schema_form;
use crate::aggregate::{AggregateReport, AggregateRevision, aggregate};
use crate::cast::{CastError, NomenclatureTable};
use crate::collections::OrderedMap;
use crate::ids::RevisionId;
use crate::order::Modeled;
use crate::schema::{Schema, SchemaModel};
use crate::schema_form::revision_id;

verus! {

/// A schema as it was published, with the revisions that it came from.
#[derive(Clone, Debug, PartialEq, Eq)]
pub struct PublishedRevision {
    pub schema: Schema,
    pub parents: Vec<RevisionId>,
}

/// The model of [`PublishedRevision`].
#[verifier::ext_equal]
pub struct PublishedRevisionModel {
    pub schema: SchemaModel,
    pub parents: Seq<Seq<char>>,
}

impl DeepView for PublishedRevision {
    type V = PublishedRevisionModel;

    open spec fn deep_view(&self) -> PublishedRevisionModel {
        PublishedRevisionModel {
            schema: self.schema.deep_view(),
            parents: self.parents.deep_view(),
        }
    }
}

impl View for PublishedRevision {
    type V = PublishedRevisionModel;

    open spec fn view(&self) -> PublishedRevisionModel {
        self.deep_view()
    }
}

impl Modeled for PublishedRevision {
    fn dup(&self) -> (r: Self) {
        PublishedRevision {
            schema: self.schema.dup(),
            parents: self.parents.dup(),
        }
    }

    fn same(&self, other: &Self) -> (b: bool) {
        self.schema.same(&other.schema)
            && self.parents.same(&other.parents)
    }
}

/// Why a schema cannot be published.
#[derive(Clone, Debug, PartialEq, Eq)]
pub enum PublishError {
    UnknownParent(RevisionId),
}

/// The model of [`PublishError`].
#[verifier::ext_equal]
pub enum PublishErrorModel {
    UnknownParent(Seq<char>),
}

impl DeepView for PublishError {
    type V = PublishErrorModel;

    open spec fn deep_view(&self) -> PublishErrorModel {
        match self {
            PublishError::UnknownParent(x) => PublishErrorModel::UnknownParent(x.deep_view()),
        }
    }
}

impl View for PublishError {
    type V = PublishErrorModel;

    open spec fn view(&self) -> PublishErrorModel {
        self.deep_view()
    }
}

impl Modeled for PublishError {
    fn dup(&self) -> (r: Self) {
        match self {
            PublishError::UnknownParent(x) => PublishError::UnknownParent(x.dup()),
        }
    }

    fn same(&self, other: &Self) -> (b: bool) {
        match (self, other) {
            (PublishError::UnknownParent(x), PublishError::UnknownParent(y)) => x.same(y),
        }
    }
}

/// The revisions of one lineage.
#[derive(Debug, PartialEq, Eq)]
pub struct RevisionDag {
    revisions: OrderedMap<RevisionId, PublishedRevision>,
    /// Oldest first.
    order: Vec<RevisionId>,
}

/// The model of [`RevisionDag`].
#[verifier::ext_equal]
pub struct RevisionDagModel {
    pub revisions: Map<Seq<char>, PublishedRevisionModel>,
    pub order: Seq<Seq<char>>,
}

impl RevisionDagModel {
    /// Every revision stands under its content's address, and the
    /// history lists each once.
    pub open spec fn is_addressed(self) -> bool {
        &&& self.order.no_duplicates()
        &&& forall|id: Seq<char>| #[trigger]
            self.revisions.dom().contains(id) <==> self.order.contains(id)
        &&& forall|id: Seq<char>| #[trigger]
            self.revisions.dom().contains(id) ==> schema_form::revision_of(self.revisions[id].schema) == id
    }

    /// The history: every published schema with its identity, oldest
    /// first.
    pub open spec fn history(self) -> Seq<(Seq<char>, SchemaModel)> {
        Seq::new(
            self.order.len(),
            |i: int| (self.order[i], self.revisions[self.order[i]].schema),
        )
    }
}

impl View for RevisionDag {
    type V = RevisionDagModel;

    closed spec fn view(&self) -> RevisionDagModel {
        RevisionDagModel { revisions: self.revisions@, order: self.order.deep_view() }
    }
}

/// The first of some parents that is not published.
pub open spec fn unknown_parent(
    parents: Seq<Seq<char>>,
    revisions: Map<Seq<char>, PublishedRevisionModel>,
) -> Option<Seq<char>>
    decreases parents.len(),
{
    if parents.len() == 0 {
        None
    } else if !revisions.dom().contains(parents[0]) {
        Some(parents[0])
    } else {
        unknown_parent(parents.drop_first(), revisions)
    }
}

/// A lineage with one more schema; one that is there already changes
/// nothing.
pub open spec fn with_published(
    dag: RevisionDagModel,
    schema: SchemaModel,
    parents: Seq<Seq<char>>,
) -> RevisionDagModel {
    let id = schema_form::revision_of(schema);
    if dag.revisions.dom().contains(id) {
        dag
    } else {
        RevisionDagModel {
            revisions: dag.revisions.insert(id, PublishedRevisionModel { schema, parents }),
            order: dag.order.push(id),
        }
    }
}

impl Default for RevisionDag {
    fn default() -> (r: Self)
        ensures
            r@.revisions == Map::<Seq<char>, PublishedRevisionModel>::empty(),
            r@.order == Seq::<Seq<char>>::empty(),
    {
        RevisionDag::new()
    }
}

impl RevisionDag {
    #[verifier::type_invariant]
    spec fn holds_together(self) -> bool {
        self@.is_addressed()
    }

    pub fn new() -> (r: Self)
        ensures
            r@.revisions == Map::<Seq<char>, PublishedRevisionModel>::empty(),
            r@.order == Seq::<Seq<char>>::empty(),
    {
        let revisions: OrderedMap<RevisionId, PublishedRevision> = OrderedMap::new();
        let order: Vec<RevisionId> = Vec::new();
        assert(order.deep_view() =~= Seq::<Seq<char>>::empty());
        RevisionDag { revisions, order }
    }

    /// What every lineage keeps.
    pub fn facts(&self)
        ensures
            self@.is_addressed(),
    {
        proof {
            use_type_invariant(self);
        }
    }

    fn find_unknown<'a>(&self, parents: &'a Vec<RevisionId>) -> (r: Option<&'a RevisionId>)
        ensures
            match r {
                Some(p) => unknown_parent(parents.deep_view(), self@.revisions) == Some(p@),
                None => unknown_parent(parents.deep_view(), self@.revisions) is None,
            },
    {
        let ghost m = parents.deep_view();
        let ghost revisions = self@.revisions;
        let mut i: usize = 0;
        assert(m.skip(0) =~= m);
        while i < parents.len()
            invariant
                i <= parents@.len(),
                m == parents.deep_view(),
                revisions == self@.revisions,
                unknown_parent(m, revisions) == unknown_parent(m.skip(i as int), revisions),
            decreases parents@.len() - i,
        {
            proof {
                assert(m.skip(i as int)[0] == parents@[i as int]@);
                assert(m.skip(i as int).drop_first() =~= m.skip(i + 1));
            }
            if !self.revisions.contains_key(&parents[i]) {
                return Some(&parents[i]);
            }
            i += 1;
        }
        None
    }

    /// Publishes a schema under its content's address. Publishing the
    /// same schema twice changes nothing and gives the same identity.
    pub fn publish(&mut self, schema: Schema, parents: Vec<RevisionId>) -> (r: Result<
        RevisionId,
        PublishError,
    >)
        ensures
            match unknown_parent(parents.deep_view(), old(self)@.revisions) {
                Some(p) => final(self)@ == old(self)@ && (r matches Err(e) && e@
                    == PublishErrorModel::UnknownParent(p)),
                None => final(self)@ == with_published(
                    old(self)@,
                    schema@,
                    parents.deep_view(),
                ) && (r matches Ok(id) && id@ == schema_form::revision_of(schema@)),
            },
            final(self)@.is_addressed(),
    {
        proof {
            use_type_invariant(&*self);
        }
        if let Some(p) = self.find_unknown(&parents) {
            return Err(PublishError::UnknownParent(p.dup()));
        }
        let id = revision_id(&schema);
        if !self.revisions.contains_key(&id) {
            let ghost before = self@;
            let ghost sm = schema@;
            let mut revisions = self.revisions.dup();
            revisions.insert(id.dup(), PublishedRevision { schema, parents });
            let mut order = self.order.dup();
            order.push(id.dup());
            proof {
                let after = RevisionDagModel {
                    revisions: revisions@,
                    order: order.deep_view(),
                };
                assert(after.order =~= before.order.push(id@));
                assert(!before.order.contains(id@));
                assert forall|x: Seq<char>| after.order.contains(x) <==> before.order.contains(x)
                    || x == id@ by {
                    if after.order.contains(x) {
                        let k = after.order.index_of(x);
                        if k < before.order.len() {
                            assert(before.order[k] == x);
                        }
                    }
                    if before.order.contains(x) {
                        assert(after.order[before.order.index_of(x)] == x);
                    }
                    assert(after.order[before.order.len() as int] == id@);
                }
                assert forall|i: int, j: int|
                    0 <= i < after.order.len() && 0 <= j < after.order.len() && i != j implies after.order[i]
                    != after.order[j] by {
                    if i < before.order.len() && j < before.order.len() {
                    } else if i < before.order.len() {
                        assert(before.order.contains(before.order[i]));
                    } else {
                        assert(before.order.contains(before.order[j]));
                    }
                }
                assert forall|x: Seq<char>| #[trigger]
                    after.revisions.dom().contains(x) implies schema_form::revision_of(
                    after.revisions[x].schema,
                ) == x by {
                    if x != id@ {
                        assert(before.revisions.dom().contains(x));
                    }
                }
                assert(after.is_addressed());
            }
            *self = RevisionDag { revisions, order };
        }
        Ok(id)
    }

    pub fn get(&self, id: &RevisionId) -> (r: Option<&PublishedRevision>)
        ensures
            match r {
                Some(p) => self@.revisions.dom().contains(id@) && self@.revisions[id@] == p@,
                None => !self@.revisions.dom().contains(id@),
            },
    {
        self.revisions.get(id)
    }

    /// The revision that was published last.
    pub fn latest(&self) -> (r: Option<&RevisionId>)
        ensures
            match r {
                Some(id) => self@.order.len() > 0 && id@ == self@.order.last(),
                None => self@.order.len() == 0,
            },
    {
        let n = self.order.len();
        if n == 0 {
            None
        } else {
            Some(&self.order[n - 1])
        }
    }

    /// The history, oldest first.
    pub fn history(&self) -> (r: Vec<(RevisionId, &Schema)>)
        ensures
            aggregate::history_model(r@) == self@.history(),
    {
        proof {
            use_type_invariant(self);
        }
        let ghost m = self@;
        let mut r: Vec<(RevisionId, &Schema)> = Vec::new();
        let mut i: usize = 0;
        while i < self.order.len()
            invariant
                i <= self.order@.len(),
                m == self@,
                m.is_addressed(),
                r@.len() == i,
                forall|j: int|
                    0 <= j < i ==> (#[trigger] r@[j]).0@ == m.order[j] && r@[j].1@
                        == m.revisions[m.order[j]].schema,
            decreases self.order@.len() - i,
        {
            let id = &self.order[i];
            assert(m.order[i as int] == id@);
            assert(m.order.contains(id@));
            assert(m.revisions.dom().contains(id@));
            let published = self.revisions.get(id).unwrap();
            r.push((id.dup(), &published.schema));
            i += 1;
        }
        assert(aggregate::history_model(r@) =~= m.history());
        r
    }

    /// The aggregate of the whole history.
    pub fn aggregate(&self, nomenclatures: &NomenclatureTable) -> (r: Result<
        (AggregateRevision, AggregateReport),
        CastError,
    >)
        ensures
            order::result_model(r) == aggregate::aggregate_of(self@.history(), nomenclatures@),
    {
        let history = self.history();
        aggregate(history.as_slice(), nomenclatures)
    }
}

/// Publishing is idempotent: a schema that is published already is
/// published again without any change.
pub proof fn publishing_is_idempotent(
    dag: RevisionDagModel,
    schema: SchemaModel,
    parents: Seq<Seq<char>>,
    others: Seq<Seq<char>>,
)
    ensures
        with_published(with_published(dag, schema, parents), schema, others) == with_published(
            dag,
            schema,
            parents,
        ),
{
}

/// What is published stays, as it was published first.
pub proof fn published_revisions_stay(
    dag: RevisionDagModel,
    schema: SchemaModel,
    parents: Seq<Seq<char>>,
    id: Seq<char>,
)
    requires
        dag.revisions.dom().contains(id),
    ensures
        with_published(dag, schema, parents).revisions.dom().contains(id),
        with_published(dag, schema, parents).revisions[id] == dag.revisions[id],
        dag.order.is_prefix_of(with_published(dag, schema, parents).order),
{
    let after = with_published(dag, schema, parents).order;
    assert(dag.order =~= after.subrange(0, dag.order.len() as int));
}

} // verus!
