//! What can be published, and what publishing leaves as it was.

use vstd::prelude::*;
use crate::blocks;
use crate::cast;
use crate::impact;
use crate::nomenclatures;
use crate::revision;
use crate::schema;
use crate::schema_form;
use crate::schema_laws;
use crate::blocks::{BlockErrorModel, BlockModel, PublishBlockErrorModel};
use crate::revision::{PublishedRevisionModel, RevisionDagModel};
use crate::schema::{ElementModel, Group, OptionRowModel, Schema, SchemaErrorModel, SchemaModel};

verus! {

/// Whether a row has the id of an earlier one.
pub open spec fn repeats_an_earlier(rows: Seq<OptionRowModel>, j: int) -> bool {
    0 <= j < rows.len() && exists|i: int| 0 <= i < j && (#[trigger] rows[i]).id == rows[j].id
}

/// The duplicate that a list of options is refused for is its first; a
/// list without duplicates has none.
pub proof fn the_first_duplicate_is_named(rows: Seq<OptionRowModel>)
    ensures
        nomenclatures::duplicate_option(rows) is None <==> forall|j: int| !#[trigger] repeats_an_earlier(rows, j),
        nomenclatures::duplicate_option(rows) matches Some(id) ==> exists|j: int| #[trigger]
            repeats_an_earlier(rows, j) && rows[j].id == id && forall|k: int|
                k < j ==> !#[trigger] repeats_an_earlier(rows, k),
    decreases rows.len(),
{
    if rows.len() > 0 {
        let rest = rows.drop_last();
        let n = rows.len() - 1;
        the_first_duplicate_is_named(rest);
        assert(rows[n] == rows.last());
        assert forall|j: int| j != n implies #[trigger] repeats_an_earlier(rows, j)
            == repeats_an_earlier(rest, j) by {
            if repeats_an_earlier(rows, j) {
                let i = choose|i: int| 0 <= i < j && (#[trigger] rows[i]).id == rows[j].id;
                assert(rest[i].id == rest[j].id);
            }
            if repeats_an_earlier(rest, j) {
                let i = choose|i: int| 0 <= i < j && (#[trigger] rest[i]).id == rest[j].id;
                assert(rows[i].id == rows[j].id);
            }
        }
        assert(repeats_an_earlier(rows, n) == cast::has_option(rest, rows.last().id)) by {
            if cast::has_option(rest, rows.last().id) {
                let i = choose|i: int|
                    0 <= i < rest.len() && (#[trigger] rest[i]).id == rows.last().id;
                assert(rows[i].id == rows[n].id);
            }
            if repeats_an_earlier(rows, n) {
                let i = choose|i: int| 0 <= i < n && (#[trigger] rows[i]).id == rows[n].id;
                assert(rest[i].id == rows.last().id);
            }
        }
        match nomenclatures::duplicate_option(rest) {
            Some(id) => {
                let j = choose|j: int| #[trigger]
                    repeats_an_earlier(rest, j) && rest[j].id == id && forall|k: int|
                        k < j ==> !#[trigger] repeats_an_earlier(rest, k);
                assert(repeats_an_earlier(rows, j));
                assert(rows[j].id == id);
                assert forall|k: int| k < j implies !#[trigger] repeats_an_earlier(rows, k) by {
                    assert(!repeats_an_earlier(rest, k));
                }
            },
            None => {
                assert forall|k: int| k < n implies !#[trigger] repeats_an_earlier(rows, k) by {
                    assert(!repeats_an_earlier(rest, k));
                }
            },
        }
    }
}

/// The options that a next version is refused for are those of the
/// latest version that it lacks; a first version lacks none.
pub proof fn dropped_options_are_named(
    versions: Seq<Seq<OptionRowModel>>,
    rows: Seq<OptionRowModel>,
    id: Seq<char>,
)
    ensures
        nomenclatures::dropped_by(versions, rows).contains(id) <==> versions.len() > 0 && (exists|i: int|
            0 <= i < versions.last().len() && (#[trigger] versions.last()[i]).id == id) && (forall|
            i: int,
        |
            0 <= i < rows.len() ==> (#[trigger] rows[i]).id != id),
{
    if versions.len() > 0 {
        let p = |r: OptionRowModel| !cast::has_option(rows, r.id);
        dropped_ids(versions.last(), p, id);
        let before = versions.last();
        assert((exists|i: int| 0 <= i < before.len() && p(#[trigger] before[i]) && before[i].id == id)
            <==> (exists|i: int| 0 <= i < before.len() && (#[trigger] before[i]).id == id)
            && !cast::has_option(rows, id)) by {
            if exists|i: int| 0 <= i < before.len() && (#[trigger] before[i]).id == id {
                let i = choose|i: int| 0 <= i < before.len() && (#[trigger] before[i]).id == id;
                assert(p(before[i]) == !cast::has_option(rows, id));
            }
        }
    }
}

proof fn dropped_ids(s: Seq<OptionRowModel>, p: spec_fn(OptionRowModel) -> bool, id: Seq<char>)
    ensures
        nomenclatures::row_ids(impact::kept(s, p)).contains(id) <==> exists|i: int|
            0 <= i < s.len() && p(#[trigger] s[i]) && s[i].id == id,
    decreases s.len(),
{
    if s.len() > 0 {
        let rest = s.drop_last();
        let n = s.len() - 1;
        dropped_ids(rest, p, id);
        assert(s[n] == s.last());
        let more = if p(s.last()) {
            seq![s.last().id]
        } else {
            Seq::empty()
        };
        assert(nomenclatures::row_ids(impact::kept(s, p)) =~= nomenclatures::row_ids(impact::kept(rest, p)) + more);
        schema_laws::join_contains(nomenclatures::row_ids(impact::kept(rest, p)), more, id);
        if p(s.last()) {
            assert(more[0] == s.last().id);
        }
        if exists|i: int| 0 <= i < rest.len() && p(#[trigger] rest[i]) && rest[i].id == id {
            let i = choose|i: int| 0 <= i < rest.len() && p(#[trigger] rest[i]) && rest[i].id == id;
            assert(s[i] == rest[i]);
        }
        if exists|i: int| 0 <= i < s.len() && p(#[trigger] s[i]) && s[i].id == id {
            let i = choose|i: int| 0 <= i < s.len() && p(#[trigger] s[i]) && s[i].id == id;
            if i < n {
                assert(rest[i] == s[i]);
            }
        }
    }
}

/// A registry's table has each version of each nomenclature under its
/// number, counted from 1, and nothing else.
pub proof fn versions_are_counted_from_one(
    m: Map<Seq<char>, Seq<Seq<OptionRowModel>>>,
    id: Seq<char>,
    v: u32,
)
    ensures
        nomenclatures::table_of(m).dom().contains((id, v)) <==> m.dom().contains(id) && v >= 1 && v <= m[id].len(),
        nomenclatures::table_of(m).dom().contains((id, v)) ==> nomenclatures::table_of(m)[(id, v)] == m[id][v - 1],
{
}

/// What is wrong with a block is what is wrong with a schema that holds
/// its group alone and declares its resolvers.
pub proof fn blocks_are_judged_as_schemas(b: BlockModel, max: usize, e: SchemaErrorModel)
    ensures
        blocks::block_errors(b, max).contains(BlockErrorModel::Schema(e)) <==> schema_laws::is_at_fault(
            SchemaModel { root: seq![ElementModel::Group(b.group)], resolvers: b.resolvers },
            max,
            e,
        ),
{
    let s = SchemaModel { root: seq![ElementModel::Group(b.group)], resolvers: b.resolvers };
    let errors = schema::schema_errors(s, max);
    let out = blocks::block_errors(b, max);
    schema_laws::errors_are_faults(s, max, e);
    if errors.contains(e) {
        let i = choose|i: int| 0 <= i < errors.len() && errors[i] == e;
        assert(out[i] == BlockErrorModel::Schema(e));
    }
    if out.contains(BlockErrorModel::Schema(e)) {
        let i = choose|i: int| 0 <= i < out.len() && out[i] == BlockErrorModel::Schema(e);
        assert(errors[i] == e);
    }
}

/// A block is published exactly where nothing is wrong with it, it bears
/// the next number, and its group keeps its id.
pub proof fn the_next_version_is_published(
    m: Map<Seq<char>, Seq<BlockModel>>,
    block: BlockModel,
    max: usize,
)
    ensures
        ({
            let had = if m.dom().contains(block.id) {
                m[block.id]
            } else {
                Seq::empty()
            };
            let sound = blocks::block_errors(block, max).len() == 0;
            let next = block.version == had.len() + 1;
            let same = had.len() > 0 ==> had[had.len() - 1].group.id == block.group.id;
            &&& blocks::publication(m, block, max) is Ok <==> sound && next && same
            &&& blocks::publication(m, block, max) matches Ok(n) ==> n == had.len() + 1
            &&& !sound ==> blocks::publication(m, block, max) == Err::<u32, _>(
                PublishBlockErrorModel::Invalid { id: block.id, errors: blocks::block_errors(block, max) },
            )
            &&& sound && !next && had.len() < u32::MAX ==> (blocks::publication(m, block, max) matches Err(
                PublishBlockErrorModel::VersionMismatch { id, expected, next: n },
            ) && id == block.id && expected == block.version && n == had.len() + 1)
            &&& sound && next && !same ==> blocks::publication(m, block, max) == Err::<u32, _>(
                PublishBlockErrorModel::ShellIdChanged { id: block.id },
            )
        }),
{
}

/// A pasted block is its group, as it is, tied to the block's version.
pub proof fn pasting_keeps_the_group(b: BlockModel)
    ensures
        blocks::pasted(b).id == b.group.id,
        blocks::pasted(b).label == b.group.label,
        blocks::pasted(b).cardinality == b.group.cardinality,
        blocks::pasted(b).children == b.group.children,
        blocks::pasted(b).included_from matches Some(r) && r.id == b.id && r.version == b.version,
{
}

/// Every version of every block is listed, and nothing else.
pub proof fn all_versions_are_listed(
    keys: Seq<Seq<char>>,
    m: Map<Seq<char>, Seq<BlockModel>>,
    b: BlockModel,
)
    ensures
        blocks::blocks_of(keys, m).contains(b) <==> exists|k: int|
            0 <= k < keys.len() && m[#[trigger] keys[k]].contains(b),
    decreases keys.len(),
{
    if keys.len() > 0 {
        let rest = keys.drop_last();
        let n = keys.len() - 1;
        all_versions_are_listed(rest, m, b);
        assert(keys[n] == keys.last());
        schema_laws::join_contains(blocks::blocks_of(rest, m), m[keys.last()], b);
        if blocks::blocks_of(rest, m).contains(b) {
            let k = choose|k: int| 0 <= k < rest.len() && m[#[trigger] rest[k]].contains(b);
            assert(keys[k] == rest[k]);
        }
        assert forall|k: int|
            0 <= k < keys.len() && m[#[trigger] keys[k]].contains(b) implies blocks::blocks_of(
            keys,
            m,
        ).contains(b) by {
            if k < n {
                assert(rest[k] == keys[k]);
            }
        }
    }
}

/// A revision is refused for the first of its parents that is not
/// published, and for nothing else.
pub proof fn the_first_unknown_parent_is_named(
    parents: Seq<Seq<char>>,
    revisions: Map<Seq<char>, PublishedRevisionModel>,
)
    ensures
        revision::unknown_parent(parents, revisions) is None <==> forall|i: int|
            0 <= i < parents.len() ==> revisions.dom().contains(#[trigger] parents[i]),
        revision::unknown_parent(parents, revisions) matches Some(p) ==> exists|i: int|
            0 <= i < parents.len() && #[trigger] parents[i] == p && !revisions.dom().contains(p)
                && forall|j: int| 0 <= j < i ==> revisions.dom().contains(#[trigger] parents[j]),
    decreases parents.len(),
{
    if parents.len() > 0 {
        let rest = parents.drop_first();
        the_first_unknown_parent_is_named(rest, revisions);
        assert forall|i: int| 0 <= i < rest.len() implies #[trigger] rest[i] == parents[i + 1] by {}
        if revisions.dom().contains(parents[0]) {
            if let Some(p) = revision::unknown_parent(rest, revisions) {
                let i = choose|i: int|
                    0 <= i < rest.len() && #[trigger] rest[i] == p && !revisions.dom().contains(p)
                        && forall|j: int|
                        0 <= j < i ==> revisions.dom().contains(#[trigger] rest[j]);
                assert(parents[i + 1] == p);
                assert forall|j: int| 0 <= j < i + 1 implies revisions.dom().contains(
                    #[trigger] parents[j],
                ) by {
                    if j > 0 {
                        assert(rest[j - 1] == parents[j]);
                    }
                }
            } else {
                assert forall|j: int| 0 <= j < parents.len() implies revisions.dom().contains(
                    #[trigger] parents[j],
                ) by {
                    if j > 0 {
                        assert(rest[j - 1] == parents[j]);
                    }
                }
            }
        } else {
            assert(parents[0] == revision::unknown_parent(parents, revisions)->0);
        }
    }
}

/// A new schema is published last, under its own identity, with the
/// parents that it names; the history gains it and keeps the rest.
pub proof fn a_new_revision_comes_last(
    dag: RevisionDagModel,
    schema: SchemaModel,
    parents: Seq<Seq<char>>,
)
    requires
        dag.is_addressed(),
        !dag.revisions.dom().contains(schema_form::revision_of(schema)),
    ensures
        ({
            let after = revision::with_published(dag, schema, parents);
            let id = schema_form::revision_of(schema);
            &&& after.revisions.dom() == dag.revisions.dom().insert(id)
            &&& after.revisions[id].schema == schema
            &&& after.revisions[id].parents == parents
            &&& forall|x: Seq<char>| #[trigger]
                dag.revisions.dom().contains(x) ==> after.revisions[x] == dag.revisions[x]
            &&& after.history() == dag.history().push((id, schema))
        }),
{
    let after = revision::with_published(dag, schema, parents);
    let id = schema_form::revision_of(schema);
    assert forall|i: int| 0 <= i < dag.order.len() implies dag.order[i] != id by {
        assert(dag.order.contains(dag.order[i]));
    }
    assert(after.history() =~= dag.history().push((id, schema)));
}

} // verus!
