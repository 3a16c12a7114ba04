//! One value, one encoding: what a reader accepts is the form of what it
//! reads, so no second spelling of a value can be committed to.

use vstd::prelude::*;
use crate::canonical;
use crate::codec;
use crate::collections;
use crate::time;
use crate::canonical::CanonicalValueModel;
use crate::codec::op;

verus! {

/// Whether the members of every object stand in key order, each key once.
/// Those of every value that can be built do.
pub open spec fn keys_in_order(v: CanonicalValueModel) -> bool
    decreases v,
{
    match v {
        CanonicalValueModel::Object(m) => canonical::members_in_order(m) && forall|i: int|
            0 <= i < m.len() ==> keys_in_order((#[trigger] m[i]).1),
        CanonicalValueModel::Array(a) => forall|i: int|
            0 <= i < a.len() ==> keys_in_order(#[trigger] a[i]),
        _ => true,
    }
}

proof fn only_members4(
    m: Seq<(Seq<char>, CanonicalValueModel)>,
    k1: Seq<char>,
    k2: Seq<char>,
    k3: Seq<char>,
    k4: Seq<char>,
)
    requires
        canonical::members_in_order(m),
        codec::has_only(m, seq![k1, k2, k3, k4]),
        seq![k1, k2, k3, k4].no_duplicates(),
        canonical::member(m, k1) is Some,
        canonical::member(m, k2) is Some,
        canonical::member(m, k3) is Some,
        canonical::member(m, k4) is Some,
    ensures
        m == codec::members4(
            k1,
            canonical::member(m, k1)->0,
            k2,
            canonical::member(m, k2)->0,
            k3,
            canonical::member(m, k3)->0,
            k4,
            canonical::member(m, k4)->0,
        ),
{
    let keys = seq![k1, k2, k3, k4];
    codec::has_only_is(m, keys);
    assert(keys[0] != keys[1] && keys[0] != keys[2] && keys[0] != keys[3]);
    assert(keys[1] != keys[2] && keys[1] != keys[3] && keys[2] != keys[3]);
    let t = codec::members4(
        k1,
        canonical::member(m, k1)->0,
        k2,
        canonical::member(m, k2)->0,
        k3,
        canonical::member(m, k3)->0,
        k4,
        canonical::member(m, k4)->0,
    );
    codec::members4_are(
        k1,
        canonical::member(m, k1)->0,
        k2,
        canonical::member(m, k2)->0,
        k3,
        canonical::member(m, k3)->0,
        k4,
        canonical::member(m, k4)->0,
    );
    assert forall|k: Seq<char>| #[trigger] canonical::member(m, k) == canonical::member(t, k) by {
        if k != k1 && k != k2 && k != k3 && k != k4 && canonical::member(m, k) is Some {
            assert(keys.contains(k));
        }
    }
    codec::same_members(m, t);
}

proof fn only_members5(
    m: Seq<(Seq<char>, CanonicalValueModel)>,
    k1: Seq<char>,
    k2: Seq<char>,
    k3: Seq<char>,
    k4: Seq<char>,
    k5: Seq<char>,
)
    requires
        canonical::members_in_order(m),
        codec::has_only(m, seq![k1, k2, k3, k4, k5]),
        seq![k1, k2, k3, k4, k5].no_duplicates(),
        canonical::member(m, k1) is Some,
        canonical::member(m, k2) is Some,
        canonical::member(m, k3) is Some,
        canonical::member(m, k4) is Some,
        canonical::member(m, k5) is Some,
    ensures
        m == codec::members5(
            k1,
            canonical::member(m, k1)->0,
            k2,
            canonical::member(m, k2)->0,
            k3,
            canonical::member(m, k3)->0,
            k4,
            canonical::member(m, k4)->0,
            k5,
            canonical::member(m, k5)->0,
        ),
{
    let keys = seq![k1, k2, k3, k4, k5];
    codec::has_only_is(m, keys);
    assert(keys[0] != keys[1] && keys[0] != keys[2] && keys[0] != keys[3] && keys[0] != keys[4]);
    assert(keys[1] != keys[2] && keys[1] != keys[3] && keys[1] != keys[4]);
    assert(keys[2] != keys[3] && keys[2] != keys[4] && keys[3] != keys[4]);
    let t = codec::members5(
        k1,
        canonical::member(m, k1)->0,
        k2,
        canonical::member(m, k2)->0,
        k3,
        canonical::member(m, k3)->0,
        k4,
        canonical::member(m, k4)->0,
        k5,
        canonical::member(m, k5)->0,
    );
    codec::members5_are(
        k1,
        canonical::member(m, k1)->0,
        k2,
        canonical::member(m, k2)->0,
        k3,
        canonical::member(m, k3)->0,
        k4,
        canonical::member(m, k4)->0,
        k5,
        canonical::member(m, k5)->0,
    );
    assert forall|k: Seq<char>| #[trigger] canonical::member(m, k) == canonical::member(t, k) by {
        if k != k1 && k != k2 && k != k3 && k != k4 && k != k5 && canonical::member(m, k) is Some {
            assert(keys.contains(k));
        }
    }
    codec::same_members(m, t);
}

proof fn attachment_has_one_form(v: CanonicalValueModel)
    requires
        keys_in_order(v),
    ensures
        codec::attachment_of(v) matches Some(a) ==> v == CanonicalValueModel::Object(
            codec::attachment_members(a),
        ),
{
    if codec::attachment_of(v) is Some {
        reveal_strlit("id");
        reveal_strlit("hash");
        reveal_strlit("filename");
        reveal_strlit("content_type");
        reveal_strlit("byte_size");
        assert("id"@.len() == 2);
        assert("hash"@.len() == 4);
        assert("filename"@.len() == 8);
        assert("content_type"@.len() == 12);
        assert("byte_size"@.len() == 9);
        let a = codec::attachment_of(v)->0;
        let m = v->Object_0;
        canonical::hash_text_reads_back(a.hash, (canonical::member(m, "hash"@)->0)->String_0);
        only_members5(m, "id"@, "hash"@, "filename"@, "content_type"@, "byte_size"@);
    }
}

proof fn text_has_one_form(kind: Seq<char>, t: Seq<char>)
    ensures
        codec::scalar_of_text(kind, t) matches Some(s) ==> codec::scalar_form(s) == codec::tagged(
            kind,
            CanonicalValueModel::String(t),
        ),
{
    time::parsed_date_is_its_text(t);
}

/// A value that is read as a scalar is the scalar's form.
pub proof fn scalar_has_one_form(v: CanonicalValueModel)
    requires
        keys_in_order(v),
    ensures
        codec::scalar_of(v) matches Some(s) ==> codec::scalar_form(s) == v,
{
    if codec::scalar_of(v) is Some {
        let (kind, inner) = codec::tag_of(v)->0;
        codec::tagged_reads_back(kind, inner, v);
        match inner {
            CanonicalValueModel::String(t) => {
                text_has_one_form(kind, t);
            },
            CanonicalValueModel::Bool(b) => {},
            _ => {
                let m = v->Object_0;
                assert(keys_in_order(m[0].1));
                assert(inner == m[0].1);
                attachment_has_one_form(inner);
            },
        }
    }
}

/// A value that is read as a cell's state is the state's form: a blank
/// cell has no second encoding.
pub proof fn state_has_one_form(v: CanonicalValueModel)
    requires
        keys_in_order(v),
    ensures
        codec::state_of(v) matches Some(s) ==> codec::state_form(s) == v,
{
    if codec::state_of(v) is Some {
        match v {
            CanonicalValueModel::Object(_) => {
                scalar_has_one_form(v);
            },
            CanonicalValueModel::Array(a) => {
                let s = codec::state_of(v)->0;
                assert forall|i: int| 0 <= i < a.len() implies codec::scalar_form(
                    codec::scalar_of(#[trigger] a[i])->0,
                ) == a[i] by {
                    assert(keys_in_order(a[i]));
                    scalar_has_one_form(a[i]);
                }
                assert(codec::state_form(s)->Array_0 =~= a);
            },
            _ => {},
        }
    }
}

proof fn texts_have_one_form(v: CanonicalValueModel)
    ensures
        codec::texts_of(v) matches Some(t) ==> codec::texts_form(t) == v,
{
    if codec::texts_of(v) is Some {
        assert(codec::texts_form(codec::texts_of(v)->0)->Array_0 =~= v->Array_0);
    }
}

proof fn member_is_in_order(m: Seq<(Seq<char>, CanonicalValueModel)>, k: Seq<char>)
    requires
        keys_in_order(CanonicalValueModel::Object(m)),
    ensures
        canonical::member(m, k) matches Some(v) ==> keys_in_order(v),
{
    if canonical::member(m, k) is Some {
        let i = collections::firsts(m).index_of(k);
        assert(collections::firsts(m)[i] == k);
        assert(keys_in_order(m[i].1));
    }
}

proof fn put_has_one_form(m: Seq<(Seq<char>, CanonicalValueModel)>)
    requires
        keys_in_order(CanonicalValueModel::Object(m)),
        codec::text_member(m, "op"@) == Some("set"@),
        codec::op_of_members("set"@, m) is Some,
    ensures
        codec::op_form(codec::op_of_members("set"@, m)->0) == CanonicalValueModel::Object(m),
{
    codec::op_names();
    let path = canonical::member(m, "path"@)->0;
    codec::path_reads_back(codec::path_of(path)->0, path);
    member_is_in_order(m, "state"@);
    state_has_one_form(canonical::member(m, "state"@)->0);
    assert(seq!["op"@, "column"@, "path"@, "state"@].no_duplicates()) by {
        reveal_strlit("op");
        reveal_strlit("column");
        reveal_strlit("path");
        reveal_strlit("state");
        assert("op"@.len() == 2);
        assert("column"@.len() == 6);
        assert("path"@.len() == 4);
        assert("state"@.len() == 5);
    }
    only_members4(m, "op"@, "column"@, "path"@, "state"@);
}

proof fn unset_has_one_form(m: Seq<(Seq<char>, CanonicalValueModel)>)
    requires
        keys_in_order(CanonicalValueModel::Object(m)),
        codec::text_member(m, "op"@) == Some("unset"@),
        codec::op_of_members("unset"@, m) is Some,
    ensures
        codec::op_form(codec::op_of_members("unset"@, m)->0) == CanonicalValueModel::Object(m),
{
    codec::op_names();
    let path = canonical::member(m, "path"@)->0;
    codec::path_reads_back(codec::path_of(path)->0, path);
    assert("op"@ != "column"@ && "op"@ != "path"@ && "column"@ != "path"@) by {
        reveal_strlit("op");
        reveal_strlit("column");
        reveal_strlit("path");
        assert("op"@.len() == 2);
        assert("column"@.len() == 6);
        assert("path"@.len() == 4);
    }
    codec::only_members3(m, "op"@, "column"@, "path"@);
}

proof fn addition_has_one_form(m: Seq<(Seq<char>, CanonicalValueModel)>)
    requires
        keys_in_order(CanonicalValueModel::Object(m)),
        codec::text_member(m, "op"@) == Some("add_item"@),
        codec::op_of_members("add_item"@, m) is Some,
    ensures
        codec::op_form(codec::op_of_members("add_item"@, m)->0) == CanonicalValueModel::Object(m),
{
    codec::op_names();
    let path = canonical::member(m, "parent"@)->0;
    codec::path_reads_back(codec::path_of(path)->0, path);
    assert(seq!["op"@, "group"@, "parent"@, "item"@, "at"@].no_duplicates()) by {
        reveal_strlit("op");
        reveal_strlit("group");
        reveal_strlit("parent");
        reveal_strlit("item");
        reveal_strlit("at");
        assert("op"@.len() == 2);
        assert("group"@.len() == 5);
        assert("parent"@.len() == 6);
        assert("item"@.len() == 4);
        assert("at"@.len() == 2);
        assert("op"@[0] == 'o');
        assert("at"@[0] == 'a');
    }
    only_members5(m, "op"@, "group"@, "parent"@, "item"@, "at"@);
}

proof fn removal_has_one_form(m: Seq<(Seq<char>, CanonicalValueModel)>)
    requires
        keys_in_order(CanonicalValueModel::Object(m)),
        codec::text_member(m, "op"@) == Some("remove_item"@),
        codec::op_of_members("remove_item"@, m) is Some,
    ensures
        codec::op_form(codec::op_of_members("remove_item"@, m)->0) == CanonicalValueModel::Object(m),
{
    codec::op_names();
    let path = canonical::member(m, "parent"@)->0;
    codec::path_reads_back(codec::path_of(path)->0, path);
    assert(seq!["op"@, "group"@, "parent"@, "item"@].no_duplicates()) by {
        reveal_strlit("op");
        reveal_strlit("group");
        reveal_strlit("parent");
        reveal_strlit("item");
        assert("op"@.len() == 2);
        assert("group"@.len() == 5);
        assert("parent"@.len() == 6);
        assert("item"@.len() == 4);
    }
    only_members4(m, "op"@, "group"@, "parent"@, "item"@);
}

proof fn reorder_has_one_form(m: Seq<(Seq<char>, CanonicalValueModel)>)
    requires
        keys_in_order(CanonicalValueModel::Object(m)),
        codec::text_member(m, "op"@) == Some("reorder"@),
        codec::op_of_members("reorder"@, m) is Some,
    ensures
        codec::op_form(codec::op_of_members("reorder"@, m)->0) == CanonicalValueModel::Object(m),
{
    codec::op_names();
    let path = canonical::member(m, "parent"@)->0;
    codec::path_reads_back(codec::path_of(path)->0, path);
    texts_have_one_form(canonical::member(m, "order"@)->0);
    assert(seq!["op"@, "group"@, "parent"@, "order"@].no_duplicates()) by {
        reveal_strlit("op");
        reveal_strlit("group");
        reveal_strlit("parent");
        reveal_strlit("order");
        assert("op"@.len() == 2);
        assert("group"@.len() == 5);
        assert("parent"@.len() == 6);
        assert("order"@.len() == 5);
        assert("group"@[0] == 'g');
        assert("order"@[0] == 'o');
    }
    only_members4(m, "op"@, "group"@, "parent"@, "order"@);
}

/// A value that is read as an operation is the operation's form: what is
/// committed to has one spelling.
pub proof fn op_has_one_form(v: CanonicalValueModel)
    requires
        keys_in_order(v),
    ensures
        codec::op_of(v) matches Some(op) ==> codec::op_form(op) == v,
{
    if codec::op_of(v) is Some {
        let m = v->Object_0;
        let name = codec::text_member(m, "op"@)->0;
        if name == "set"@ {
            put_has_one_form(m);
        } else if name == "unset"@ {
            unset_has_one_form(m);
        } else if name == "add_item"@ {
            addition_has_one_form(m);
        } else if name == "remove_item"@ {
            removal_has_one_form(m);
        } else {
            reorder_has_one_form(m);
        }
    }
}

} // verus!
