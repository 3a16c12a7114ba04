//! Different values have different canonical texts.
//!
//! A text is read from its front: its first character says what kind of
//! value begins there, and a value's text ends where the next delimiter
//! stands. Two values share a text only where one holds a whole number as
//! an integer that the other holds as a double.

use vstd::prelude::*;
use crate::canonical;
use crate::decimal;
use crate::number_texts;
use crate::text;
use crate::canonical::{CanonicalValueModel, Float, FloatModel};
use vstd::utf8::*;

verus! {

/// The text of a number.
spec fn number_text(v: CanonicalValueModel) -> Seq<char> {
    match v {
        CanonicalValueModel::Int(i) => canonical::int_text(i as int),
        CanonicalValueModel::Float(FloatModel::Finite { negative, digits, exponent }) => canonical::es6_text(
            negative,
            digits,
            exponent as int,
        ),
        _ => Seq::empty(),
    }
}

spec fn is_number(v: CanonicalValueModel) -> bool {
    v is Int || v is Float
}

/// Whether two values are one value, but that a whole number may be held
/// as an integer in one and as a double in the other.
pub open spec fn written_alike(a: CanonicalValueModel, b: CanonicalValueModel) -> bool
    decreases a,
{
    match (a, b) {
        (CanonicalValueModel::Array(x), CanonicalValueModel::Array(y)) => x.len() == y.len()
            && forall|i: int| 0 <= i < x.len() ==> written_alike(#[trigger] x[i], y[i]),
        (CanonicalValueModel::Object(x), CanonicalValueModel::Object(y)) => x.len() == y.len()
            && forall|i: int|
            0 <= i < x.len() ==> (#[trigger] x[i]).0 == y[i].0 && written_alike(x[i].1, y[i].1),
        (CanonicalValueModel::Int(i), CanonicalValueModel::Float(f)) => f == number_texts::double_of(i as int),
        (CanonicalValueModel::Float(f), CanonicalValueModel::Int(i)) => f == number_texts::double_of(i as int),
        _ => a == b,
    }
}

/// Whether every double in a value is held as its type says, as all that
/// can be read are.
pub open spec fn has_numerals(v: CanonicalValueModel) -> bool
    decreases v,
{
    match v {
        CanonicalValueModel::Float(f) => number_texts::is_normal_double(f),
        CanonicalValueModel::Array(a) => forall|i: int|
            0 <= i < a.len() ==> has_numerals(#[trigger] a[i]),
        CanonicalValueModel::Object(m) => forall|i: int|
            0 <= i < m.len() ==> has_numerals((#[trigger] m[i]).1),
        _ => true,
    }
}

/// Whether a value holds no doubles.
pub open spec fn is_exact(v: CanonicalValueModel) -> bool
    decreases v,
{
    match v {
        CanonicalValueModel::Float(_) => false,
        CanonicalValueModel::Array(a) => forall|i: int|
            0 <= i < a.len() ==> is_exact(#[trigger] a[i]),
        CanonicalValueModel::Object(m) => forall|i: int|
            0 <= i < m.len() ==> is_exact((#[trigger] m[i]).1),
        _ => true,
    }
}

/// A value without doubles has numerals only.
pub proof fn exact_has_numerals(v: CanonicalValueModel)
    requires
        is_exact(v),
    ensures
        has_numerals(v),
    decreases v,
{
    match v {
        CanonicalValueModel::Array(a) => {
            assert forall|i: int| 0 <= i < a.len() implies has_numerals(#[trigger] a[i]) by {
                exact_has_numerals(a[i]);
            }
        },
        CanonicalValueModel::Object(m) => {
            assert forall|i: int| 0 <= i < m.len() implies has_numerals((#[trigger] m[i]).1) by {
                exact_has_numerals(m[i].1);
            }
        },
        _ => {},
    }
}

/// Values without doubles that are written alike are one value.
pub proof fn exact_values_alike_are_equal(a: CanonicalValueModel, b: CanonicalValueModel)
    requires
        is_exact(a),
        is_exact(b),
        written_alike(a, b),
    ensures
        a == b,
    decreases a,
{
    match (a, b) {
        (CanonicalValueModel::Array(x), CanonicalValueModel::Array(y)) => {
            assert forall|i: int| 0 <= i < x.len() implies x[i] == y[i] by {
                exact_values_alike_are_equal(x[i], y[i]);
            }
            assert(x =~= y);
        },
        (CanonicalValueModel::Object(x), CanonicalValueModel::Object(y)) => {
            assert forall|i: int| 0 <= i < x.len() implies x[i] == y[i] by {
                exact_values_alike_are_equal(x[i].1, y[i].1);
            }
            assert(x =~= y);
        },
        _ => {},
    }
}

proof fn same_tails(c: char, t: Seq<char>, x: Seq<char>, u: Seq<char>, y: Seq<char>)
    requires
        (seq![c] + t) + x == (seq![c] + u) + y,
    ensures
        t + x == u + y,
{
    let a = (seq![c] + t) + x;
    let b = (seq![c] + u) + y;
    assert(a.drop_first() =~= t + x);
    assert(b.drop_first() =~= u + y);
}

proof fn escaped_front(s: Seq<char>)
    requires
        s.len() > 0,
    ensures
        canonical::escaped_text(s) == canonical::escaped(s[0]) + canonical::escaped_text(s.drop_first()),
    decreases s.len(),
{
    if s.len() == 1 {
        assert(s.drop_last() =~= Seq::<char>::empty());
        assert(s.drop_first() =~= Seq::<char>::empty());
        assert(canonical::escaped_text(s.drop_last()) =~= Seq::<char>::empty());
        assert(canonical::escaped_text(s.drop_first()) =~= Seq::<char>::empty());
        assert(canonical::escaped_text(s) =~= canonical::escaped(s[0]));
        assert(canonical::escaped(s[0]) + canonical::escaped_text(s.drop_first()) =~= canonical::escaped(s[0]));
    } else {
        let rest = s.drop_last();
        escaped_front(rest);
        assert(s.drop_first().drop_last() =~= rest.drop_first());
        assert(s.drop_first().last() == s.last());
        assert(canonical::escaped_text(s) =~= canonical::escaped(s[0]) + (canonical::escaped_text(rest.drop_first()) + canonical::escaped(
            s.last(),
        )));
    }
}

proof fn hex_digits_are_distinct(a: nat, b: nat)
    requires
        a < 16,
        b < 16,
        text::hex_char(a) == text::hex_char(b),
    ensures
        a == b,
{
    assert(text::hex_value(text::hex_char(a)) == a);
    assert(text::hex_value(text::hex_char(b)) == b);
}

/// An escape says where it ends.
proof fn escapes_are_unique(c: char, d: char, x: Seq<char>, y: Seq<char>)
    requires
        canonical::escaped(c) + x == canonical::escaped(d) + y,
    ensures
        c == d,
        x == y,
{
    let a = canonical::escaped(c) + x;
    let b = canonical::escaped(d) + y;
    assert(a[0] == canonical::escaped(c)[0]);
    assert(b[0] == canonical::escaped(d)[0]);
    if canonical::escaped(c).len() > 1 {
        assert(a[1] == canonical::escaped(c)[1]);
    }
    if canonical::escaped(d).len() > 1 {
        assert(b[1] == canonical::escaped(d)[1]);
    }
    if canonical::escaped(c).len() == 6 && canonical::escaped(d).len() == 6 {
        assert(a[4] == canonical::escaped(c)[4] && b[4] == canonical::escaped(d)[4]);
        assert(a[5] == canonical::escaped(c)[5] && b[5] == canonical::escaped(d)[5]);
        hex_digits_are_distinct(c as nat / 16, d as nat / 16);
        hex_digits_are_distinct(c as nat % 16, d as nat % 16);
        assert(c as nat == d as nat);
        text::code_point_unique(c, d);
    }
    assert(c == d);
    let n = canonical::escaped(c).len() as int;
    assert(a.skip(n) =~= x);
    assert(b.skip(n) =~= y);
}

proof fn escapes_never_close(c: char)
    ensures
        canonical::escaped(c).len() > 0,
        canonical::escaped(c)[0] != '"',
{
}

proof fn escaped_texts_are_unique(s: Seq<char>, t: Seq<char>, x: Seq<char>, y: Seq<char>)
    requires
        x.len() > 0 && x[0] == '"',
        y.len() > 0 && y[0] == '"',
        canonical::escaped_text(s) + x == canonical::escaped_text(t) + y,
    ensures
        s == t,
        x == y,
    decreases s.len(),
{
    let a = canonical::escaped_text(s) + x;
    let b = canonical::escaped_text(t) + y;
    if s.len() > 0 {
        escaped_front(s);
        escapes_never_close(s[0]);
        assert(a[0] == canonical::escaped(s[0])[0]);
    } else {
        assert(a =~= x);
    }
    if t.len() > 0 {
        escaped_front(t);
        escapes_never_close(t[0]);
        assert(b[0] == canonical::escaped(t[0])[0]);
    } else {
        assert(b =~= y);
    }
    if s.len() > 0 && t.len() > 0 {
        let p = canonical::escaped_text(s.drop_first());
        let q = canonical::escaped_text(t.drop_first());
        assert(a =~= canonical::escaped(s[0]) + (p + x));
        assert(b =~= canonical::escaped(t[0]) + (q + y));
        escapes_are_unique(s[0], t[0], p + x, q + y);
        escaped_texts_are_unique(s.drop_first(), t.drop_first(), x, y);
        assert(s =~= seq![s[0]] + s.drop_first());
        assert(t =~= seq![t[0]] + t.drop_first());
    } else {
        assert(s =~= t);
    }
}

/// A quoted text says where it ends.
proof fn quoted_texts_are_unique(s: Seq<char>, t: Seq<char>, x: Seq<char>, y: Seq<char>)
    requires
        canonical::quoted(s) + x == canonical::quoted(t) + y,
    ensures
        s == t,
        x == y,
{
    let p = seq!['"'] + x;
    let q = seq!['"'] + y;
    assert(canonical::quoted(s) + x =~= (seq!['"'] + canonical::escaped_text(s)) + p);
    assert(canonical::quoted(t) + y =~= (seq!['"'] + canonical::escaped_text(t)) + q);
    same_tails('"', canonical::escaped_text(s), p, canonical::escaped_text(t), q);
    escaped_texts_are_unique(s, t, p, q);
    assert(p.drop_first() =~= x);
    assert(q.drop_first() =~= y);
}

/// Whether a number's text can hold a character.
spec fn in_number(c: char) -> bool {
    text::is_digit(c) || c == '-' || c == '+' || c == '.' || c == 'e'
}

spec fn all_in_number(s: Seq<char>) -> bool {
    forall|i: int| 0 <= i < s.len() ==> in_number(#[trigger] s[i])
}

/// Whether what follows a value begins with a delimiter.
spec fn is_over(x: Seq<char>) -> bool {
    x.len() == 0 || x[0] == ',' || x[0] == ']' || x[0] == '}'
}

proof fn joined_in_number(s: Seq<char>, t: Seq<char>)
    requires
        all_in_number(s),
        all_in_number(t),
    ensures
        all_in_number(s + t),
{
    assert forall|i: int| 0 <= i < (s + t).len() implies in_number(#[trigger] (s + t)[i]) by {
        if i < s.len() {
            assert((s + t)[i] == s[i]);
        } else {
            assert((s + t)[i] == t[i - s.len()]);
        }
    }
}

proof fn digits_in_number(s: Seq<char>)
    requires
        text::all_digits(s),
    ensures
        all_in_number(s),
{
    assert forall|i: int| 0 <= i < s.len() implies in_number(#[trigger] s[i]) by {
        assert(text::is_digit(s[i]));
    }
}

proof fn layout_in_number(d: Seq<char>, exponent: int)
    requires
        text::all_digits(d),
    ensures
        all_in_number(canonical::es6_layout(d, exponent)),
        canonical::es6_layout(d, exponent).len() > 0,
        text::is_digit(canonical::es6_layout(d, exponent)[0]),
{
    let k = d.len() as int;
    let n = exponent + k;
    let t = canonical::es6_layout(d, exponent);
    digits_in_number(d);
    if k == 0 {
    } else if k <= n && n <= 21 {
        digits_in_number(decimal::zeros((n - k) as nat));
        joined_in_number(d, decimal::zeros((n - k) as nat));
        assert(t[0] == d[0]);
    } else if 0 < n && n <= 21 {
        digits_in_number(d.take(n));
        digits_in_number(d.skip(n));
        joined_in_number(d.take(n), seq!['.']);
        joined_in_number(d.take(n) + seq!['.'], d.skip(n));
        assert(t[0] == d[0]);
    } else if -6 < n && n <= 0 {
        digits_in_number(decimal::zeros((-n) as nat));
        assert(all_in_number(seq!['0', '.']));
        joined_in_number(seq!['0', '.'], decimal::zeros((-n) as nat));
        joined_in_number(seq!['0', '.'] + decimal::zeros((-n) as nat), d);
        assert(t[0] == '0');
    } else {
        let m = if d.len() == 1 {
            d
        } else {
            d.take(1) + seq!['.'] + d.skip(1)
        };
        digits_in_number(d.take(1));
        digits_in_number(d.skip(1));
        joined_in_number(d.take(1), seq!['.']);
        joined_in_number(d.take(1) + seq!['.'], d.skip(1));
        assert(all_in_number(m));
        let sign = if n - 1 >= 0 {
            seq!['+']
        } else {
            seq!['-']
        };
        let magnitude = if n - 1 >= 0 {
            n - 1
        } else {
            1 - n
        };
        text::digits_spell(magnitude as nat);
        digits_in_number(text::digits(magnitude as nat));
        joined_in_number(m, seq!['e']);
        joined_in_number(m + seq!['e'], sign);
        joined_in_number(m + seq!['e'] + sign, text::digits(magnitude as nat));
        assert(t[0] == d[0]);
    }
}

/// A number's text is made of its own characters, and begins with a sign
/// or a digit.
proof fn number_texts_are_plain(v: CanonicalValueModel)
    requires
        is_number(v),
        has_numerals(v),
        canonical::jcs(v) is Ok,
    ensures
        canonical::jcs(v)->Ok_0 == number_text(v),
        all_in_number(number_text(v)),
        number_text(v).len() > 0,
        number_text(v)[0] == '-' || text::is_digit(number_text(v)[0]),
{
    match v {
        CanonicalValueModel::Int(i) => {
            let n: nat = if i < 0 {
                (-i) as nat
            } else {
                i as nat
            };
            text::digits_spell(n);
            digits_in_number(text::digits(n));
            if i < 0 {
                joined_in_number(seq!['-'], text::digits(n));
            }
        },
        CanonicalValueModel::Float(FloatModel::Finite { negative, digits: d, exponent }) => {
            layout_in_number(d, exponent as int);
            if negative && d.len() > 0 {
                joined_in_number(seq!['-'], canonical::es6_layout(d, exponent as int));
            }
        },
        _ => {},
    }
}

proof fn number_ends(s: Seq<char>, t: Seq<char>, x: Seq<char>, y: Seq<char>)
    requires
        all_in_number(s),
        all_in_number(t),
        is_over(x),
        is_over(y),
        s + x == t + y,
    ensures
        s == t,
        x == y,
{
    let a = s + x;
    let b = t + y;
    if s.len() < t.len() {
        assert(a[s.len() as int] == x[0]);
        assert(b[s.len() as int] == t[s.len() as int]);
        assert(in_number(t[s.len() as int]));
    }
    if t.len() < s.len() {
        assert(b[t.len() as int] == y[0]);
        assert(a[t.len() as int] == s[t.len() as int]);
        assert(in_number(s[t.len() as int]));
    }
    assert(a.take(s.len() as int) =~= s);
    assert(b.take(s.len() as int) =~= t);
    assert(a.skip(s.len() as int) =~= x);
    assert(b.skip(s.len() as int) =~= y);
}

/// The texts of some values, each behind a comma.
spec fn items_behind(s: Seq<CanonicalValueModel>) -> Seq<char>
    decreases s.len(),
{
    if s.len() == 0 {
        Seq::empty()
    } else {
        (seq![','] + canonical::jcs(s[0])->Ok_0) + items_behind(s.drop_first())
    }
}

spec fn items_text(s: Seq<CanonicalValueModel>) -> Seq<char> {
    if s.len() == 0 {
        Seq::empty()
    } else {
        canonical::jcs(s[0])->Ok_0 + items_behind(s.drop_first())
    }
}

proof fn one_more_behind(s: Seq<CanonicalValueModel>)
    requires
        s.len() > 0,
    ensures
        items_behind(s) == items_behind(s.drop_last()) + (seq![','] + canonical::jcs(s.last())->Ok_0),
    decreases s.len(),
{
    let last = seq![','] + canonical::jcs(s.last())->Ok_0;
    if s.len() == 1 {
        assert(s.drop_first() =~= Seq::<CanonicalValueModel>::empty());
        assert(s.drop_last() =~= Seq::<CanonicalValueModel>::empty());
        assert(items_behind(s.drop_first()) =~= Seq::<char>::empty());
        assert(items_behind(s.drop_last()) =~= Seq::<char>::empty());
        assert(items_behind(s) =~= last);
        assert(items_behind(s.drop_last()) + last =~= last);
    } else {
        let rest = s.drop_first();
        one_more_behind(rest);
        assert(rest.drop_last() =~= s.drop_last().drop_first());
        assert(rest.last() == s.last());
        assert(s.drop_last()[0] == s[0]);
        let head = seq![','] + canonical::jcs(s[0])->Ok_0;
        let mid = items_behind(rest.drop_last());
        assert(head + (mid + last) =~= (head + mid) + last);
    }
}

/// The text of a list, from its front.
proof fn items_are_listed(s: Seq<CanonicalValueModel>)
    requires
        canonical::jcs_items(s) is Ok,
    ensures
        canonical::jcs_items(s)->Ok_0 == items_text(s),
        forall|i: int| 0 <= i < s.len() ==> canonical::jcs(#[trigger] s[i]) is Ok,
    decreases s.len(),
{
    if s.len() > 0 {
        let rest = s.drop_last();
        items_are_listed(rest);
        assert forall|i: int| 0 <= i < s.len() implies canonical::jcs(#[trigger] s[i]) is Ok by {
            if i < rest.len() {
                assert(rest[i] == s[i]);
            }
        }
        let u = canonical::jcs(s.last())->Ok_0;
        if s.len() == 1 {
            assert(items_behind(s.drop_first()) =~= Seq::<char>::empty());
            assert(canonical::jcs_items(s)->Ok_0 =~= items_text(s));
        } else {
            one_more_behind(s.drop_first());
            assert(s.drop_first().drop_last() =~= rest.drop_first());
            assert(s.drop_first().last() == s.last());
            assert(rest[0] == s[0]);
            let t = items_text(rest);
            assert(canonical::jcs_items(s)->Ok_0 =~= t + (seq![','] + u));
            assert(items_text(s) =~= t + (seq![','] + u));
        }
    }
}

/// A member's text.
spec fn member_text(m: (Seq<char>, CanonicalValueModel)) -> Seq<char> {
    canonical::quoted(m.0) + (seq![':'] + canonical::jcs(m.1)->Ok_0)
}

/// The texts of some members, each behind a comma.
spec fn members_behind(s: Seq<(Seq<char>, CanonicalValueModel)>) -> Seq<char>
    decreases s.len(),
{
    if s.len() == 0 {
        Seq::empty()
    } else {
        (seq![','] + member_text(s[0])) + members_behind(s.drop_first())
    }
}

spec fn members_text(s: Seq<(Seq<char>, CanonicalValueModel)>) -> Seq<char> {
    if s.len() == 0 {
        Seq::empty()
    } else {
        member_text(s[0]) + members_behind(s.drop_first())
    }
}

proof fn one_more_member_behind(s: Seq<(Seq<char>, CanonicalValueModel)>)
    requires
        s.len() > 0,
    ensures
        members_behind(s) == members_behind(s.drop_last()) + (seq![','] + member_text(s.last())),
    decreases s.len(),
{
    let last = seq![','] + member_text(s.last());
    if s.len() == 1 {
        assert(s.drop_first() =~= Seq::<(Seq<char>, CanonicalValueModel)>::empty());
        assert(s.drop_last() =~= Seq::<(Seq<char>, CanonicalValueModel)>::empty());
        assert(members_behind(s.drop_first()) =~= Seq::<char>::empty());
        assert(members_behind(s.drop_last()) =~= Seq::<char>::empty());
        assert(members_behind(s) =~= last);
        assert(members_behind(s.drop_last()) + last =~= last);
    } else {
        let rest = s.drop_first();
        one_more_member_behind(rest);
        assert(rest.drop_last() =~= s.drop_last().drop_first());
        assert(rest.last() == s.last());
        assert(s.drop_last()[0] == s[0]);
        let head = seq![','] + member_text(s[0]);
        let mid = members_behind(rest.drop_last());
        assert(head + (mid + last) =~= (head + mid) + last);
    }
}

/// The text of an object's members, from their front.
proof fn members_are_listed(s: Seq<(Seq<char>, CanonicalValueModel)>)
    requires
        canonical::jcs_members(s) is Ok,
    ensures
        canonical::jcs_members(s)->Ok_0 == members_text(s),
        forall|i: int| 0 <= i < s.len() ==> canonical::jcs((#[trigger] s[i]).1) is Ok,
    decreases s.len(),
{
    if s.len() > 0 {
        let rest = s.drop_last();
        members_are_listed(rest);
        assert forall|i: int| 0 <= i < s.len() implies canonical::jcs((#[trigger] s[i]).1) is Ok by {
            if i < rest.len() {
                assert(rest[i] == s[i]);
            }
        }
        let u = member_text(s.last());
        if s.len() == 1 {
            assert(members_behind(s.drop_first()) =~= Seq::<char>::empty());
            assert(canonical::jcs_members(s)->Ok_0 =~= members_text(s));
        } else {
            one_more_member_behind(s.drop_first());
            assert(s.drop_first().drop_last() =~= rest.drop_first());
            assert(s.drop_first().last() == s.last());
            assert(rest[0] == s[0]);
            let t = members_text(rest);
            assert(canonical::jcs_members(s)->Ok_0 =~= t + (seq![','] + u));
            assert(members_text(s) =~= t + (seq![','] + u));
        }
    }
}

/// What kind of value begins with a character.
spec fn begins(v: CanonicalValueModel, c: char) -> bool {
    match v {
        CanonicalValueModel::Null => c == 'n',
        CanonicalValueModel::Bool(b) => c == if b {
            't'
        } else {
            'f'
        },
        CanonicalValueModel::String(_) => c == '"',
        CanonicalValueModel::Array(_) => c == '[',
        CanonicalValueModel::Object(_) => c == '{',
        _ => c == '-' || text::is_digit(c),
    }
}

proof fn first_character_tells(v: CanonicalValueModel)
    requires
        has_numerals(v),
        canonical::jcs(v) is Ok,
    ensures
        canonical::jcs(v)->Ok_0.len() > 0,
        begins(v, canonical::jcs(v)->Ok_0[0]),
{
    reveal_strlit("null");
    reveal_strlit("true");
    reveal_strlit("false");
    assert("null"@.len() == 4);
    assert("true"@.len() == 4);
    assert("false"@.len() == 5);
    assert("null"@[0] == 'n');
    assert("true"@[0] == 't');
    if is_number(v) {
        number_texts_are_plain(v);
    }
}

proof fn numbers_are_unique(a: CanonicalValueModel, b: CanonicalValueModel)
    requires
        is_number(a),
        is_number(b),
        has_numerals(a),
        has_numerals(b),
        canonical::jcs(a) is Ok,
        canonical::jcs(b) is Ok,
        number_text(a) == number_text(b),
    ensures
        written_alike(a, b),
{
    match (a, b) {
        (CanonicalValueModel::Int(i), CanonicalValueModel::Int(j)) => number_texts::int_texts_are_distinct(
            i as int,
            j as int,
        ),
        (CanonicalValueModel::Int(i), CanonicalValueModel::Float(f)) => number_texts::whole_doubles_are_numbers(
            f,
            i as int,
        ),
        (CanonicalValueModel::Float(f), CanonicalValueModel::Int(i)) => number_texts::whole_doubles_are_numbers(
            f,
            i as int,
        ),
        (CanonicalValueModel::Float(f), CanonicalValueModel::Float(g)) => number_texts::double_texts_are_distinct(
            f,
            g,
        ),
        _ => {},
    }
}

proof fn plain_values_are_unique(
    a: CanonicalValueModel,
    b: CanonicalValueModel,
    x: Seq<char>,
    y: Seq<char>,
)
    requires
        !(a is Array) && !(a is Object),
        has_numerals(a),
        has_numerals(b),
        canonical::jcs(a) is Ok,
        canonical::jcs(b) is Ok,
        is_over(x),
        is_over(y),
        canonical::jcs(a)->Ok_0 + x == canonical::jcs(b)->Ok_0 + y,
    ensures
        written_alike(a, b),
        x == y,
{
    let s = canonical::jcs(a)->Ok_0;
    let t = canonical::jcs(b)->Ok_0;
    first_character_tells(a);
    first_character_tells(b);
    assert((s + x)[0] == s[0]);
    assert((t + y)[0] == t[0]);
    match (a, b) {
        (CanonicalValueModel::String(p), CanonicalValueModel::String(q)) => {
            quoted_texts_are_unique(p, q, x, y);
        },
        _ => {
            if is_number(a) {
                assert(is_number(b));
                number_texts_are_plain(a);
                number_texts_are_plain(b);
                number_ends(s, t, x, y);
                numbers_are_unique(a, b);
            } else {
                assert(a == b);
                assert((s + x).skip(s.len() as int) =~= x);
                assert((t + y).skip(s.len() as int) =~= y);
            }
        },
    }
}

proof fn arrays_are_unique(
    p: Seq<CanonicalValueModel>,
    q: Seq<CanonicalValueModel>,
    x: Seq<char>,
    y: Seq<char>,
)
    requires
        forall|i: int| 0 <= i < p.len() ==> has_numerals(#[trigger] p[i]),
        forall|i: int| 0 <= i < q.len() ==> has_numerals(#[trigger] q[i]),
        canonical::jcs_items(p) is Ok,
        canonical::jcs_items(q) is Ok,
        ((seq!['['] + canonical::jcs_items(p)->Ok_0) + seq![']']) + x == ((seq!['['] + canonical::jcs_items(q)->Ok_0)
            + seq![']']) + y,
    ensures
        p.len() == q.len(),
        forall|i: int| 0 <= i < p.len() ==> written_alike(#[trigger] p[i], q[i]),
        x == y,
    decreases p, 1int,
{
    items_are_listed(p);
    items_are_listed(q);
    let u = seq![']'] + x;
    let w = seq![']'] + y;
    let s = items_text(p);
    let t = items_text(q);
    assert(((seq!['['] + s) + seq![']']) + x =~= (seq!['['] + s) + u);
    assert(((seq!['['] + t) + seq![']']) + y =~= (seq!['['] + t) + w);
    same_tails('[', s, u, t, w);
    items_are_unique(p, q, u, w);
    assert(u.drop_first() =~= x);
    assert(w.drop_first() =~= y);
}

proof fn objects_are_unique(
    p: Seq<(Seq<char>, CanonicalValueModel)>,
    q: Seq<(Seq<char>, CanonicalValueModel)>,
    x: Seq<char>,
    y: Seq<char>,
)
    requires
        forall|i: int| 0 <= i < p.len() ==> has_numerals((#[trigger] p[i]).1),
        forall|i: int| 0 <= i < q.len() ==> has_numerals((#[trigger] q[i]).1),
        canonical::jcs_members(p) is Ok,
        canonical::jcs_members(q) is Ok,
        ((seq!['{'] + canonical::jcs_members(p)->Ok_0) + seq!['}']) + x == ((seq!['{'] + canonical::jcs_members(q)->Ok_0)
            + seq!['}']) + y,
    ensures
        p.len() == q.len(),
        forall|i: int|
            0 <= i < p.len() ==> (#[trigger] p[i]).0 == q[i].0 && written_alike(p[i].1, q[i].1),
        x == y,
    decreases p, 1int,
{
    members_are_listed(p);
    members_are_listed(q);
    let u = seq!['}'] + x;
    let w = seq!['}'] + y;
    let s = members_text(p);
    let t = members_text(q);
    assert(((seq!['{'] + s) + seq!['}']) + x =~= (seq!['{'] + s) + u);
    assert(((seq!['{'] + t) + seq!['}']) + y =~= (seq!['{'] + t) + w);
    same_tails('{', s, u, t, w);
    members_are_unique(p, q, u, w);
    assert(u.drop_first() =~= x);
    assert(w.drop_first() =~= y);
}

proof fn values_are_unique(
    a: CanonicalValueModel,
    b: CanonicalValueModel,
    x: Seq<char>,
    y: Seq<char>,
)
    requires
        has_numerals(a),
        has_numerals(b),
        canonical::jcs(a) is Ok,
        canonical::jcs(b) is Ok,
        is_over(x),
        is_over(y),
        canonical::jcs(a)->Ok_0 + x == canonical::jcs(b)->Ok_0 + y,
    ensures
        written_alike(a, b),
        x == y,
    decreases a, 0int,
{
    let s = canonical::jcs(a)->Ok_0;
    let t = canonical::jcs(b)->Ok_0;
    first_character_tells(a);
    first_character_tells(b);
    assert((s + x)[0] == s[0]);
    assert((t + y)[0] == t[0]);
    match a {
        CanonicalValueModel::Array(p) => {
            assert(b is Array);
            arrays_are_unique(p, b->Array_0, x, y);
        },
        CanonicalValueModel::Object(p) => {
            assert(b is Object);
            objects_are_unique(p, b->Object_0, x, y);
        },
        _ => plain_values_are_unique(a, b, x, y),
    }
}

proof fn items_behind_are_unique(
    s: Seq<CanonicalValueModel>,
    t: Seq<CanonicalValueModel>,
    x: Seq<char>,
    y: Seq<char>,
)
    requires
        forall|i: int| 0 <= i < s.len() ==> has_numerals(#[trigger] s[i]) && canonical::jcs(s[i]) is Ok,
        forall|i: int| 0 <= i < t.len() ==> has_numerals(#[trigger] t[i]) && canonical::jcs(t[i]) is Ok,
        x.len() > 0 && x[0] == ']',
        y.len() > 0 && y[0] == ']',
        items_behind(s) + x == items_behind(t) + y,
    ensures
        s.len() == t.len(),
        forall|i: int| 0 <= i < s.len() ==> written_alike(#[trigger] s[i], t[i]),
        x == y,
    decreases s, 0int,
{
    let a = items_behind(s) + x;
    let b = items_behind(t) + y;
    if s.len() > 0 {
        assert(a[0] == ',');
    } else {
        assert(a =~= x);
    }
    if t.len() > 0 {
        assert(b[0] == ',');
    } else {
        assert(b =~= y);
    }
    if s.len() > 0 && t.len() > 0 {
        let p = canonical::jcs(s[0])->Ok_0;
        let q = canonical::jcs(t[0])->Ok_0;
        let u = items_behind(s.drop_first()) + x;
        let w = items_behind(t.drop_first()) + y;
        assert(a =~= (seq![','] + p) + u);
        assert(b =~= (seq![','] + q) + w);
        same_tails(',', p, u, q, w);
        behind_is_over(s.drop_first(), x);
        behind_is_over(t.drop_first(), y);
        values_are_unique(s[0], t[0], u, w);
        items_behind_are_unique(s.drop_first(), t.drop_first(), x, y);
        assert forall|i: int| 0 <= i < s.len() implies written_alike(#[trigger] s[i], t[i]) by {
            if i > 0 {
                assert(s.drop_first()[i - 1] == s[i]);
                assert(t.drop_first()[i - 1] == t[i]);
            }
        }
    }
}

proof fn behind_is_over(s: Seq<CanonicalValueModel>, x: Seq<char>)
    requires
        x.len() > 0 && x[0] == ']',
    ensures
        is_over(items_behind(s) + x),
{
    if s.len() > 0 {
        assert((items_behind(s) + x)[0] == ',');
    } else {
        assert(items_behind(s) + x =~= x);
    }
}

proof fn items_are_unique(
    s: Seq<CanonicalValueModel>,
    t: Seq<CanonicalValueModel>,
    x: Seq<char>,
    y: Seq<char>,
)
    requires
        forall|i: int| 0 <= i < s.len() ==> has_numerals(#[trigger] s[i]) && canonical::jcs(s[i]) is Ok,
        forall|i: int| 0 <= i < t.len() ==> has_numerals(#[trigger] t[i]) && canonical::jcs(t[i]) is Ok,
        x.len() > 0 && x[0] == ']',
        y.len() > 0 && y[0] == ']',
        items_text(s) + x == items_text(t) + y,
    ensures
        s.len() == t.len(),
        forall|i: int| 0 <= i < s.len() ==> written_alike(#[trigger] s[i], t[i]),
        x == y,
    decreases s, 0int,
{
    let a = items_text(s) + x;
    let b = items_text(t) + y;
    if s.len() > 0 {
        first_character_tells(s[0]);
        assert(a[0] == canonical::jcs(s[0])->Ok_0[0]);
    } else {
        assert(a =~= x);
    }
    if t.len() > 0 {
        first_character_tells(t[0]);
        assert(b[0] == canonical::jcs(t[0])->Ok_0[0]);
    } else {
        assert(b =~= y);
    }
    if s.len() > 0 && t.len() > 0 {
        let u = items_behind(s.drop_first()) + x;
        let w = items_behind(t.drop_first()) + y;
        assert(a =~= canonical::jcs(s[0])->Ok_0 + u);
        assert(b =~= canonical::jcs(t[0])->Ok_0 + w);
        behind_is_over(s.drop_first(), x);
        behind_is_over(t.drop_first(), y);
        values_are_unique(s[0], t[0], u, w);
        items_behind_are_unique(s.drop_first(), t.drop_first(), x, y);
        assert forall|i: int| 0 <= i < s.len() implies written_alike(#[trigger] s[i], t[i]) by {
            if i > 0 {
                assert(s.drop_first()[i - 1] == s[i]);
                assert(t.drop_first()[i - 1] == t[i]);
            }
        }
    }
}

proof fn members_behind_is_over(s: Seq<(Seq<char>, CanonicalValueModel)>, x: Seq<char>)
    requires
        x.len() > 0 && x[0] == '}',
    ensures
        is_over(members_behind(s) + x),
{
    if s.len() > 0 {
        assert((members_behind(s) + x)[0] == ',');
    } else {
        assert(members_behind(s) + x =~= x);
    }
}

proof fn one_member_is_unique(
    m: (Seq<char>, CanonicalValueModel),
    n: (Seq<char>, CanonicalValueModel),
    x: Seq<char>,
    y: Seq<char>,
)
    requires
        has_numerals(m.1) && canonical::jcs(m.1) is Ok,
        has_numerals(n.1) && canonical::jcs(n.1) is Ok,
        is_over(x),
        is_over(y),
        member_text(m) + x == member_text(n) + y,
    ensures
        m.0 == n.0,
        written_alike(m.1, n.1),
        x == y,
    decreases m, 0int,
{
    let p = canonical::jcs(m.1)->Ok_0;
    let q = canonical::jcs(n.1)->Ok_0;
    let u = (seq![':'] + p) + x;
    let w = (seq![':'] + q) + y;
    assert(member_text(m) + x =~= canonical::quoted(m.0) + u);
    assert(member_text(n) + y =~= canonical::quoted(n.0) + w);
    quoted_texts_are_unique(m.0, n.0, u, w);
    same_tails(':', p, x, q, y);
    values_are_unique(m.1, n.1, x, y);
}

proof fn members_behind_are_unique(
    s: Seq<(Seq<char>, CanonicalValueModel)>,
    t: Seq<(Seq<char>, CanonicalValueModel)>,
    x: Seq<char>,
    y: Seq<char>,
)
    requires
        forall|i: int| 0 <= i < s.len() ==> has_numerals((#[trigger] s[i]).1) && canonical::jcs(s[i].1) is Ok,
        forall|i: int| 0 <= i < t.len() ==> has_numerals((#[trigger] t[i]).1) && canonical::jcs(t[i].1) is Ok,
        x.len() > 0 && x[0] == '}',
        y.len() > 0 && y[0] == '}',
        members_behind(s) + x == members_behind(t) + y,
    ensures
        s.len() == t.len(),
        forall|i: int|
            0 <= i < s.len() ==> (#[trigger] s[i]).0 == t[i].0 && written_alike(s[i].1, t[i].1),
        x == y,
    decreases s, 0int,
{
    let a = members_behind(s) + x;
    let b = members_behind(t) + y;
    if s.len() > 0 {
        assert(a[0] == ',');
    } else {
        assert(a =~= x);
    }
    if t.len() > 0 {
        assert(b[0] == ',');
    } else {
        assert(b =~= y);
    }
    if s.len() > 0 && t.len() > 0 {
        let p = member_text(s[0]);
        let q = member_text(t[0]);
        let u = members_behind(s.drop_first()) + x;
        let w = members_behind(t.drop_first()) + y;
        assert(a =~= (seq![','] + p) + u);
        assert(b =~= (seq![','] + q) + w);
        same_tails(',', p, u, q, w);
        members_behind_is_over(s.drop_first(), x);
        members_behind_is_over(t.drop_first(), y);
        one_member_is_unique(s[0], t[0], u, w);
        members_behind_are_unique(s.drop_first(), t.drop_first(), x, y);
        assert forall|i: int| 0 <= i < s.len() implies (#[trigger] s[i]).0 == t[i].0
            && written_alike(s[i].1, t[i].1) by {
            if i > 0 {
                assert(s.drop_first()[i - 1] == s[i]);
                assert(t.drop_first()[i - 1] == t[i]);
            }
        }
    }
}

proof fn members_are_unique(
    s: Seq<(Seq<char>, CanonicalValueModel)>,
    t: Seq<(Seq<char>, CanonicalValueModel)>,
    x: Seq<char>,
    y: Seq<char>,
)
    requires
        forall|i: int| 0 <= i < s.len() ==> has_numerals((#[trigger] s[i]).1) && canonical::jcs(s[i].1) is Ok,
        forall|i: int| 0 <= i < t.len() ==> has_numerals((#[trigger] t[i]).1) && canonical::jcs(t[i].1) is Ok,
        x.len() > 0 && x[0] == '}',
        y.len() > 0 && y[0] == '}',
        members_text(s) + x == members_text(t) + y,
    ensures
        s.len() == t.len(),
        forall|i: int|
            0 <= i < s.len() ==> (#[trigger] s[i]).0 == t[i].0 && written_alike(s[i].1, t[i].1),
        x == y,
    decreases s, 0int,
{
    let a = members_text(s) + x;
    let b = members_text(t) + y;
    if s.len() > 0 {
        assert(a[0] == '"');
    } else {
        assert(a =~= x);
    }
    if t.len() > 0 {
        assert(b[0] == '"');
    } else {
        assert(b =~= y);
    }
    if s.len() > 0 && t.len() > 0 {
        let u = members_behind(s.drop_first()) + x;
        let w = members_behind(t.drop_first()) + y;
        assert(a =~= member_text(s[0]) + u);
        assert(b =~= member_text(t[0]) + w);
        members_behind_is_over(s.drop_first(), x);
        members_behind_is_over(t.drop_first(), y);
        one_member_is_unique(s[0], t[0], u, w);
        members_behind_are_unique(s.drop_first(), t.drop_first(), x, y);
        assert forall|i: int| 0 <= i < s.len() implies (#[trigger] s[i]).0 == t[i].0
            && written_alike(s[i].1, t[i].1) by {
            if i > 0 {
                assert(s.drop_first()[i - 1] == s[i]);
                assert(t.drop_first()[i - 1] == t[i]);
            }
        }
    }
}

/// Values with one text are one value, but that a whole number may be
/// held as an integer in one and as a double in the other.
pub proof fn equal_texts_are_written_alike(a: CanonicalValueModel, b: CanonicalValueModel)
    requires
        has_numerals(a),
        has_numerals(b),
    ensures
        canonical::jcs(a) is Ok && canonical::jcs(a) == canonical::jcs(b) ==> written_alike(a, b),
{
    if canonical::jcs(a) is Ok && canonical::jcs(a) == canonical::jcs(b) {
        values_are_unique(a, b, Seq::empty(), Seq::empty());
    }
}

/// Different values without doubles have different texts.
pub proof fn different_values_have_different_texts(
    a: CanonicalValueModel,
    b: CanonicalValueModel,
)
    requires
        is_exact(a),
        is_exact(b),
    ensures
        canonical::jcs(a) is Ok && canonical::jcs(a) == canonical::jcs(b) ==> a == b,
{
    if canonical::jcs(a) is Ok && canonical::jcs(a) == canonical::jcs(b) {
        exact_has_numerals(a);
        exact_has_numerals(b);
        equal_texts_are_written_alike(a, b);
        exact_values_alike_are_equal(a, b);
    }
}

/// Different texts have different bytes.
pub proof fn different_texts_have_different_bytes(s: Seq<char>, t: Seq<char>)
    ensures
        encode_utf8(s) == encode_utf8(t) ==> s == t,
{
    encode_utf8_decode_utf8(s);
    encode_utf8_decode_utf8(t);
}

/// Values with the same canonical bytes are one value, but that a whole
/// number may be held as an integer in one and as a double in the other.
pub proof fn equal_bytes_are_written_alike(a: CanonicalValueModel, b: CanonicalValueModel)
    requires
        has_numerals(a),
        has_numerals(b),
    ensures
        canonical::canonical(a) is Ok && canonical::canonical(a) == canonical::canonical(b) ==> written_alike(a, b),
{
    if canonical::canonical(a) is Ok && canonical::canonical(a) == canonical::canonical(b) {
        different_texts_have_different_bytes(canonical::jcs(a)->Ok_0, canonical::jcs(b)->Ok_0);
        equal_texts_are_written_alike(a, b);
    }
}

} // verus!
