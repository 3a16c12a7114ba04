//! Different numbers have different texts: the text of a number says its
//! sign, its digits and their weight.

use vstd::prelude::*;
use crate::canonical;
use crate::decimal;
use crate::float;
use crate::text;
use crate::canonical::FloatModel;

verus! {

/// Whether a double is held as its type says: without zeros at the front
/// or the end of its digits, and zero as no digits and no sign.
pub open spec fn is_normal_double(f: FloatModel) -> bool {
    match f {
        FloatModel::Finite { negative, digits, exponent } => {
            &&& text::all_digits(digits)
            &&& digits.len() > 0 ==> digits[0] != '0' && digits.last() != '0'
            &&& digits.len() == 0 ==> !negative && exponent == 0
        },
        FloatModel::NonFinite => true,
    }
}

/// The double that a whole number is.
pub open spec fn double_of(i: int) -> FloatModel {
    if i == 0 {
        FloatModel::Finite { negative: false, digits: Seq::empty(), exponent: 0 }
    } else {
        let d = text::digits(decimal::abs(i));
        let kept = float::without_end_zeros(d);
        FloatModel::Finite {
            negative: i < 0,
            digits: kept,
            exponent: (d.len() - kept.len()) as i32,
        }
    }
}

/// The number that a sign and digits behind it spell.
spec fn signed_value(s: Seq<char>) -> int {
    if s[0] == '-' {
        -(text::decimal_value(s.drop_first()) as int)
    } else {
        text::decimal_value(s.drop_first()) as int
    }
}

/// What stands behind the point of a mantissa.
spec fn fraction_of(m: Seq<char>) -> Seq<char> {
    let a = text::chars_before(m, '.') as int;
    if a < m.len() {
        m.skip(a + 1)
    } else {
        Seq::empty()
    }
}

/// All digits of a mantissa.
spec fn mantissa_digits(m: Seq<char>) -> Seq<char> {
    m.take(text::chars_before(m, '.') as int) + fraction_of(m)
}

/// The exponent that a text spells behind its mantissa.
spec fn power_of(t: Seq<char>) -> int {
    let n = text::chars_before(t, 'e') as int;
    if n < t.len() {
        signed_value(t.skip(n + 1))
    } else {
        0
    }
}

/// The digits of an unsigned number's text, without the zeros around
/// them, and the weight of the last one.
spec fn spelled(t: Seq<char>) -> (Seq<char>, int) {
    let m = t.take(text::chars_before(t, 'e') as int);
    let front = float::without_front_zeros(mantissa_digits(m));
    let kept = float::without_end_zeros(front);
    if kept.len() == 0 {
        (kept, 0)
    } else {
        (kept, power_of(t) - fraction_of(m).len() + (front.len() - kept.len()))
    }
}

proof fn digits_hold_no(s: Seq<char>, c: char)
    requires
        text::all_digits(s),
        !text::is_digit(c),
    ensures
        forall|i: int| 0 <= i < s.len() ==> #[trigger] s[i] != c,
{
    assert forall|i: int| 0 <= i < s.len() implies #[trigger] s[i] != c by {
        assert(text::is_digit(s[i]));
    }
}

/// A mantissa without an exponent behind it.
proof fn bare_mantissa(t: Seq<char>, whole: Seq<char>, fraction: Seq<char>, pointed: bool)
    requires
        text::all_digits(whole),
        text::all_digits(fraction),
        t == if pointed {
            whole + seq!['.'] + fraction
        } else {
            whole
        },
        !pointed ==> fraction.len() == 0,
    ensures
        text::chars_before(t, 'e') == t.len(),
        t.take(t.len() as int) == t,
        mantissa_digits(t) == whole + fraction,
        fraction_of(t) == fraction,
        power_of(t) == 0,
{
    digits_hold_no(whole, 'e');
    digits_hold_no(fraction, 'e');
    digits_hold_no(whole, '.');
    assert(t.take(t.len() as int) =~= t);
    assert forall|i: int| 0 <= i < t.len() implies #[trigger] t[i] != 'e' by {
        if i < whole.len() {
            assert(t[i] == whole[i]);
        } else if i > whole.len() {
            assert(t[i] == fraction[i - whole.len() - 1]);
        }
    }
    text::chars_before_is(t, 'e', t.len() as int);
    assert forall|i: int| 0 <= i < whole.len() implies #[trigger] t[i] != '.' by {
        assert(t[i] == whole[i]);
    }
    text::chars_before_is(t, '.', whole.len() as int);
    assert(t.take(whole.len() as int) =~= whole);
    if pointed {
        assert(t.skip(whole.len() as int + 1) =~= fraction);
    } else {
        assert(fraction =~= Seq::<char>::empty());
        assert(whole + fraction =~= whole);
    }
}

/// A mantissa with an exponent behind it.
proof fn mantissa_with_power(
    t: Seq<char>,
    m: Seq<char>,
    whole: Seq<char>,
    fraction: Seq<char>,
    pointed: bool,
    sign: char,
    magnitude: nat,
)
    requires
        text::all_digits(whole),
        text::all_digits(fraction),
        m == if pointed {
            whole + seq!['.'] + fraction
        } else {
            whole
        },
        !pointed ==> fraction.len() == 0,
        sign == '+' || sign == '-',
        t == m + seq!['e'] + seq![sign] + text::digits(magnitude),
    ensures
        t.take(text::chars_before(t, 'e') as int) == m,
        mantissa_digits(m) == whole + fraction,
        fraction_of(m) == fraction,
        power_of(t) == if sign == '-' {
            -(magnitude as int)
        } else {
            magnitude as int
        },
{
    bare_mantissa(m, whole, fraction, pointed);
    let n = m.len() as int;
    digits_hold_no(whole, 'e');
    digits_hold_no(fraction, 'e');
    assert forall|i: int| 0 <= i < n implies #[trigger] t[i] != 'e' by {
        assert(t[i] == m[i]);
        if i < whole.len() {
            assert(m[i] == whole[i]);
        } else if i > whole.len() {
            assert(m[i] == fraction[i - whole.len() - 1]);
        }
    }
    assert(t[n] == 'e');
    text::chars_before_is(t, 'e', n);
    assert(t.take(n) =~= m);
    let power = t.skip(n + 1);
    assert(power =~= seq![sign] + text::digits(magnitude));
    assert(power.drop_first() =~= text::digits(magnitude));
    text::digits_spell(magnitude);
}

proof fn no_zeros_around(d: Seq<char>, before: nat, after: nat)
    requires
        d.len() > 0,
        d[0] != '0',
        d.last() != '0',
    ensures
        float::without_front_zeros(decimal::zeros(before) + d + decimal::zeros(after)) == d + decimal::zeros(after),
        float::without_end_zeros(d + decimal::zeros(after)) == d,
{
    let all = decimal::zeros(before) + d + decimal::zeros(after);
    assert forall|i: int| 0 <= i < before implies #[trigger] all[i] == '0' by {
        assert(all[i] == decimal::zeros(before)[i]);
    }
    assert(all[before as int] == d[0]);
    float::front_zeros_are(all, before as int);
    assert(all.skip(before as int) =~= d + decimal::zeros(after));
    let s = d + decimal::zeros(after);
    assert forall|i: int| d.len() <= i < s.len() implies #[trigger] s[i] == '0' by {
        assert(s[i] == decimal::zeros(after)[i - d.len()]);
    }
    assert(s[d.len() - 1] == d.last());
    float::end_zeros_are(s, d.len() as int);
    assert(s.take(d.len() as int) =~= d);
}

proof fn zeros_are_digits(n: nat)
    ensures
        text::all_digits(decimal::zeros(n)),
{
}

/// The text of a number spells its digits and their weight.
proof fn layouts_spell(d: Seq<char>, exponent: int)
    requires
        text::all_digits(d),
        d.len() > 0,
        d[0] != '0',
        d.last() != '0',
    ensures
        spelled(canonical::es6_layout(d, exponent)) == (d, exponent),
{
    let k = d.len() as int;
    let n = exponent + k;
    let t = canonical::es6_layout(d, exponent);
    if k <= n && n <= 21 {
        let more = (n - k) as nat;
        zeros_are_digits(more);
        let whole = d + decimal::zeros(more);
        assert(text::all_digits(whole)) by {
            assert forall|i: int| 0 <= i < whole.len() implies text::is_digit(#[trigger] whole[i]) by {
                if i < k {
                    assert(whole[i] == d[i]);
                }
            }
        }
        bare_mantissa(t, whole, Seq::empty(), false);
        no_zeros_around(d, 0, more);
        assert(decimal::zeros(0) + d + decimal::zeros(more) =~= whole + Seq::<char>::empty());
    } else if 0 < n && n <= 21 {
        assert forall|i: int| 0 <= i < n implies text::is_digit(#[trigger] d.take(n)[i]) by {
            assert(d.take(n)[i] == d[i]);
        }
        assert forall|i: int| 0 <= i < k - n implies text::is_digit(#[trigger] d.skip(n)[i]) by {
            assert(d.skip(n)[i] == d[n + i]);
        }
        bare_mantissa(t, d.take(n), d.skip(n), true);
        assert(d.take(n) + d.skip(n) =~= d);
        no_zeros_around(d, 0, 0);
        assert(decimal::zeros(0) + d + decimal::zeros(0) =~= d);
        assert(d + decimal::zeros(0) =~= d);
    } else if -6 < n && n <= 0 {
        let pad = (-n) as nat;
        zeros_are_digits(pad);
        let fraction = decimal::zeros(pad) + d;
        assert(text::all_digits(fraction)) by {
            assert forall|i: int| 0 <= i < fraction.len() implies text::is_digit(
                #[trigger] fraction[i],
            ) by {
                if i >= pad {
                    assert(fraction[i] == d[i - pad]);
                }
            }
        }
        assert(t =~= seq!['0'] + seq!['.'] + fraction);
        bare_mantissa(t, seq!['0'], fraction, true);
        no_zeros_around(d, pad + 1, 0);
        assert(decimal::zeros(pad + 1) + d + decimal::zeros(0) =~= seq!['0'] + fraction);
        assert(d + decimal::zeros(0) =~= d);
    } else {
        let whole = d.take(1);
        let fraction = d.skip(1);
        assert(text::is_digit(d[0]));
        assert(text::all_digits(whole));
        assert forall|i: int| 0 <= i < k - 1 implies text::is_digit(#[trigger] fraction[i]) by {
            assert(fraction[i] == d[1 + i]);
        }
        let m = if k == 1 {
            d
        } else {
            d.take(1) + seq!['.'] + d.skip(1)
        };
        let sign = if n - 1 >= 0 {
            '+'
        } else {
            '-'
        };
        let magnitude: nat = if n - 1 >= 0 {
            (n - 1) as nat
        } else {
            (1 - n) as nat
        };
        assert(k == 1 ==> d =~= whole);
        assert(t =~= m + seq!['e'] + seq![sign] + text::digits(magnitude));
        mantissa_with_power(t, m, whole, fraction, k != 1, sign, magnitude);
        assert(whole + fraction =~= d);
        no_zeros_around(d, 0, 0);
        assert(decimal::zeros(0) + d + decimal::zeros(0) =~= d);
        assert(d + decimal::zeros(0) =~= d);
    }
}

proof fn zero_spells()
    ensures
        spelled(seq!['0']) == (Seq::<char>::empty(), 0int),
{
    let t = seq!['0'];
    assert(text::all_digits(t));
    bare_mantissa(t, t, Seq::empty(), false);
    assert(t + Seq::<char>::empty() =~= t);
    float::front_zeros_are(t, 1);
    assert(t.skip(1) =~= Seq::<char>::empty());
    float::end_zeros_are(Seq::empty(), 0);
    assert(Seq::<char>::empty().take(0) =~= Seq::<char>::empty());
}

proof fn whole_numbers_spell(n: nat)
    ensures
        n == 0 ==> spelled(text::digits(n)) == (Seq::<char>::empty(), 0int),
        n > 0 ==> spelled(text::digits(n)) == (
            float::without_end_zeros(text::digits(n)),
            text::digits(n).len() - float::without_end_zeros(text::digits(n)).len(),
        ),
        n > 0 ==> float::without_end_zeros(text::digits(n)).len() > 0,
{
    let d = text::digits(n);
    text::digits_spell(n);
    if n == 0 {
        assert(d =~= seq!['0']);
        zero_spells();
    } else {
        bare_mantissa(d, d, Seq::empty(), false);
        assert(d + Seq::<char>::empty() =~= d);
        float::front_zeros_are(d, 0);
        assert(d.skip(0) =~= d);
        first_digit_stays(d);
    }
}

proof fn first_digit_stays(s: Seq<char>)
    requires
        s.len() > 0,
        s[0] != '0',
    ensures
        float::without_end_zeros(s).len() > 0,
    decreases s.len(),
{
    if s.last() == '0' {
        assert(s.drop_last()[0] == s[0]);
        first_digit_stays(s.drop_last());
    }
}

/// What a number's text spells: its sign, its digits and their weight.
spec fn signed_spelling(t: Seq<char>) -> (bool, (Seq<char>, int)) {
    if t[0] == '-' {
        (true, spelled(t.drop_first()))
    } else {
        (false, spelled(t))
    }
}

proof fn double_texts_spell(negative: bool, d: Seq<char>, exponent: int)
    requires
        text::all_digits(d),
        d.len() > 0 ==> d[0] != '0' && d.last() != '0',
        d.len() == 0 ==> !negative && exponent == 0,
    ensures
        signed_spelling(canonical::es6_text(negative, d, exponent)) == (negative, (d, exponent)),
{
    let t = canonical::es6_layout(d, exponent);
    if d.len() == 0 {
        zero_spells();
        assert(d =~= Seq::<char>::empty());
    } else {
        layouts_spell(d, exponent);
        layout_begins(d, exponent);
        if negative {
            let s = canonical::es6_text(negative, d, exponent);
            assert(s.drop_first() =~= t);
        }
    }
}

proof fn layout_begins(d: Seq<char>, exponent: int)
    requires
        text::all_digits(d),
        d.len() > 0,
    ensures
        canonical::es6_layout(d, exponent).len() > 0,
        text::is_digit(canonical::es6_layout(d, exponent)[0]),
{
    let k = d.len() as int;
    let n = exponent + k;
    let t = canonical::es6_layout(d, exponent);
    assert(text::is_digit(d[0]));
    if -6 < n && n <= 0 {
        assert(t[0] == '0');
    } else {
        assert(t[0] == d[0]);
    }
}

proof fn int_texts_spell(i: int)
    ensures
        ({
            let d = text::digits(decimal::abs(i));
            signed_spelling(canonical::int_text(i)) == (
                i < 0,
                if i == 0 {
                    (Seq::<char>::empty(), 0int)
                } else {
                    (float::without_end_zeros(d), d.len() - float::without_end_zeros(d).len())
                },
            )
        }),
{
    let n = decimal::abs(i);
    whole_numbers_spell(n);
    text::digits_spell(n);
    assert(text::is_digit(text::digits(n)[0]));
    if i < 0 {
        assert(canonical::int_text(i).drop_first() =~= text::digits(n));
    }
}

/// Different doubles have different texts.
pub proof fn double_texts_are_distinct(f: FloatModel, g: FloatModel)
    requires
        is_normal_double(f),
        is_normal_double(g),
        f is Finite,
        g is Finite,
        canonical::es6_text(f->negative, f->digits, f->exponent as int) == canonical::es6_text(
            g->negative,
            g->digits,
            g->exponent as int,
        ),
    ensures
        f == g,
{
    double_texts_spell(f->negative, f->digits, f->exponent as int);
    double_texts_spell(g->negative, g->digits, g->exponent as int);
}

/// A double has the text of a whole number only where it is that number.
pub proof fn whole_doubles_are_numbers(f: FloatModel, i: int)
    requires
        is_normal_double(f),
        f is Finite,
        canonical::es6_text(f->negative, f->digits, f->exponent as int) == canonical::int_text(i),
    ensures
        f == double_of(i),
{
    double_texts_spell(f->negative, f->digits, f->exponent as int);
    int_texts_spell(i);
}

/// Different whole numbers have different texts.
pub proof fn int_texts_are_distinct(i: int, j: int)
    requires
        canonical::int_text(i) == canonical::int_text(j),
    ensures
        i == j,
{
    text::digits_spell(decimal::abs(i));
    text::digits_spell(decimal::abs(j));
    let a = canonical::int_text(i);
    let b = canonical::int_text(j);
    assert(a[0] == b[0]);
    assert(text::is_digit(text::digits(decimal::abs(i))[0]));
    assert(text::is_digit(text::digits(decimal::abs(j))[0]));
    if i < 0 {
        assert(a.drop_first() =~= text::digits(decimal::abs(i)));
    }
    if j < 0 {
        assert(b.drop_first() =~= text::digits(decimal::abs(j)));
    }
}

proof fn trimmed_digits(s: Seq<char>)
    requires
        text::all_digits(s),
    ensures
        text::all_digits(float::without_front_zeros(s)),
        float::without_front_zeros(s).len() > 0 ==> float::without_front_zeros(s)[0] != '0',
    decreases s.len(),
{
    if s.len() > 0 && s[0] == '0' {
        assert forall|i: int| 0 <= i < s.len() - 1 implies text::is_digit(
            #[trigger] s.drop_first()[i],
        ) by {
            assert(s.drop_first()[i] == s[i + 1]);
        }
        trimmed_digits(s.drop_first());
    }
}

proof fn cut_digits(s: Seq<char>)
    requires
        text::all_digits(s),
    ensures
        text::all_digits(float::without_end_zeros(s)),
        float::without_end_zeros(s).len() > 0 ==> float::without_end_zeros(s).last() != '0',
        float::without_end_zeros(s).len() > 0 ==> float::without_end_zeros(s)[0] == s[0],
    decreases s.len(),
{
    if s.len() > 0 && s.last() == '0' {
        assert forall|i: int| 0 <= i < s.len() - 1 implies text::is_digit(
            #[trigger] s.drop_last()[i],
        ) by {
            assert(s.drop_last()[i] == s[i]);
        }
        cut_digits(s.drop_last());
    }
}

/// A double that is read from a text is held as its type says.
pub proof fn read_doubles_are_normal(negative: bool, t: Seq<char>)
    ensures
        float::float_of(negative, t) matches Some(f) ==> is_normal_double(f),
{
    if let Some((all, behind, e)) = float::number_parts(t) {
        trimmed_digits(all);
        cut_digits(float::without_front_zeros(all));
    }
}

} // verus!
