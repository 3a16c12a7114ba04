//! Double-precision numbers, from the shortest text that round-trips.

use vstd::prelude::*;
use crate::decimal;
use crate::text;
use crate::canonical::{Float, FloatModel};
use crate::text::{chars_of, find_char, is_digit_char, read_unsigned, text_of};

verus! {

/// Where the exponent of a number's text begins; its end where it has
/// none.
pub open spec fn mark_of(t: Seq<char>) -> nat {
    let a = text::chars_before(t, 'e');
    let b = text::chars_before(t, 'E');
    if a <= b {
        a
    } else {
        b
    }
}

/// The exponent that a text spells.
pub open spec fn exponent_of(s: Seq<char>) -> Option<int> {
    if s.len() > 0 && s[0] == '-' {
        let d = s.drop_first();
        match text::unsigned_text(d) {
            Some(n) if d[0] != '+' && n <= 0x8000_0000 => Some(-(n as int)),
            _ => None,
        }
    } else {
        match text::unsigned_text(s) {
            Some(n) if n <= 0x7fff_ffff => Some(n as int),
            _ => None,
        }
    }
}

/// Digits without the zeros at their front.
pub open spec fn without_front_zeros(s: Seq<char>) -> Seq<char>
    decreases s.len(),
{
    if s.len() > 0 && s[0] == '0' {
        without_front_zeros(s.drop_first())
    } else {
        s
    }
}

/// Digits without the zeros at their end.
pub open spec fn without_end_zeros(s: Seq<char>) -> Seq<char>
    decreases s.len(),
{
    if s.len() > 0 && s.last() == '0' {
        without_end_zeros(s.drop_last())
    } else {
        s
    }
}

/// The parts of a number's text: the digits on both sides of the point,
/// how many of them stand behind it, and the exponent.
pub open spec fn number_parts(t: Seq<char>) -> Option<(Seq<char>, nat, int)> {
    let n = mark_of(t) as int;
    let mantissa = t.take(n);
    let exponent = if n < t.len() {
        exponent_of(t.skip(n + 1))
    } else {
        Some(0)
    };
    let a = text::chars_before(mantissa, '.') as int;
    let behind = if a < mantissa.len() {
        mantissa.skip(a + 1)
    } else {
        Seq::empty()
    };
    let all = mantissa.take(a) + behind;
    match exponent {
        Some(e) if all.len() > 0 && text::all_digits(all) => Some((all, behind.len(), e)),
        _ => None,
    }
}

/// The number that a shortest text spells.
pub open spec fn float_of(negative: bool, t: Seq<char>) -> Option<FloatModel> {
    match number_parts(t) {
        None => None,
        Some((all, behind, e)) => {
            let front = without_front_zeros(all);
            let kept = without_end_zeros(front);
            let exponent = e - behind + (front.len() - kept.len());
            if kept.len() == 0 {
                Some(FloatModel::Finite { negative: false, digits: kept, exponent: 0 })
            } else if i32::MIN <= exponent <= i32::MAX {
                Some(FloatModel::Finite { negative, digits: kept, exponent: exponent as i32 })
            } else {
                None
            }
        },
    }
}

/// Digits without the zeros at their front, seen from the place.
pub proof fn front_zeros_are(s: Seq<char>, n: int)
    requires
        0 <= n <= s.len(),
        forall|i: int| 0 <= i < n ==> #[trigger] s[i] == '0',
        n < s.len() ==> s[n] != '0',
    ensures
        without_front_zeros(s) == s.skip(n),
    decreases s.len(),
{
    if n == 0 {
        assert(s.skip(0) =~= s);
    } else {
        let rest = s.drop_first();
        assert forall|i: int| 0 <= i < n - 1 implies #[trigger] rest[i] == '0' by {
            assert(rest[i] == s[i + 1]);
        }
        assert(n < s.len() ==> rest[n - 1] == s[n]);
        assert(s[0] == '0');
        front_zeros_are(rest, n - 1);
        assert(rest.skip(n - 1) =~= s.skip(n));
    }
}

/// Digits without the zeros at their end, seen from the place.
pub proof fn end_zeros_are(s: Seq<char>, n: int)
    requires
        0 <= n <= s.len(),
        forall|i: int| n <= i < s.len() ==> #[trigger] s[i] == '0',
        n > 0 ==> s[n - 1] != '0',
    ensures
        without_end_zeros(s) == s.take(n),
    decreases s.len(),
{
    if n == s.len() {
        assert(s.take(n) =~= s);
    } else {
        assert(s.last() == '0');
        let rest = s.drop_last();
        assert forall|i: int| n <= i < rest.len() implies #[trigger] rest[i] == '0' by {
            assert(rest[i] == s[i]);
        }
        end_zeros_are(rest, n);
        assert(rest.take(n) =~= s.take(n));
    }
}

fn read_exponent(v: &Vec<char>, from: usize) -> (r: Option<i64>)
    requires
        from <= v@.len(),
    ensures
        match r {
            Some(e) => exponent_of(v@.skip(from as int)) == Some(e as int),
            None => exponent_of(v@.skip(from as int)) is None,
        },
        r matches Some(e) ==> i32::MIN <= e <= i32::MAX,
{
    let to = v.len();
    let ghost s = v@.skip(from as int);
    assert(s =~= v@.subrange(from as int, to as int));
    if from < to && v[from] == '-' {
        assert(s[0] == '-');
        assert(s.drop_first() =~= v@.subrange(from + 1, to as int));
        if from + 1 < to && v[from + 1] == '+' {
            assert(s.drop_first()[0] == '+');
            return None;
        }
        match read_unsigned(v, from + 1, to) {
            Some(n) => {
                if n <= 0x8000_0000 {
                    assert(s.drop_first()[0] != '+');
                    Some(-(n as i64))
                } else {
                    None
                }
            },
            None => None,
        }
    } else {
        if from < to {
            assert(s[0] != '-');
        }
        match read_unsigned(v, from, to) {
            Some(n) => if n <= 0x7fff_ffff {
                Some(n as i64)
            } else {
                None
            },
            None => None,
        }
    }
}

fn push_digits(out: &mut Vec<char>, v: &Vec<char>, from: usize, to: usize) -> (r: bool)
    requires
        from <= to <= v@.len(),
    ensures
        r ==> final(out)@ == old(out)@ + v@.subrange(from as int, to as int),
        r == text::all_digits(v@.subrange(from as int, to as int)),
{
    let ghost start = out@;
    let ghost part = v@.subrange(from as int, to as int);
    let mut i: usize = from;
    assert(start =~= start + part.take(0));
    while i < to
        invariant
            from <= i <= to <= v@.len(),
            start == old(out)@,
            part == v@.subrange(from as int, to as int),
            out@ == start + part.take(i - from),
            forall|j: int| 0 <= j < i - from ==> text::is_digit(#[trigger] part[j]),
        decreases to - i,
    {
        assert(part[i - from] == v@[i as int]);
        if !is_digit_char(v[i]) {
            return false;
        }
        out.push(v[i]);
        i += 1;
        assert(out@ =~= start + part.take(i - from));
    }
    assert(part.take(to - from) =~= part);
    true
}

fn read_parts(v: &Vec<char>) -> (r: Option<(Vec<char>, usize, i64)>)
    ensures
        match r {
            Some((all, behind, e)) => number_parts(v@) == Some((all@, behind as nat, e as int)),
            None => number_parts(v@) is None,
        },
        r matches Some((all, behind, e)) ==> i32::MIN <= e <= i32::MAX,
{
    let len = v.len();
    assert(v@.subrange(0, len as int) =~= v@);
    let a = find_char(v, 0, len, 'e');
    let b = find_char(v, 0, len, 'E');
    let n = if a <= b {
        a
    } else {
        b
    };
    let ghost mantissa = v@.take(n as int);
    let exponent = if n < len {
        match read_exponent(v, n + 1) {
            Some(e) => e,
            None => {
                return None;
            },
        }
    } else {
        0
    };
    assert(mantissa =~= v@.subrange(0, n as int));
    let p = find_char(v, 0, n, '.');
    let mut all: Vec<char> = Vec::new();
    let ghost front = v@.subrange(0, p as int);
    assert(front =~= mantissa.take(p as int));
    if !push_digits(&mut all, v, 0, p) {
        proof {
            let i = choose|i: int| 0 <= i < front.len() && !text::is_digit(#[trigger] front[i]);
            let behind = if p < n {
                mantissa.skip(p + 1)
            } else {
                Seq::empty()
            };
            assert((front + behind)[i] == front[i]);
        }
        return None;
    }
    assert(all@ =~= front);
    let mut behind: usize = 0;
    if p < n {
        let ghost back = v@.subrange(p + 1, n as int);
        assert(back =~= mantissa.skip(p + 1));
        if !push_digits(&mut all, v, p + 1, n) {
            proof {
                let i = choose|i: int| 0 <= i < back.len() && !text::is_digit(#[trigger] back[i]);
                assert((front + back)[front.len() + i] == back[i]);
            }
            return None;
        }
        assert(all@ =~= front + back);
        behind = n - p - 1;
        proof {
            assert forall|i: int| 0 <= i < all@.len() implies text::is_digit(#[trigger] all@[i]) by {
                if i < front.len() {
                    assert(all@[i] == front[i]);
                } else {
                    assert(all@[i] == back[i - front.len()]);
                }
            }
        }
    } else {
        assert(front + Seq::<char>::empty() =~= front);
    }
    if all.len() == 0 {
        return None;
    }
    Some((all, behind, exponent))
}

impl Float {
    /// The number that a shortest text spells, such as `123.456`, `1e30`
    /// or `1.5e-7`: its digits without the zeros at both ends, and the
    /// power of ten that they count. Nothing where the text is no such
    /// number.
    pub fn from_shortest(negative: bool, text: &str) -> (r: Option<Float>)
        ensures
            match r {
                Some(f) => float_of(negative, text@) == Some(f@),
                None => float_of(negative, text@) is None,
            },
    {
        let v = chars_of(text);
        let (all, behind, e) = match read_parts(&v) {
            Some(parts) => parts,
            None => {
                return None;
            },
        };
        let len = all.len();
        let mut from: usize = 0;
        while from < len && all[from] == '0'
            invariant
                from <= len == all@.len(),
                forall|i: int| 0 <= i < from ==> #[trigger] all@[i] == '0',
            decreases len - from,
        {
            from += 1;
        }
        let ghost front = without_front_zeros(all@);
        proof {
            front_zeros_are(all@, from as int);
        }
        let mut to: usize = len;
        while to > from && all[to - 1] == '0'
            invariant
                from <= to <= len == all@.len(),
                front == all@.skip(from as int),
                forall|i: int| to - from <= i < front.len() ==> #[trigger] front[i] == '0',
            decreases to,
        {
            assert(front[to - 1 - from] == all@[to - 1]);
            to -= 1;
        }
        let ghost kept = without_end_zeros(front);
        proof {
            if to > from {
                assert(front[to - 1 - from] == all@[to - 1]);
            }
            end_zeros_are(front, to - from);
        }
        let mut digits: Vec<char> = Vec::new();
        let mut i: usize = from;
        while i < to
            invariant
                from <= i <= to <= all@.len(),
                front == all@.skip(from as int),
                digits@ == front.take(i - from),
            decreases to - i,
        {
            digits.push(all[i]);
            i += 1;
            assert(digits@ =~= front.take(i - from));
        }
        if to == from {
            return Some(Float::Finite { negative: false, digits: text_of(&digits), exponent: 0 });
        }
        let exponent: i128 = e as i128 - behind as i128 + (len - to) as i128;
        if exponent < i32::MIN as i128 || exponent > i32::MAX as i128 {
            return None;
        }
        Some(Float::Finite { negative, digits: text_of(&digits), exponent: exponent as i32 })
    }
}

proof fn front_zeros_count_nothing(s: Seq<char>)
    ensures
        text::decimal_value(without_front_zeros(s)) == text::decimal_value(s),
        without_front_zeros(s).len() > 0 ==> without_front_zeros(s)[0] != '0',
        without_front_zeros(s).len() <= s.len(),
    decreases s.len(),
{
    if s.len() > 0 && s[0] == '0' {
        front_zeros_count_nothing(s.drop_first());
        a_front_zero_counts_nothing(s);
    }
}

proof fn a_front_zero_counts_nothing(s: Seq<char>)
    requires
        s.len() > 0,
        s[0] == '0',
    ensures
        text::decimal_value(s.drop_first()) == text::decimal_value(s),
    decreases s.len(),
{
    if s.len() == 1 {
        assert(s.drop_first() =~= Seq::<char>::empty());
        assert(s.drop_last() =~= Seq::<char>::empty());
        assert(text::digit_value('0') == 0);
    } else {
        a_front_zero_counts_nothing(s.drop_last());
        assert(s.drop_first().drop_last() =~= s.drop_last().drop_first());
        assert(s.drop_first().last() == s.last());
    }
}

proof fn end_zeros_count_tens(s: Seq<char>)
    ensures
        without_end_zeros(s).len() <= s.len(),
        without_end_zeros(s) == s.take(without_end_zeros(s).len() as int),
        without_end_zeros(s).len() > 0 ==> without_end_zeros(s).last() != '0',
        text::decimal_value(s) == text::decimal_value(without_end_zeros(s)) * decimal::pow10(
            (s.len() - without_end_zeros(s).len()) as nat,
        ),
    decreases s.len(),
{
    if s.len() > 0 && s.last() == '0' {
        let rest = s.drop_last();
        end_zeros_count_tens(rest);
        let kept = without_end_zeros(s);
        assert(rest.take(kept.len() as int) =~= s.take(kept.len() as int));
        let k = (rest.len() - kept.len()) as nat;
        assert(text::digit_value('0') == 0);
        assert(text::decimal_value(s) == 10 * text::decimal_value(rest));
        assert(decimal::pow10(k + 1) == 10 * decimal::pow10(k));
        assert(10 * (text::decimal_value(kept) * decimal::pow10(k)) == text::decimal_value(kept) * (10 * decimal::pow10(k)))
            by (nonlinear_arith);
    } else {
        assert(s.take(s.len() as int) =~= s);
        assert(decimal::pow10(0) == 1);
        assert(text::decimal_value(s) * 1 == text::decimal_value(s));
    }
}

/// The digits have no zeros at their ends, so a number has one form, and
/// what was trimmed is in the exponent: the digits stand for the same
/// number as the text.
pub proof fn trimming_keeps_the_number(all: Seq<char>)
    ensures
        ({
            let front = without_front_zeros(all);
            let kept = without_end_zeros(front);
            &&& text::decimal_value(all) == text::decimal_value(kept) * decimal::pow10(
                (front.len() - kept.len()) as nat,
            )
            &&& kept.len() > 0 ==> kept[0] != '0' && kept.last() != '0'
        }),
{
    front_zeros_count_nothing(all);
    let front = without_front_zeros(all);
    end_zeros_count_tens(front);
    let kept = without_end_zeros(front);
    if kept.len() > 0 {
        assert(kept[0] == front[0]);
    }
}

/// The text of digits on both sides of a point, without the point where
/// there is none.
pub open spec fn mantissa_text(whole: Seq<char>, point: bool, fraction: Seq<char>) -> Seq<char> {
    if point {
        whole + seq!['.'] + fraction
    } else {
        whole
    }
}

/// The text of a power of ten, with its mark.
pub open spec fn power_text(below: bool, power: Seq<char>) -> Seq<char> {
    if below {
        seq!['e', '-'] + power
    } else {
        seq!['e'] + power
    }
}

proof fn parts_are_found(
    whole: Seq<char>,
    point: bool,
    fraction: Seq<char>,
    marked: bool,
    below: bool,
    power: Seq<char>,
)
    requires
        text::all_digits(whole),
        text::all_digits(fraction),
        text::all_digits(power),
        whole.len() + fraction.len() > 0,
        !point ==> fraction.len() == 0,
        marked ==> power.len() > 0 && text::decimal_value(power) <= 0x7fff_ffff,
    ensures
        ({
            let m = mantissa_text(whole, point, fraction);
            let t = if marked {
                m + power_text(below, power)
            } else {
                m
            };
            let e = if !marked {
                0
            } else if below {
                -(text::decimal_value(power) as int)
            } else {
                text::decimal_value(power) as int
            };
            number_parts(t) == Some((whole + fraction, fraction.len(), e))
        }),
{
    let m = mantissa_text(whole, point, fraction);
    let t = if marked {
        m + power_text(below, power)
    } else {
        m
    };
    let n = m.len() as int;
    assert forall|i: int| 0 <= i < n implies #[trigger] m[i] != 'e' && m[i] != 'E' by {
        if i < whole.len() {
            assert(m[i] == whole[i]);
        } else if i > whole.len() {
            assert(m[i] == fraction[i - whole.len() - 1]);
        }
    }
    assert forall|i: int| 0 <= i < n implies #[trigger] t[i] != 'e' && t[i] != 'E' by {
        assert(t[i] == m[i]);
    }
    if marked {
        assert(t[n] == 'e');
        text::chars_before_is(t, 'e', n);
        capital_is_not_before(t, n);
        let tail = t.skip(n + 1);
        if below {
            assert(tail[0] == '-');
            assert(tail.drop_first() =~= power);
            assert(text::is_digit(power[0]));
        } else {
            assert(tail =~= power);
            assert(text::is_digit(power[0]));
        }
    } else {
        text::chars_before_is(t, 'e', n);
        text::chars_before_is(t, 'E', n);
    }
    assert(mark_of(t) == n);
    assert(t.take(n) =~= m);
    assert forall|i: int| 0 <= i < whole.len() implies #[trigger] m[i] != '.' by {
        assert(m[i] == whole[i]);
    }
    text::chars_before_is(m, '.', whole.len() as int);
    assert(m.take(whole.len() as int) =~= whole);
    if point {
        assert(m.skip(whole.len() as int + 1) =~= fraction);
    } else {
        assert(fraction =~= Seq::<char>::empty());
    }
    let all = whole + fraction;
    assert forall|i: int| 0 <= i < all.len() implies text::is_digit(#[trigger] all[i]) by {
        if i < whole.len() {
            assert(all[i] == whole[i]);
        } else {
            assert(all[i] == fraction[i - whole.len()]);
        }
    }
}

proof fn capital_is_not_before(t: Seq<char>, n: int)
    requires
        0 <= n <= t.len(),
        forall|i: int| 0 <= i < n ==> #[trigger] t[i] != 'E',
    ensures
        text::chars_before(t, 'E') >= n,
    decreases t.len(),
{
    if n > 0 {
        assert(t[0] != 'E');
        let rest = t.drop_first();
        assert forall|i: int| 0 <= i < n - 1 implies #[trigger] rest[i] != 'E' by {
            assert(rest[i] == t[i + 1]);
        }
        capital_is_not_before(rest, n - 1);
    }
}

/// A text is read as the number that it spells: its digits count as one
/// whole number, a digit behind the point for a tenth of the power, and
/// the sign is kept but for zero, which has none. Only a number whose
/// power is out of range is not read.
pub proof fn texts_are_read_by_their_value(
    negative: bool,
    whole: Seq<char>,
    point: bool,
    fraction: Seq<char>,
    marked: bool,
    below: bool,
    power: Seq<char>,
)
    requires
        text::all_digits(whole),
        text::all_digits(fraction),
        text::all_digits(power),
        whole.len() + fraction.len() > 0,
        !point ==> fraction.len() == 0,
        marked ==> power.len() > 0 && text::decimal_value(power) <= 0x7fff_ffff,
    ensures
        ({
            let m = mantissa_text(whole, point, fraction);
            let t = if marked {
                m + power_text(below, power)
            } else {
                m
            };
            let e = if !marked {
                0
            } else if below {
                -(text::decimal_value(power) as int)
            } else {
                text::decimal_value(power) as int
            };
            let least = e - fraction.len();
            let value = text::decimal_value(whole + fraction);
            &&& i32::MIN <= least && e + whole.len() <= i32::MAX ==> float_of(negative, t) is Some
            &&& match float_of(negative, t) {
                Some(FloatModel::Finite { negative: n, digits: d, exponent: x }) => {
                    &&& n == (negative && d.len() > 0)
                    &&& if d.len() == 0 {
                        value == 0 && x == 0
                    } else {
                        x >= least && value == text::decimal_value(d) * decimal::pow10((x - least) as nat)
                            && d[0] != '0' && d.last() != '0'
                    }
                },
                Some(_) => false,
                None => true,
            }
        }),
{
    parts_are_found(whole, point, fraction, marked, below, power);
    let all = whole + fraction;
    trimming_keeps_the_number(all);
    front_zeros_count_nothing(all);
    let front = without_front_zeros(all);
    end_zeros_count_tens(front);
    let kept = without_end_zeros(front);
    assert(front.len() <= all.len());
    if kept.len() == 0 {
        assert(text::decimal_value(kept) == 0);
        assert(0 * decimal::pow10((front.len() - kept.len()) as nat) == 0);
    }
}

} // verus!
