//! Text as sequences of characters, and decimal digits.

use vstd::prelude::*;

verus! {

/// `String::push` appends the given character.
pub assume_specification[ std::string::String::push ](s: &mut std::string::String, c: char)
    ensures
        final(s)@ == old(s)@.push(c),
;

/// The characters of a text.
pub fn chars_of(s: &str) -> (r: Vec<char>)
    ensures
        r@ == s@,
{
    let mut r: Vec<char> = Vec::new();
    for c in it: s.chars()
        invariant
            it.seq() == s@,
            r@ == s@.take(it.index() as int),
    {
        assert(s@.take(it.index() as int + 1) =~= s@.take(it.index() as int).push(c));
        r.push(c);
    }
    assert(s@.take(s@.len() as int) =~= s@);
    r
}

/// The text of a sequence of characters.
pub fn text_of(v: &Vec<char>) -> (r: String)
    ensures
        r@ == v@,
{
    let mut r = String::new();
    let mut i: usize = 0;
    while i < v.len()
        invariant
            i <= v.len(),
            r@ == v@.take(i as int),
        decreases v.len() - i,
    {
        r.push(v[i]);
        i += 1;
        assert(v@.take(i as int) =~= v@.take(i - 1).push(v@[i - 1]));
    }
    assert(v@.take(v@.len() as int) =~= v@);
    r
}

/// Appends every character of `s`.
pub fn push_text(v: &mut Vec<char>, s: &str)
    ensures
        final(v)@ == old(v)@ + s@,
{
    let ghost start = v@;
    for c in it: s.chars()
        invariant
            it.seq() == s@,
            v@ == start + s@.take(it.index() as int),
    {
        assert(start + s@.take(it.index() as int + 1) =~= (start + s@.take(it.index() as int)).push(
            c,
        ));
        v.push(c);
    }
    assert(s@.take(s@.len() as int) =~= s@);
}

pub open spec fn is_digit(c: char) -> bool {
    '0' <= c && c <= '9'
}

pub open spec fn all_digits(s: Seq<char>) -> bool {
    forall|i: int| 0 <= i < s.len() ==> is_digit(#[trigger] s[i])
}

pub open spec fn digit_value(c: char) -> nat {
    (c as nat - '0' as nat) as nat
}

/// The digit that stands for `n`.
pub open spec fn digit_char(n: nat) -> char
    recommends
        n < 10,
{
    ('0' as nat + n) as char
}

pub fn digit_of(n: u8) -> (c: char)
    requires
        n < 10,
    ensures
        c == digit_char(n as nat),
        is_digit(c),
        digit_value(c) == n,
{
    match n {
        0 => '0',
        1 => '1',
        2 => '2',
        3 => '3',
        4 => '4',
        5 => '5',
        6 => '6',
        7 => '7',
        8 => '8',
        _ => '9',
    }
}

/// The number that a sequence of digits spells out in base ten.
pub open spec fn decimal_value(s: Seq<char>) -> nat
    decreases s.len(),
{
    if s.len() == 0 {
        0
    } else {
        10 * decimal_value(s.drop_last()) + digit_value(s.last())
    }
}

/// The digits of a number in base ten, without leading zeros.
pub open spec fn digits(n: nat) -> Seq<char>
    decreases n,
{
    if n < 10 {
        seq![digit_char(n)]
    } else {
        digits(n / 10).push(digit_char(n % 10))
    }
}

pub proof fn digits_spell(n: nat)
    ensures
        decimal_value(digits(n)) == n,
        all_digits(digits(n)),
        digits(n).len() > 0,
        n > 0 ==> digits(n)[0] != '0',
    decreases n,
{
    if n < 10 {
        assert(digits(n).drop_last() =~= Seq::<char>::empty());
        assert(decimal_value(digits(n).drop_last()) == 0);
    } else {
        digits_spell(n / 10);
        assert(digits(n).drop_last() =~= digits(n / 10));
    }
}

/// Writes a number in base ten.
pub fn digits_text(n: u128) -> (r: Vec<char>)
    ensures
        r@ == digits(n as nat),
    decreases n,
{
    if n < 10 {
        let mut r: Vec<char> = Vec::new();
        r.push(digit_of(n as u8));
        assert(r@ =~= digits(n as nat));
        r
    } else {
        let mut r = digits_text(n / 10);
        r.push(digit_of((n % 10) as u8));
        r
    }
}

pub fn is_digit_char(c: char) -> (r: bool)
    ensures
        r == is_digit(c),
{
    '0' <= c && c <= '9'
}

pub fn digit_number(c: char) -> (n: u8)
    requires
        is_digit(c),
    ensures
        n == digit_value(c),
        n < 10,
{
    (c as u32 - '0' as u32) as u8
}

/// A text's digits, behind its sign if it has one.
pub open spec fn unsigned_digits(s: Seq<char>) -> Seq<char> {
    if s.len() > 0 && (s[0] == '-' || s[0] == '+') {
        s.skip(1)
    } else {
        s
    }
}

/// The 64-bit integer that a text spells as an optional sign and digits.
pub open spec fn integer_of(s: Seq<char>) -> Option<int> {
    let body = unsigned_digits(s);
    let n = decimal_value(body) as int;
    let value = if s.len() > 0 && s[0] == '-' {
        -n
    } else {
        n
    };
    if body.len() > 0 && all_digits(body) && i64::MIN <= value <= i64::MAX {
        Some(value)
    } else {
        None
    }
}

proof fn value_of_front(s: Seq<char>, i: int)
    requires
        0 <= i <= s.len(),
    ensures
        decimal_value(s.take(i)) <= decimal_value(s),
    decreases s.len(),
{
    if i < s.len() {
        value_of_front(s.drop_last(), i);
        assert(s.drop_last().take(i) =~= s.take(i));
    } else {
        assert(s.take(i) =~= s);
    }
}

/// Reads a 64-bit integer spelled as an optional sign and digits.
pub fn parse_integer(s: &str) -> (r: Option<i64>)
    ensures
        match r {
            Some(i) => integer_of(s@) == Some(i as int),
            None => integer_of(s@) is None,
        },
{
    let v = chars_of(s);
    let n = v.len();
    let negative = n > 0 && v[0] == '-';
    let start: usize = if n > 0 && (v[0] == '-' || v[0] == '+') {
        1
    } else {
        0
    };
    let ghost body = unsigned_digits(s@);
    assert(body =~= s@.skip(start as int));
    if start == n {
        return None;
    }
    let mut value: i128 = 0;
    let mut i: usize = start;
    assert(body.take(0) =~= Seq::<char>::empty());
    while i < n
        invariant
            start <= i <= n == v@.len(),
            start <= 1,
            v@ == s@,
            body == s@.skip(start as int),
            body == unsigned_digits(s@),
            value == decimal_value(body.take(i - start)),
            0 <= value <= 9223372036854775808,
            forall|j: int| 0 <= j < i - start ==> is_digit(#[trigger] body[j]),
        decreases n - i,
    {
        assert(body[i - start] == v@[i as int]);
        if !is_digit_char(v[i]) {
            return None;
        }
        proof {
            assert(body.take(i - start + 1).drop_last() =~= body.take(i - start));
            value_of_front(body, i - start + 1);
        }
        value = 10 * value + digit_number(v[i]) as i128;
        if value > 9223372036854775808 {
            return None;
        }
        i += 1;
    }
    assert(body.take(body.len() as int) =~= body);
    let signed: i128 = if negative {
        -value
    } else {
        value
    };
    if -9223372036854775808 <= signed && signed <= 9223372036854775807 {
        Some(signed as i64)
    } else {
        None
    }
}

/// The code point of a character.
pub fn code_point(c: char) -> (n: u32)
    ensures
        n == c as nat,
        n <= 0x10FFFF,
        !(0xD800 <= n <= 0xDFFF),
{
    c as u32
}

/// A character is determined by its code point, a Unicode scalar value.
pub proof fn code_point_unique(a: char, b: char)
    ensures
        a as nat <= 0x10FFFF,
        !(0xD800 <= a as nat <= 0xDFFF),
        a as nat == b as nat ==> a == b,
{
}

/// The lower-case hexadecimal digit that stands for `n`.
pub open spec fn hex_char(n: nat) -> char {
    if n < 10 {
        ('0' as nat + n) as char
    } else {
        ('a' as nat + n - 10) as char
    }
}

/// Two lower-case hexadecimal digits per byte.
pub open spec fn hex(s: Seq<u8>) -> Seq<char>
    decreases s.len(),
{
    if s.len() == 0 {
        Seq::empty()
    } else {
        hex(s.drop_last()).push(hex_char(s.last() as nat / 16)).push(hex_char(s.last() as nat % 16))
    }
}

pub open spec fn is_hex(c: char) -> bool {
    is_digit(c) || ('a' <= c && c <= 'f')
}

pub open spec fn hex_value(c: char) -> nat {
    if is_digit(c) {
        (c as nat - '0' as nat) as nat
    } else {
        (c as nat - 'a' as nat + 10) as nat
    }
}

/// The bytes that pairs of lower-case hexadecimal digits spell out.
pub open spec fn unhex(s: Seq<char>) -> Option<Seq<u8>> {
    if s.len() % 2 == 0 && forall|i: int| 0 <= i < s.len() ==> is_hex(#[trigger] s[i]) {
        Some(
            Seq::new(
                s.len() / 2,
                |i: int| (hex_value(s[2 * i]) * 16 + hex_value(s[2 * i + 1])) as u8,
            ),
        )
    } else {
        None
    }
}

/// The digits of byte `i` stand at `2i` and `2i + 1`.
pub proof fn hex_index(s: Seq<u8>)
    ensures
        hex(s).len() == 2 * s.len(),
        forall|i: int|
            0 <= i < s.len() ==> {
                &&& hex(s)[2 * i] == hex_char(#[trigger] s[i] as nat / 16)
                &&& hex(s)[2 * i + 1] == hex_char(s[i] as nat % 16)
            },
        forall|i: int| 0 <= i < hex(s).len() ==> is_hex(#[trigger] hex(s)[i]),
    decreases s.len(),
{
    if s.len() > 0 {
        hex_index(s.drop_last());
        let t = hex(s.drop_last());
        assert forall|i: int| 0 <= i < s.len() implies {
            &&& hex(s)[2 * i] == hex_char(#[trigger] s[i] as nat / 16)
            &&& hex(s)[2 * i + 1] == hex_char(s[i] as nat % 16)
        } by {
            if i < s.len() - 1 {
                assert(s.drop_last()[i] == s[i]);
            }
        }
        assert forall|i: int| 0 <= i < hex(s).len() implies is_hex(#[trigger] hex(s)[i]) by {
            if i < t.len() {
                assert(hex(s)[i] == t[i]);
            }
        }
    }
}

/// Reading back the digits of some bytes gives those bytes.
pub proof fn unhex_of_hex(s: Seq<u8>)
    ensures
        unhex(hex(s)) == Some(s),
{
    hex_index(s);
    let t = hex(s);
    let r = Seq::new(
        t.len() / 2,
        |i: int| (hex_value(t[2 * i]) * 16 + hex_value(t[2 * i + 1])) as u8,
    );
    assert forall|i: int| 0 <= i < s.len() implies r[i] == s[i] by {
        let b = s[i] as nat;
        assert(hex_value(hex_char(b / 16)) == b / 16);
        assert(hex_value(hex_char(b % 16)) == b % 16);
    }
    assert(r =~= s);
}

/// Bytes have one hexadecimal text.
pub proof fn hex_of_unhex(s: Seq<char>)
    ensures
        unhex(s) matches Some(b) ==> hex(b) == s,
{
    if unhex(s) is Some {
        let b = unhex(s)->0;
        hex_index(b);
        assert forall|i: int| 0 <= i < s.len() implies hex(b)[i] == s[i] by {
            let j = i / 2;
            let x = hex_value(s[2 * j]);
            let y = hex_value(s[2 * j + 1]);
            assert(is_hex(s[2 * j]) && is_hex(s[2 * j + 1]));
            assert(b[j] as nat == x * 16 + y);
            assert(hex_char(x) == s[2 * j]);
            assert(hex_char(y) == s[2 * j + 1]);
            assert(b[j] as nat / 16 == x && b[j] as nat % 16 == y);
            assert(i == 2 * j || i == 2 * j + 1);
        }
        assert(hex(b) =~= s);
    }
}

fn hex_digit(n: u8) -> (c: char)
    requires
        n < 16,
    ensures
        c == hex_char(n as nat),
{
    if n < 10 {
        digit_of(n)
    } else {
        match n {
            10 => 'a',
            11 => 'b',
            12 => 'c',
            13 => 'd',
            14 => 'e',
            _ => 'f',
        }
    }
}

/// Appends the hexadecimal text of some bytes.
pub fn push_hex(out: &mut Vec<char>, bytes: &[u8])
    ensures
        final(out)@ == old(out)@ + hex(bytes@),
{
    let ghost start = out@;
    let mut i: usize = 0;
    assert(bytes@.take(0) =~= Seq::<u8>::empty());
    while i < bytes.len()
        invariant
            i <= bytes@.len(),
            out@ == start + hex(bytes@.take(i as int)),
        decreases bytes@.len() - i,
    {
        let b = bytes[i];
        out.push(hex_digit(b / 16));
        out.push(hex_digit(b % 16));
        i += 1;
        assert(bytes@.take(i as int).drop_last() =~= bytes@.take(i - 1));
        assert(out@ =~= start + hex(bytes@.take(i as int)));
    }
    assert(bytes@.take(bytes@.len() as int) =~= bytes@);
}

fn hex_number(c: char) -> (r: Option<u8>)
    ensures
        match r {
            Some(n) => is_hex(c) && n == hex_value(c) && n < 16,
            None => !is_hex(c),
        },
{
    if is_digit_char(c) {
        Some(digit_number(c))
    } else if 'a' <= c && c <= 'f' {
        Some((c as u32 - 'a' as u32 + 10) as u8)
    } else {
        None
    }
}

/// Reads `v[from..]` as pairs of lower-case hexadecimal digits.
pub fn read_hex(v: &Vec<char>, from: usize) -> (r: Option<Vec<u8>>)
    requires
        from <= v@.len(),
    ensures
        match r {
            Some(b) => unhex(v@.skip(from as int)) == Some(b@),
            None => unhex(v@.skip(from as int)) is None,
        },
{
    let ghost s = v@.skip(from as int);
    if (v.len() - from) % 2 != 0 {
        return None;
    }
    let mut out: Vec<u8> = Vec::new();
    let mut i: usize = from;
    while i < v.len()
        invariant
            from <= i <= v@.len(),
            s == v@.skip(from as int),
            (v@.len() - from) % 2 == 0,
            (i - from) % 2 == 0,
            out@.len() == (i - from) / 2,
            forall|j: int| 0 <= j < i - from ==> is_hex(#[trigger] s[j]),
            forall|j: int|
                0 <= j < out@.len() ==> #[trigger] out@[j] == (hex_value(s[2 * j]) * 16 + hex_value(
                    s[2 * j + 1],
                )) as u8,
        decreases v@.len() - i,
    {
        assert(s[i - from] == v@[i as int]);
        assert(s[i - from + 1] == v@[i + 1]);
        let hi = match hex_number(v[i]) {
            Some(n) => n,
            None => {
                return None;
            },
        };
        let lo = match hex_number(v[i + 1]) {
            Some(n) => n,
            None => {
                return None;
            },
        };
        out.push(hi * 16 + lo);
        i += 2;
    }
    assert(unhex(s) is Some);
    assert(unhex(s)->0 =~= out@);
    Some(out)
}

/// How many characters stand before the first `c`.
pub open spec fn chars_before(s: Seq<char>, c: char) -> nat
    decreases s.len(),
{
    if s.len() == 0 || s[0] == c {
        0
    } else {
        1 + chars_before(s.drop_first(), c)
    }
}

/// How many characters stand before the first `c`, seen from the place.
pub proof fn chars_before_is(s: Seq<char>, c: char, n: int)
    requires
        0 <= n <= s.len(),
        forall|i: int| 0 <= i < n ==> #[trigger] s[i] != c,
        n < s.len() ==> s[n] == c,
    ensures
        chars_before(s, c) == n,
    decreases s.len(),
{
    if n > 0 {
        let rest = s.drop_first();
        assert forall|i: int| 0 <= i < n - 1 implies #[trigger] rest[i] != c by {
            assert(rest[i] == s[i + 1]);
        }
        assert(n < s.len() ==> rest[n - 1] == s[n]);
        assert(s[0] != c);
        chars_before_is(rest, c, n - 1);
    }
}

/// The place of the first `c` in a part of a text; its end where there is
/// none.
pub fn find_char(v: &Vec<char>, from: usize, to: usize, c: char) -> (r: usize)
    requires
        from <= to <= v@.len(),
    ensures
        from <= r <= to,
        r - from == chars_before(v@.subrange(from as int, to as int), c),
        r < to ==> v@[r as int] == c,
{
    let mut i: usize = from;
    let ghost s = v@.subrange(from as int, to as int);
    while i < to && v[i] != c
        invariant
            from <= i <= to <= v@.len(),
            s == v@.subrange(from as int, to as int),
            forall|j: int| 0 <= j < i - from ==> #[trigger] s[j] != c,
        decreases to - i,
    {
        assert(s[i - from] == v@[i as int]);
        i += 1;
    }
    proof {
        assert(i < to ==> s[i - from] == v@[i as int]);
        chars_before_is(s, c, i - from);
    }
    i
}

/// The number that digits spell, which may have a plus sign.
pub open spec fn unsigned_text(s: Seq<char>) -> Option<u64> {
    let d = if s.len() > 0 && s[0] == '+' {
        s.drop_first()
    } else {
        s
    };
    if d.len() > 0 && all_digits(d) && decimal_value(d) <= u64::MAX {
        Some(decimal_value(d) as u64)
    } else {
        None
    }
}

proof fn decimal_value_grows(s: Seq<char>, n: int)
    requires
        0 <= n <= s.len(),
    ensures
        decimal_value(s.take(n)) <= decimal_value(s),
    decreases s.len() - n,
{
    if n < s.len() {
        assert(s.take(n + 1).drop_last() =~= s.take(n));
        decimal_value_grows(s, n + 1);
    } else {
        assert(s.take(n) =~= s);
    }
}

/// Reads a number that may have a plus sign.
pub fn read_unsigned(v: &Vec<char>, from: usize, to: usize) -> (r: Option<u64>)
    requires
        from <= to <= v@.len(),
    ensures
        r == unsigned_text(v@.subrange(from as int, to as int)),
{
    let ghost s = v@.subrange(from as int, to as int);
    let mut start: usize = from;
    if from < to && v[from] == '+' {
        start = from + 1;
    }
    let ghost d = v@.subrange(start as int, to as int);
    proof {
        if from < to {
            assert(s[0] == v@[from as int]);
        }
        assert(d =~= if s.len() > 0 && s[0] == '+' {
            s.drop_first()
        } else {
            s
        });
    }
    if start >= to {
        return None;
    }
    let mut value: u64 = 0;
    let mut i: usize = start;
    assert(d.take(0) =~= Seq::<char>::empty());
    while i < to
        invariant
            start <= i <= to <= v@.len(),
            start < to,
            s == v@.subrange(from as int, to as int),
            d == v@.subrange(start as int, to as int),
            unsigned_text(s) == (if d.len() > 0 && all_digits(d) && decimal_value(d) <= u64::MAX {
                Some(decimal_value(d) as u64)
            } else {
                None
            }),
            forall|j: int| 0 <= j < i - start ==> is_digit(#[trigger] d[j]),
            value == decimal_value(d.take(i - start)),
        decreases to - i,
    {
        let c = v[i];
        assert(d[i - start] == c);
        if !is_digit_char(c) {
            assert(!is_digit(d[i - start]));
            return None;
        }
        let n = digit_number(c) as u64;
        proof {
            assert(d.take(i - start + 1).drop_last() =~= d.take(i - start));
            decimal_value_grows(d, i - start + 1);
        }
        if value > (u64::MAX - n) / 10 {
            assert(decimal_value(d) > u64::MAX);
            return None;
        }
        value = value * 10 + n;
        i += 1;
    }
    assert(d.take(d.len() as int) =~= d);
    Some(value)
}

} // verus!
