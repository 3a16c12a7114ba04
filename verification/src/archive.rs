//! The archive format of a bundle's blobs: a plain POSIX tar. The writer
//! has one spelling for every value; the reader tolerates the header
//! metadata of other writers.

use vstd::prelude::*;
use crate::decimal;
use crate::text;
use crate::canonical::{ContentHash, push_bytes};
use crate::text::{digits_text, push_hex, push_text, text_of};
use vstd::utf8::*;

verus! {

/// An archive is made of blocks of this many bytes.
pub const BLOCK: usize = 512;

/// The largest size that a header's size field can spell.
pub const USTAR_MAX: u64 = 0o77777777777;

/// The digit in base eight that stands for `n`.
pub open spec fn octal_digit(n: nat) -> u8 {
    (0x30 + n) as u8
}

/// The last `width` digits of a number in base eight, with leading
/// zeros.
pub open spec fn octal_digits(n: nat, width: nat) -> Seq<u8>
    decreases width,
{
    if width == 0 {
        Seq::empty()
    } else {
        octal_digits(n / 8, (width - 1) as nat).push(octal_digit(n % 8))
    }
}

/// Eight to the power of `k`.
pub open spec fn pow8(k: nat) -> nat
    decreases k,
{
    if k == 0 {
        1
    } else {
        8 * pow8((k - 1) as nat)
    }
}

/// A number field: digits in base eight with leading zeros, and a NUL.
pub open spec fn octal_field(n: nat, width: nat) -> Seq<u8> {
    octal_digits(n, (width - 1) as nat).push(0u8)
}

proof fn octal_digits_len(n: nat, width: nat)
    ensures
        octal_digits(n, width).len() == width,
    decreases width,
{
    if width > 0 {
        octal_digits_len(n / 8, (width - 1) as nat);
    }
}

/// Writes a number into a field: zero-padded and NUL-terminated, one
/// spelling per value.
pub fn octal(field: &mut [u8], value: u64)
    requires
        old(field)@.len() > 0,
        value < pow8((old(field)@.len() - 1) as nat),
    ensures
        final(field)@ == octal_field(value as nat, old(field)@.len()),
{
    let n = field.len();
    let mut rest = value;
    let mut i: usize = n - 1;
    field[i] = 0;
    let ghost w = (n - 1) as nat;
    proof {
        octal_digits_len(value as nat, w);
    }
    assert(field@.subrange(i as int, n as int) =~= seq![0u8]);
    while i > 0
        invariant
            0 <= i < n == field@.len(),
            n == old(field)@.len(),
            w == n - 1,
            octal_digits(value as nat, w).len() == w,
            octal_digits(value as nat, w) == octal_digits(rest as nat, i as nat)
                + field@.subrange(i as int, n - 1),
            field@[n - 1] == 0u8,
        decreases i,
    {
        let ghost before = field@;
        let d: u8 = (rest % 8) as u8;
        i -= 1;
        field[i] = 0x30 + d;
        proof {
            let tail = before.subrange(i + 1, n - 1);
            assert(field@.subrange(i as int, n - 1) =~= seq![octal_digit((rest % 8) as nat)]
                + tail);
            let head = octal_digits((rest / 8) as nat, i as nat);
            assert(octal_digits(rest as nat, (i + 1) as nat) == head.push(
                octal_digit((rest % 8) as nat),
            ));
            assert(head.push(octal_digit((rest % 8) as nat)) + tail =~= head + field@.subrange(
                i as int,
                n - 1,
            ));
        }
        rest = rest / 8;
    }
    proof {
        assert(field@.subrange(0, n - 1) =~= octal_digits(value as nat, w));
        assert(field@ =~= octal_field(value as nat, n as nat));
    }
}

/// Whether a byte is a digit in base eight.
pub open spec fn is_octal(b: u8) -> bool {
    0x30 <= b && b <= 0x37
}

/// The number that digits in base eight spell.
pub open spec fn octal_number(s: Seq<u8>) -> nat
    decreases s.len(),
{
    if s.len() == 0 {
        0
    } else {
        8 * octal_number(s.drop_last()) + (s.last() - 0x30) as nat
    }
}

/// A field without its leading spaces.
pub open spec fn without_spaces(s: Seq<u8>) -> Seq<u8>
    decreases s.len(),
{
    if s.len() > 0 && s[0] == 0x20u8 {
        without_spaces(s.drop_first())
    } else {
        s
    }
}

/// What stands before the first NUL or space.
pub open spec fn up_to_end(s: Seq<u8>) -> Seq<u8>
    decreases s.len(),
{
    if s.len() == 0 || s[0] == 0u8 || s[0] == 0x20u8 {
        Seq::empty()
    } else {
        seq![s[0]] + up_to_end(s.drop_first())
    }
}

/// The digits of a number that may have a plus sign.
pub open spec fn without_plus(s: Seq<u8>) -> Seq<u8> {
    if s.len() > 0 && s[0] == 0x2bu8 {
        s.drop_first()
    } else {
        s
    }
}

/// Whether a byte string is made of digits in base eight.
pub open spec fn all_octal(s: Seq<u8>) -> bool {
    forall|i: int| 0 <= i < s.len() ==> is_octal(#[trigger] s[i])
}

/// The number that a field spells: leading spaces do not count, and a
/// NUL or a space ends it. Nothing where there are no digits, where
/// something else stands among them, or where the number is too large.
pub open spec fn octal_of(field: Seq<u8>) -> Option<u64> {
    let d = without_plus(up_to_end(without_spaces(field)));
    if d.len() > 0 && all_octal(d) && octal_number(d) <= u64::MAX {
        Some(octal_number(d) as u64)
    } else {
        None
    }
}

proof fn up_to_end_is(s: Seq<u8>, n: int)
    requires
        0 <= n <= s.len(),
        forall|i: int| 0 <= i < n ==> s[i] != 0u8 && #[trigger] s[i] != 0x20u8,
        n < s.len() ==> s[n] == 0u8 || s[n] == 0x20u8,
    ensures
        up_to_end(s) == s.take(n),
    decreases s.len(),
{
    if n == 0 {
        assert(s.take(0) =~= Seq::<u8>::empty());
    } else {
        let rest = s.drop_first();
        assert forall|i: int| 0 <= i < n - 1 implies rest[i] != 0u8 && #[trigger] rest[i]
            != 0x20u8 by {
            assert(rest[i] == s[i + 1]);
        }
        assert(n < s.len() ==> rest[n - 1] == s[n]);
        assert(s[0] != 0x20u8);
        up_to_end_is(rest, n - 1);
        assert(seq![s[0]] + rest.take(n - 1) =~= s.take(n));
    }
}

proof fn without_spaces_is(s: Seq<u8>, n: int)
    requires
        0 <= n <= s.len(),
        forall|i: int| 0 <= i < n ==> #[trigger] s[i] == 0x20u8,
        n < s.len() ==> s[n] != 0x20u8,
    ensures
        without_spaces(s) == s.skip(n),
    decreases s.len(),
{
    if n == 0 {
        assert(s.skip(0) =~= s);
    } else {
        let rest = s.drop_first();
        assert forall|i: int| 0 <= i < n - 1 implies #[trigger] rest[i] == 0x20u8 by {
            assert(rest[i] == s[i + 1]);
        }
        assert(n < s.len() ==> rest[n - 1] == s[n]);
        assert(s[0] == 0x20u8);
        without_spaces_is(rest, n - 1);
        assert(rest.skip(n - 1) =~= s.skip(n));
    }
}

proof fn octal_number_grows(s: Seq<u8>, n: int)
    requires
        0 <= n <= s.len(),
    ensures
        octal_number(s.take(n)) <= octal_number(s),
    decreases s.len() - n,
{
    if n < s.len() {
        assert(s.take(n + 1).drop_last() =~= s.take(n));
        octal_number_grows(s, n + 1);
    } else {
        assert(s.take(n) =~= s);
    }
}

/// Reads a number field.
pub fn parse_octal(field: &[u8]) -> (r: Option<u64>)
    ensures
        r == octal_of(field@),
{
    let n = field.len();
    let mut start: usize = 0;
    while start < n && field[start] == 0x20
        invariant
            start <= n == field@.len(),
            forall|i: int| 0 <= i < start ==> #[trigger] field@[i] == 0x20u8,
        decreases n - start,
    {
        start += 1;
    }
    let mut end: usize = start;
    while end < n && field[end] != 0 && field[end] != 0x20
        invariant
            start <= end <= n == field@.len(),
            forall|i: int|
                start <= i < end ==> field@[i] != 0u8 && #[trigger] field@[i] != 0x20u8,
        decreases n - end,
    {
        end += 1;
    }
    let ghost text = field@.subrange(start as int, end as int);
    proof {
        without_spaces_is(field@, start as int);
        let rest = field@.skip(start as int);
        assert forall|i: int| 0 <= i < end - start implies rest[i] != 0u8 && #[trigger] rest[i]
            != 0x20u8 by {
            assert(rest[i] == field@[start + i]);
        }
        assert(end < n ==> rest[end - start] == field@[end as int]);
        up_to_end_is(rest, end - start);
        assert(rest.take(end - start) =~= text);
    }
    let mut from: usize = start;
    if start < end && field[start] == 0x2b {
        from = start + 1;
    }
    let ghost d = field@.subrange(from as int, end as int);
    proof {
        if start < end {
            assert(text[0] == field@[start as int]);
        }
        assert(d =~= without_plus(text));
    }
    if from >= end {
        return None;
    }
    let mut value: u64 = 0;
    let mut i: usize = from;
    assert(d.take(0) =~= Seq::<u8>::empty());
    while i < end
        invariant
            from <= i <= end <= n == field@.len(),
            d == field@.subrange(from as int, end as int),
            d == without_plus(up_to_end(without_spaces(field@))),
            forall|j: int| 0 <= j < i - from ==> is_octal(#[trigger] d[j]),
            value == octal_number(d.take(i - from)),
        decreases end - i,
    {
        let b = field[i];
        assert(d[i - from] == b);
        if b < 0x30 || b > 0x37 {
            assert(!is_octal(d[i - from]));
            return None;
        }
        proof {
            assert(d.take(i - from + 1).drop_last() =~= d.take(i - from));
            octal_number_grows(d, i - from + 1);
        }
        if value > (u64::MAX - (b - 0x30) as u64) / 8 {
            assert(octal_number(d) > u64::MAX);
            return None;
        }
        value = value * 8 + (b - 0x30) as u64;
        i += 1;
    }
    assert(d.take(d.len() as int) =~= d);
    Some(value)
}

proof fn octal_digits_spell(n: nat, width: nat)
    requires
        n < pow8(width),
    ensures
        octal_digits(n, width).len() == width,
        all_octal(octal_digits(n, width)),
        octal_number(octal_digits(n, width)) == n,
    decreases width,
{
    if width > 0 {
        octal_digits_spell(n / 8, (width - 1) as nat);
        let d = octal_digits(n, width);
        let rest = octal_digits(n / 8, (width - 1) as nat);
        assert(d.drop_last() =~= rest);
        assert forall|i: int| 0 <= i < d.len() implies is_octal(#[trigger] d[i]) by {
            if i < rest.len() {
                assert(d[i] == rest[i]);
            }
        }
    }
}

/// A number reads back from its field.
pub proof fn octal_reads_back(n: u64, width: nat)
    requires
        width > 1,
        n < pow8((width - 1) as nat),
    ensures
        octal_of(octal_field(n as nat, width)) == Some(n),
{
    let f = octal_field(n as nat, width);
    let d = octal_digits(n as nat, (width - 1) as nat);
    octal_digits_spell(n as nat, (width - 1) as nat);
    assert(is_octal(d[0]));
    assert(f[0] == d[0]);
    without_spaces_is(f, 0);
    assert(f.skip(0) =~= f);
    assert forall|i: int| 0 <= i < width - 1 implies f[i] != 0u8 && #[trigger] f[i] != 0x20u8 by {
        assert(f[i] == d[i]);
        assert(is_octal(d[i]));
    }
    up_to_end_is(f, width - 1);
    assert(f.take(width - 1) =~= d);
}

/// So many zero bytes.
pub open spec fn zero_bytes(n: nat) -> Seq<u8> {
    Seq::new(n, |i: int| 0u8)
}

/// Appends zero bytes.
pub fn push_zeros(out: &mut Vec<u8>, n: usize)
    ensures
        final(out)@ == old(out)@ + zero_bytes(n as nat),
{
    let ghost start = out@;
    let mut i: usize = 0;
    assert(start =~= start + zero_bytes(0));
    while i < n
        invariant
            i <= n,
            start == old(out)@,
            out@ == start + zero_bytes(i as nat),
        decreases n - i,
    {
        out.push(0);
        i += 1;
        assert(out@ =~= start + zero_bytes(i as nat));
    }
}

/// The sum of some bytes.
pub open spec fn byte_sum(s: Seq<u8>) -> nat
    decreases s.len(),
{
    if s.len() == 0 {
        0
    } else {
        byte_sum(s.drop_last()) + s.last() as nat
    }
}

proof fn byte_sum_is_small(s: Seq<u8>)
    ensures
        byte_sum(s) <= 255 * s.len(),
    decreases s.len(),
{
    if s.len() > 0 {
        byte_sum_is_small(s.drop_last());
    }
}

fn sum_bytes(bytes: &Vec<u8>) -> (r: u64)
    requires
        bytes@.len() == BLOCK,
    ensures
        r == byte_sum(bytes@),
        r <= 255 * BLOCK,
{
    let mut sum: u64 = 0;
    let mut i: usize = 0;
    assert(bytes@.take(0) =~= Seq::<u8>::empty());
    while i < bytes.len()
        invariant
            i <= bytes@.len() == BLOCK,
            sum == byte_sum(bytes@.take(i as int)),
            sum <= 255 * i,
        decreases bytes@.len() - i,
    {
        assert(bytes@.take(i + 1).drop_last() =~= bytes@.take(i as int));
        sum += bytes[i] as u64;
        i += 1;
    }
    assert(bytes@.take(bytes@.len() as int) =~= bytes@);
    sum
}

/// The smaller of two sizes.
pub open spec fn at_most(size: u64, max: u64) -> u64 {
    if size <= max {
        size
    } else {
        max
    }
}

/// A header up to the checksum.
pub open spec fn header_front(name: Seq<u8>, size: u64) -> Seq<u8> {
    name + zero_bytes((100 - name.len()) as nat) + octal_field(0o644, 8) + octal_field(0, 8)
        + octal_field(0, 8) + octal_field(at_most(size, USTAR_MAX) as nat, 12) + octal_field(0, 12)
}

/// The magic of the format, with its version.
pub open spec fn magic() -> Seq<u8> {
    seq![0x75u8, 0x73u8, 0x74u8, 0x61u8, 0x72u8, 0u8, 0x30u8, 0x30u8]
}

/// A header behind the checksum.
pub open spec fn header_back(typeflag: u8) -> Seq<u8> {
    seq![typeflag] + zero_bytes(100) + magic() + zero_bytes(247)
}

/// So many spaces.
pub open spec fn spaces(n: nat) -> Seq<u8> {
    Seq::new(n, |i: int| 0x20u8)
}

/// The checksum of a header: the sum of its bytes, with spaces where the
/// checksum stands.
pub open spec fn header_sum(name: Seq<u8>, size: u64, typeflag: u8) -> nat {
    byte_sum(header_front(name, size) + spaces(8) + header_back(typeflag))
}

/// The checksum field: six digits, a NUL and a space.
pub open spec fn checksum_field(sum: nat) -> Seq<u8> {
    octal_digits(sum, 6).push(0u8).push(0x20u8)
}

/// A header block. Its metadata is fixed, so one blob has one header.
pub open spec fn header_bytes(name: Seq<u8>, size: u64, typeflag: u8) -> Seq<u8> {
    header_front(name, size) + checksum_field(header_sum(name, size, typeflag)) + header_back(
        typeflag,
    )
}

proof fn header_lens(name: Seq<u8>, size: u64, typeflag: u8)
    requires
        name.len() <= 100,
    ensures
        header_front(name, size).len() == 148,
        header_back(typeflag).len() == 356,
        checksum_field(header_sum(name, size, typeflag)).len() == 8,
        header_bytes(name, size, typeflag).len() == BLOCK,
        header_sum(name, size, typeflag) < pow8(6),
        at_most(size, USTAR_MAX) < pow8(11),
{
    reveal_with_fuel(pow8, 12);
    octal_digits_len(0o644, 7);
    octal_digits_len(0, 7);
    octal_digits_len(at_most(size, USTAR_MAX) as nat, 11);
    octal_digits_len(0, 11);
    octal_digits_len(header_sum(name, size, typeflag), 6);
    byte_sum_is_small(header_front(name, size) + spaces(8) + header_back(typeflag));
}

fn push_octal(out: &mut Vec<u8>, value: u64, width: usize)
    requires
        0 < width <= 12,
        value < pow8((width - 1) as nat),
    ensures
        final(out)@ == old(out)@ + octal_field(value as nat, width as nat),
{
    let ghost start = out@;
    push_zeros(out, width);
    let mut i: usize = width - 1;
    let mut rest = value;
    let ghost w = (width - 1) as nat;
    let ghost base = start.len() as int;
    proof {
        octal_digits_len(value as nat, w);
    }
    let at = out.len() - width;
    while i > 0
        invariant
            0 <= i < width,
            w == width - 1,
            start == old(out)@,
            base == start.len(),
            at == base,
            out@.len() == base + width,
            at + width <= usize::MAX,
            out@.take(base) == start,
            octal_digits(value as nat, w).len() == w,
            octal_digits(value as nat, w) == octal_digits(rest as nat, i as nat) + out@.subrange(
                base + i,
                base + w,
            ),
            out@[base + w] == 0u8,
        decreases i,
    {
        let ghost before = out@;
        let d: u8 = (rest % 8) as u8;
        i -= 1;
        out.set(at + i, 0x30 + d);
        proof {
            let tail = before.subrange(base + i + 1, base + w);
            assert(out@.take(base) =~= start);
            assert(out@.subrange(base + i, base + w) =~= seq![octal_digit((rest % 8) as nat)]
                + tail);
            let head = octal_digits((rest / 8) as nat, i as nat);
            assert(octal_digits(rest as nat, (i + 1) as nat) == head.push(
                octal_digit((rest % 8) as nat),
            ));
            assert(head.push(octal_digit((rest % 8) as nat)) + tail =~= head + out@.subrange(
                base + i,
                base + w,
            ));
        }
        rest = rest / 8;
    }
    proof {
        assert(out@.subrange(base, base + w) =~= octal_digits(value as nat, w));
        assert(out@ =~= start + octal_field(value as nat, width as nat));
    }
}


fn push_spaces(out: &mut Vec<u8>)
    ensures
        final(out)@ == old(out)@ + spaces(8),
{
    let ghost start = out@;
    let mut i: usize = 0;
    assert(start =~= start + spaces(0));
    while i < 8
        invariant
            i <= 8,
            start == old(out)@,
            out@ == start + spaces(i as nat),
        decreases 8 - i,
    {
        out.push(0x20);
        i += 1;
        assert(out@ =~= start + spaces(i as nat));
    }
}

fn push_front(out: &mut Vec<u8>, name: &str, size: u64)
    requires
        encode_utf8(name@).len() <= 100,
    ensures
        final(out)@ == old(out)@ + header_front(encode_utf8(name@), size),
{
    let ghost start = out@;
    let ghost bytes = encode_utf8(name@);
    proof {
        reveal_with_fuel(pow8, 12);
    }
    let n = name.as_bytes();
    push_bytes(out, n);
    push_zeros(out, 100 - n.len());
    push_octal(out, 0o644, 8);
    push_octal(out, 0, 8);
    push_octal(out, 0, 8);
    let clamped = if size <= USTAR_MAX {
        size
    } else {
        USTAR_MAX
    };
    push_octal(out, clamped, 12);
    push_octal(out, 0, 12);
    assert(out@ =~= start + header_front(bytes, size));
}

fn push_back(out: &mut Vec<u8>, typeflag: u8)
    ensures
        final(out)@ == old(out)@ + header_back(typeflag),
{
    let ghost start = out@;
    out.push(typeflag);
    push_zeros(out, 100);
    out.push(0x75);
    out.push(0x73);
    out.push(0x74);
    out.push(0x61);
    out.push(0x72);
    out.push(0);
    out.push(0x30);
    out.push(0x30);
    push_zeros(out, 247);
    assert(out@ =~= start + header_back(typeflag));
}

/// The header block of an entry. A size beyond what the field can spell
/// is clamped.
pub fn header(name: &str, size: u64, typeflag: u8) -> (r: Vec<u8>)
    requires
        encode_utf8(name@).len() <= 100,
    ensures
        r@ == header_bytes(encode_utf8(name@), size, typeflag),
        r@.len() == BLOCK,
{
    let ghost bytes = encode_utf8(name@);
    proof {
        header_lens(bytes, size, typeflag);
    }
    let mut blank: Vec<u8> = Vec::new();
    push_front(&mut blank, name, size);
    push_spaces(&mut blank);
    push_back(&mut blank, typeflag);
    assert(blank@ =~= header_front(bytes, size) + spaces(8) + header_back(typeflag));
    let sum = sum_bytes(&blank);
    let mut out: Vec<u8> = Vec::new();
    push_front(&mut out, name, size);
    proof {
        reveal_with_fuel(pow8, 7);
    }
    push_octal(&mut out, sum, 7);
    out.push(0x20);
    push_back(&mut out, typeflag);
    assert(out@ =~= header_bytes(bytes, size, typeflag));
    out
}

/// The characters that bytes stand for one by one, each as the code
/// point of its number.
pub open spec fn bytes_as_chars(s: Seq<u8>) -> Seq<char> {
    Seq::new(s.len(), |i: int| s[i] as char)
}

/// What stands before the first NUL.
pub open spec fn up_to_nul(s: Seq<u8>) -> Seq<u8>
    decreases s.len(),
{
    if s.len() == 0 || s[0] == 0u8 {
        Seq::empty()
    } else {
        seq![s[0]] + up_to_nul(s.drop_first())
    }
}

/// The name field of a header.
pub open spec fn name_of(block: Seq<u8>) -> Seq<char> {
    bytes_as_chars(up_to_nul(block.take(100)))
}

proof fn up_to_nul_is(s: Seq<u8>, n: int)
    requires
        0 <= n <= s.len(),
        forall|i: int| 0 <= i < n ==> #[trigger] s[i] != 0u8,
        n < s.len() ==> s[n] == 0u8,
    ensures
        up_to_nul(s) == s.take(n),
    decreases s.len(),
{
    if n == 0 {
        assert(s.take(0) =~= Seq::<u8>::empty());
    } else {
        let rest = s.drop_first();
        assert forall|i: int| 0 <= i < n - 1 implies #[trigger] rest[i] != 0u8 by {
            assert(rest[i] == s[i + 1]);
        }
        assert(n < s.len() ==> rest[n - 1] == s[n]);
        assert(s[0] != 0u8);
        up_to_nul_is(rest, n - 1);
        assert(seq![s[0]] + rest.take(n - 1) =~= s.take(n));
    }
}

/// Reads the name field of a header; nothing where it is empty.
pub fn parse_name(block: &[u8]) -> (r: Option<String>)
    requires
        block@.len() == BLOCK,
    ensures
        match r {
            Some(name) => name@ == name_of(block@) && name@.len() > 0,
            None => name_of(block@).len() == 0,
        },
{
    let mut name: Vec<char> = Vec::new();
    let ghost field = block@.take(100);
    let mut i: usize = 0;
    while i < 100 && block[i] != 0
        invariant
            i <= 100,
            block@.len() == BLOCK,
            field == block@.take(100),
            forall|j: int| 0 <= j < i ==> #[trigger] field[j] != 0u8,
            name@ == bytes_as_chars(field.take(i as int)),
        decreases 100 - i,
    {
        name.push(block[i] as char);
        i += 1;
        assert(name@ =~= bytes_as_chars(field.take(i as int)));
    }
    proof {
        up_to_nul_is(field, i as int);
    }
    if name.len() == 0 {
        None
    } else {
        Some(text_of(&name))
    }
}


/// A block of zeros ends an archive.
pub open spec fn is_end(block: Seq<u8>) -> bool {
    forall|i: int| 0 <= i < block.len() ==> #[trigger] block[i] == 0u8
}

/// A header reads back: its name, its size as far as the field can spell
/// it, its kind, and the checksum that its bytes sum up to with spaces
/// in the checksum's place. No header ends an archive.
pub proof fn header_reads_back(name: Seq<char>, size: u64, typeflag: u8)
    requires
        is_ascii_chars(name),
        0 < name.len() <= 100,
        !name.contains('\0'),
    ensures
        ({
            let h = header_bytes(encode_utf8(name), size, typeflag);
            &&& h.len() == BLOCK
            &&& name_of(h) == name
            &&& octal_of(h.subrange(124, 136)) == Some(at_most(size, USTAR_MAX))
            &&& h[156] == typeflag
            &&& octal_of(h.subrange(148, 156)) == Some(
                byte_sum(h.take(148) + spaces(8) + h.skip(156)) as u64,
            )
            &&& !is_end(h)
        }),
{
    let bytes = encode_utf8(name);
    is_ascii_chars_encode_utf8(name);
    let h = header_bytes(bytes, size, typeflag);
    header_lens(bytes, size, typeflag);
    let front = header_front(bytes, size);
    let back = header_back(typeflag);
    let sum = header_sum(bytes, size, typeflag);
    octal_digits_len(0o644, 7);
    octal_digits_len(0, 7);
    octal_digits_len(at_most(size, USTAR_MAX) as nat, 11);
    octal_digits_len(0, 11);
    octal_digits_len(sum, 6);
    // the name
    let field = h.take(100);
    let n = name.len() as int;
    assert forall|i: int| 0 <= i < n implies #[trigger] field[i] != 0u8 && field[i] as char
        == name[i] by {
        assert(field[i] == bytes[i]);
        assert(name[i] as u8 == bytes[i]);
        assert(name.contains(name[i]));
        assert((name[i] as nat) < 128);
    }
    assert(n < field.len() ==> field[n] == 0u8);
    up_to_nul_is(field, n);
    assert(name_of(h) =~= name);
    assert(field[0] != 0u8);
    assert(h[0] == field[0]);
    // the size
    assert(h.subrange(124, 136) =~= octal_field(at_most(size, USTAR_MAX) as nat, 12));
    octal_reads_back(at_most(size, USTAR_MAX), 12);
    // the checksum
    assert(h.take(148) =~= front);
    assert(h.skip(156) =~= back);
    let c = h.subrange(148, 156);
    assert(c =~= checksum_field(sum));
    reveal_with_fuel(pow8, 7);
    octal_digits_spell(sum, 6);
    let d = octal_digits(sum, 6);
    assert(is_octal(d[0]));
    assert(c[0] == d[0]);
    without_spaces_is(c, 0);
    assert(c.skip(0) =~= c);
    assert forall|i: int| 0 <= i < 6 implies c[i] != 0u8 && #[trigger] c[i] != 0x20u8 by {
        assert(c[i] == d[i]);
        assert(is_octal(d[i]));
    }
    up_to_end_is(c, 6);
    assert(c.take(6) =~= d);
}

/// How many zero bytes follow contents of a given size.
pub open spec fn padding_len(size: nat) -> nat {
    if size % 512 == 0 {
        0
    } else {
        (512 - size % 512) as nat
    }
}

/// How many zero bytes follow contents of a given size, so that the next
/// header starts at a block.
pub fn padding(size: u64) -> (r: usize)
    ensures
        r == padding_len(size as nat),
        r < BLOCK,
        (size + r) % 512 == 0,
{
    let rem = (size % 512) as usize;
    if rem == 0 {
        0
    } else {
        BLOCK - rem
    }
}

/// The name of a blob's entry: the algorithm as a directory, and the
/// digest.
pub open spec fn entry_name_of(digest: Seq<u8>) -> Seq<char> {
    "sha256/"@ + text::hex(digest)
}

/// The name of a blob's entry.
pub fn entry_name(hash: &ContentHash) -> (r: String)
    ensures
        r@ == entry_name_of(hash@),
{
    let mut v: Vec<char> = Vec::new();
    push_text(&mut v, "sha256/");
    push_hex(&mut v, hash.digest.as_slice());
    assert(v@ =~= entry_name_of(hash@));
    text_of(&v)
}

/// The name of the entry that carries the size of a large blob.
pub open spec fn pax_name_of(digest: Seq<u8>) -> Seq<char> {
    "PaxHeaders/"@ + text::hex(digest)
}

pub fn pax_name(hash: &ContentHash) -> (r: String)
    ensures
        r@ == pax_name_of(hash@),
{
    let mut v: Vec<char> = Vec::new();
    push_text(&mut v, "PaxHeaders/");
    push_hex(&mut v, hash.digest.as_slice());
    assert(v@ =~= pax_name_of(hash@));
    text_of(&v)
}

/// The length of a record whose parts other than the length have `base`
/// bytes.
pub open spec fn pax_len(base: nat) -> nat {
    let len = base + text::digits(base).len();
    if text::digits(len).len() + base != len {
        base + text::digits(len).len()
    } else {
        len
    }
}

proof fn digits_bound(n: nat)
    ensures
        text::digits(n).len() >= 1,
        n < decimal::pow10(text::digits(n).len()),
        n > 0 ==> decimal::pow10((text::digits(n).len() - 1) as nat) <= n,
        text::digits(n).len() <= decimal::pow10(text::digits(n).len()),
    decreases n,
{
    reveal_with_fuel(decimal::pow10, 3);
    if n >= 10 {
        digits_bound(n / 10);
    }
}

proof fn digits_between(n: nat, k: nat)
    requires
        n < decimal::pow10(k),
        k >= 1,
        n >= decimal::pow10((k - 1) as nat) || k == 1,
    ensures
        text::digits(n).len() == k,
    decreases n,
{
    reveal_with_fuel(decimal::pow10, 3);
    if n >= 10 {
        if k == 1 {
            assert(decimal::pow10(1) == 10);
        } else {
            assert(decimal::pow10(k) == 10 * decimal::pow10((k - 1) as nat));
            if k > 2 {
                assert(decimal::pow10((k - 1) as nat) == 10 * decimal::pow10((k - 2) as nat));
            }
            digits_between(n / 10, (k - 1) as nat);
        }
    } else if k > 1 {
        decimal::pow10_positive((k - 2) as nat);
        assert(decimal::pow10((k - 1) as nat) == 10 * decimal::pow10((k - 2) as nat));
    }
}

/// A record's length counts the whole record, the length's own digits
/// among it.
pub proof fn pax_len_counts_itself(base: nat)
    ensures
        pax_len(base) == base + text::digits(pax_len(base)).len(),
{
    let d = text::digits(base).len();
    digits_bound(base);
    let len = base + d;
    let top = decimal::pow10(d);
    assert(decimal::pow10(d + 1) == 10 * top);
    if text::digits(len).len() + base != len {
        if len < top {
            decimal::pow10_positive((d - 1) as nat);
            if base > 0 {
                digits_between(len, d);
            } else {
                reveal_with_fuel(decimal::pow10, 3);
            }
        }
        digits_between(len, d + 1);
        digits_between(len + 1, d + 1);
    }
}

/// A record: its length, its key and its value.
pub open spec fn pax_text(key: Seq<char>, value: Seq<char>) -> Seq<char> {
    let base = encode_utf8(key).len() + encode_utf8(value).len() + 3;
    text::digits(pax_len(base)) + seq![' '] + key + seq!['='] + value + seq!['\n']
}

proof fn encode_concat(a: Seq<char>, b: Seq<char>)
    ensures
        encode_utf8(a + b) == encode_utf8(a) + encode_utf8(b),
    decreases a.len(),
{
    if a.len() == 0 {
        assert(a + b =~= b);
        assert(encode_utf8(a) + encode_utf8(b) =~= encode_utf8(b));
    } else {
        encode_concat(a.drop_first(), b);
        assert((a + b).drop_first() =~= a.drop_first() + b);
        assert(encode_utf8(a + b) =~= encode_utf8(a) + encode_utf8(b));
    }
}

proof fn encode_ascii(s: Seq<char>)
    requires
        is_ascii_chars(s),
    ensures
        encode_utf8(s).len() == s.len(),
{
    is_ascii_chars_encode_utf8(s);
}

pub proof fn digits_are_ascii(n: nat)
    ensures
        is_ascii_chars(text::digits(n)),
{
    text::digits_spell(n);
    let s = text::digits(n);
    assert forall|i: int| 0 <= i < s.len() implies '\0' <= #[trigger] s[i] <= '\u{7f}' by {
        assert(text::is_digit(s[i]));
    }
}

/// The length that a record gives is the number of its bytes.
pub proof fn pax_length_is_its_own_fixed_point(key: Seq<char>, value: Seq<char>)
    ensures
        encode_utf8(pax_text(key, value)).len() == pax_len(
            encode_utf8(key).len() + encode_utf8(value).len() + 3,
        ),
{
    let base = encode_utf8(key).len() + encode_utf8(value).len() + 3;
    pax_len_counts_itself(base);
    let d = text::digits(pax_len(base));
    digits_are_ascii(pax_len(base));
    encode_ascii(d);
    encode_ascii(seq![' ']);
    encode_ascii(seq!['=']);
    encode_ascii(seq!['\n']);
    encode_concat(d, seq![' ']);
    encode_concat(d + seq![' '], key);
    encode_concat(d + seq![' '] + key, seq!['=']);
    encode_concat(d + seq![' '] + key + seq!['='], value);
    encode_concat(d + seq![' '] + key + seq!['='] + value, seq!['\n']);
}

fn digit_count(n: u128) -> (r: usize)
    ensures
        r == text::digits(n as nat).len(),
{
    digits_text(n).len()
}

/// A record of an extended header: its own length, a key and a value.
pub fn pax_record(key: &str, value: &str) -> (r: String)
    ensures
        r@ == pax_text(key@, value@),
        encode_utf8(r@).len() == pax_len(encode_utf8(key@).len() + encode_utf8(value@).len() + 3),
{
    proof {
        pax_length_is_its_own_fixed_point(key@, value@);
    }
    let base: u128 = key.as_bytes().len() as u128 + value.as_bytes().len() as u128 + 3;
    let mut len: u128 = base + digit_count(base) as u128;
    if digit_count(len) as u128 + base != len {
        len = base + digit_count(len) as u128;
    }
    let mut v: Vec<char> = digits_text(len);
    v.push(' ');
    push_text(&mut v, key);
    v.push('=');
    push_text(&mut v, value);
    v.push('\n');
    assert(v@ =~= pax_text(key@, value@));
    text_of(&v)
}

} // verus!
