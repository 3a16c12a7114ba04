//! Calendar dates and RFC 3339 instants.

use vstd::prelude::*;
use crate::order;
use crate::text;
use crate::decimal::{PrimitiveError, PrimitiveErrorModel};
use crate::order::{Modeled, Order};
use crate::text::{chars_of, digit_of, is_digit_char, push_text, text_of};

verus! {

/// The last year of the range that dates and instants share. Every date
/// up to its end has a midnight that the clock can represent, and every
/// instant in it has a date.
pub const MAX_YEAR: u16 = 9998;

/// A day of the proleptic Gregorian calendar.
pub struct DateModel {
    pub year: nat,
    pub month: nat,
    pub day: nat,
}

pub open spec fn is_leap(year: nat) -> bool {
    (year % 4 == 0 && year % 100 != 0) || year % 400 == 0
}

pub open spec fn days_in_month(year: nat, month: nat) -> nat {
    if month == 2 {
        if is_leap(year) {
            29
        } else {
            28
        }
    } else if month == 4 || month == 6 || month == 9 || month == 11 {
        30
    } else {
        31
    }
}

impl DateModel {
    pub open spec fn valid(self) -> bool {
        1 <= self.month <= 12 && 1 <= self.day <= days_in_month(self.year, self.month)
    }

    /// `YYYY-MM-DD`.
    pub open spec fn text(self) -> Seq<char> {
        padded(self.year, 4) + seq!['-'] + padded(self.month, 2) + seq!['-'] + padded(self.day, 2)
    }
}

/// The last `width` digits of a number, with leading zeros.
pub open spec fn padded(n: nat, width: nat) -> Seq<char>
    decreases width,
{
    if width == 0 {
        Seq::empty()
    } else {
        padded(n / 10, (width - 1) as nat).push(text::digit_char(n % 10))
    }
}

/// The calendar day that a text of the form `YYYY-MM-DD` names.
pub open spec fn iso_date(s: Seq<char>) -> Option<DateModel> {
    let d = DateModel {
        year: text::decimal_value(s.subrange(0, 4)),
        month: text::decimal_value(s.subrange(5, 7)),
        day: text::decimal_value(s.subrange(8, 10)),
    };
    if s.len() == 10 && text::all_digits(s.subrange(0, 4)) && s[4] == '-' && text::all_digits(s.subrange(5, 7))
        && s[7] == '-' && text::all_digits(s.subrange(8, 10)) && d.valid() {
        Some(d)
    } else {
        None
    }
}

proof fn padded_spells(n: nat, width: nat)
    ensures
        padded(n, width).len() == width,
        text::all_digits(padded(n, width)),
        width == 2 && n < 100 ==> text::decimal_value(padded(n, width)) == n,
        width == 4 && n < 10000 ==> text::decimal_value(padded(n, width)) == n,
    decreases width,
{
    reveal_with_fuel(padded, 5);
    reveal_with_fuel(text::decimal_value, 5);
    if width > 0 {
        padded_spells(n / 10, (width - 1) as nat);
        assert(padded(n, width).drop_last() =~= padded(n / 10, (width - 1) as nat));
        if width == 2 || width == 4 {
            padded_value(n, width);
        }
    }
}

proof fn padded_value(n: nat, width: nat)
    requires
        width <= 4,
    ensures
        width == 0 ==> text::decimal_value(padded(n, width)) == 0,
        width == 1 ==> text::decimal_value(padded(n, width)) == n % 10,
        width == 2 ==> text::decimal_value(padded(n, width)) == n % 100,
        width == 3 ==> text::decimal_value(padded(n, width)) == n % 1000,
        width == 4 ==> text::decimal_value(padded(n, width)) == n % 10000,
    decreases width,
{
    if width > 0 {
        padded_value(n / 10, (width - 1) as nat);
        assert(padded(n, width).drop_last() =~= padded(n / 10, (width - 1) as nat));
        assert(text::digit_value(text::digit_char(n % 10)) == n % 10);
    }
}

/// Reading back the text of a date gives that date.
pub proof fn date_text_reads_back(d: DateModel)
    requires
        d.valid(),
        d.year < 10000,
    ensures
        iso_date(d.text()) == Some(d),
{
    padded_spells(d.year, 4);
    padded_spells(d.month, 2);
    padded_spells(d.day, 2);
    let s = d.text();
    assert(s.subrange(0, 4) =~= padded(d.year, 4));
    assert(s.subrange(5, 7) =~= padded(d.month, 2));
    assert(s.subrange(8, 10) =~= padded(d.day, 2));
}

proof fn digits_are_padded(s: Seq<char>)
    requires
        text::all_digits(s),
    ensures
        padded(text::decimal_value(s), s.len()) == s,
    decreases s.len(),
{
    if s.len() > 0 {
        let rest = s.drop_last();
        assert forall|i: int| 0 <= i < rest.len() implies text::is_digit(#[trigger] rest[i]) by {
            assert(rest[i] == s[i]);
        }
        digits_are_padded(rest);
        assert(text::is_digit(s[s.len() - 1]));
        assert(text::decimal_value(s) / 10 == text::decimal_value(rest));
        assert(text::decimal_value(s) % 10 == text::digit_value(s.last()));
        assert(text::digit_char(text::digit_value(s.last())) == s.last());
        assert(rest.push(s.last()) =~= s);
    } else {
        assert(padded(0, 0) =~= s);
    }
}

/// A text that names a day is the text of that day.
pub proof fn parsed_date_is_its_text(s: Seq<char>)
    ensures
        iso_date(s) matches Some(d) ==> d.text() == s,
{
    if iso_date(s) is Some {
        digits_are_padded(s.subrange(0, 4));
        digits_are_padded(s.subrange(5, 7));
        digits_are_padded(s.subrange(8, 10));
        assert((iso_date(s)->0).text() =~= s);
    }
}

/// `jiff::civil::Date::from_str` on a text of ten bytes: the parser takes
/// an optional sign with six year digits, or four, then month and day,
/// with hyphens or without; of ten bytes only `YYYY-MM-DD` is read to its
/// end, and the day must exist in the calendar.
#[verifier::external_body]
fn jiff_date(s: &str) -> (r: Option<(i16, i8, i8)>)
    requires
        vstd::utf8::encode_utf8(s@).len() == 10,
    ensures
        match r {
            Some((y, m, d)) => y >= 0 && m >= 0 && d >= 0 && iso_date(s@) == Some(
                DateModel { year: y as nat, month: m as nat, day: d as nat },
            ),
            None => iso_date(s@) is None,
        },
{
    let parsed: Result<jiff::civil::Date, jiff::Error> = s.parse();
    match parsed {
        Ok(d) => Some((d.year(), d.month(), d.day())),
        Err(_) => None,
    }
}

/// A calendar date.
#[derive(Clone, Copy, Debug, PartialEq, Eq, PartialOrd, Ord, Hash)]
pub struct Date {
    year: u16,
    month: u8,
    day: u8,
}

impl DeepView for Date {
    type V = DateModel;

    closed spec fn deep_view(&self) -> DateModel {
        DateModel { year: self.year as nat, month: self.month as nat, day: self.day as nat }
    }
}

impl View for Date {
    type V = DateModel;

    open spec fn view(&self) -> DateModel {
        self.deep_view()
    }
}

impl Modeled for Date {
    fn dup(&self) -> (r: Self) {
        *self
    }

    fn same(&self, other: &Self) -> (b: bool) {
        self.year == other.year && self.month == other.month && self.day == other.day
    }
}

/// What [`Date::parse`] gives.
pub open spec fn parsed_date(s: Seq<char>) -> Result<DateModel, PrimitiveErrorModel> {
    match iso_date(s) {
        Some(d) if d.year <= MAX_YEAR => Ok(d),
        _ => Err(PrimitiveErrorModel::Malformed("expected YYYY-MM-DD"@)),
    }
}

pub open spec fn date_order(a: DateModel, b: DateModel) -> Order {
    if a.year != b.year {
        number_order(a.year as int, b.year as int)
    } else if a.month != b.month {
        number_order(a.month as int, b.month as int)
    } else {
        number_order(a.day as int, b.day as int)
    }
}

pub open spec fn number_order(a: int, b: int) -> Order {
    if a < b {
        Order::Less
    } else if a == b {
        Order::Equal
    } else {
        Order::Greater
    }
}

impl Date {
    #[verifier::type_invariant]
    spec fn well_formed(self) -> bool {
        self@.valid() && self.year <= MAX_YEAR
    }

    /// Every date is a day of the calendar within the range.
    pub fn facts(&self)
        ensures
            self@.valid(),
            self@.year <= MAX_YEAR,
    {
        proof {
            use_type_invariant(self);
        }
    }

    /// Strict `YYYY-MM-DD`.
    pub fn parse(s: &str) -> (r: Result<Self, PrimitiveError>)
        ensures
            order::result_model(r) == parsed_date(s@),
    {
        if s.as_bytes().len() != 10 {
            proof {
                short_date(s@);
            }
            return Err(PrimitiveError::Malformed("expected YYYY-MM-DD"));
        }
        match jiff_date(s) {
            Some((y, m, d)) => {
                if y as u16 > MAX_YEAR {
                    return Err(PrimitiveError::Malformed("expected YYYY-MM-DD"));
                }
                proof {
                    let x = DateModel { year: y as nat, month: m as nat, day: d as nat };
                    assert(x.valid());
                }
                Ok(Date { year: y as u16, month: m as u8, day: d as u8 })
            },
            None => Err(PrimitiveError::Malformed("expected YYYY-MM-DD")),
        }
    }

    /// The text `YYYY-MM-DD`.
    pub fn to_string(&self) -> (r: String)
        ensures
            r@ == self@.text(),
    {
        let chars = self.chars();
        text_of(&chars)
    }

    fn chars(&self) -> (r: Vec<char>)
        ensures
            r@ == self@.text(),
    {
        let mut out: Vec<char> = Vec::new();
        push_padded(&mut out, self.year as u32, 4);
        out.push('-');
        push_padded(&mut out, self.month as u32, 2);
        out.push('-');
        push_padded(&mut out, self.day as u32, 2);
        assert(out@ =~= self@.text());
        out
    }

    pub fn compare(&self, other: &Self) -> (o: Order)
        ensures
            o == date_order(self@, other@),
    {
        let (a, b): (u16, u16) = if self.year != other.year {
            (self.year, other.year)
        } else if self.month != other.month {
            (self.month as u16, other.month as u16)
        } else {
            (self.day as u16, other.day as u16)
        };
        if a < b {
            Order::Less
        } else if a == b {
            Order::Equal
        } else {
            Order::Greater
        }
    }

    /// The instant at which the day begins in UTC; its day is this one.
    pub fn at_midnight_utc(&self) -> (r: Instant)
        ensures
            r.text() == midnight(self@),
            instant_of(midnight(self@)) == Some(r@),
            utc_day(r.text()) == Some(self@),
    {
        proof {
            use_type_invariant(self);
            midnight_is_of_its_day(self@);
            date_text_reads_back(self@);
            padded_spells(self@.year, 4);
            padded_spells(self@.month, 2);
            padded_spells(self@.day, 2);
            reveal_strlit("T00:00:00Z");
        }
        let mut out = self.chars();
        push_text(&mut out, "T00:00:00Z");
        let text = text_of(&out);
        let ghost t = midnight(self@);
        proof {
            assert(t.take(10) =~= self@.text());
            assert(t.subrange(0, 4) =~= padded(self@.year, 4));
            assert(t.subrange(5, 7) =~= padded(self@.month, 2));
            assert(t.subrange(8, 10) =~= padded(self@.day, 2));
            assert(strict_instant(t));
        }
        match jiff_timestamp(text.as_str()) {
            Some(nanos) => Instant { nanos },
            None => {
                assert(false);
                Instant { nanos: 0 }
            },
        }
    }
}

/// The canonical text of a day's first instant.
pub open spec fn midnight(d: DateModel) -> Seq<char> {
    d.text() + "T00:00:00Z"@
}

proof fn short_date(s: Seq<char>)
    requires
        vstd::utf8::encode_utf8(s).len() != 10,
    ensures
        iso_date(s) is None,
{
    if iso_date(s) is Some {
        assert forall|i: int| 0 <= i < s.len() implies '\0' <= #[trigger] s[i] <= '\u{7f}' by {
            if i < 4 {
                assert(s.subrange(0, 4)[i] == s[i]);
            } else if 5 <= i < 7 {
                assert(s.subrange(5, 7)[i - 5] == s[i]);
            } else if 8 <= i {
                assert(s.subrange(8, 10)[i - 8] == s[i]);
            }
        }
        assert(vstd::utf8::is_ascii_chars(s));
        vstd::utf8::is_ascii_chars_encode_utf8(s);
    }
}

/// Appends the last `width` digits of a number.
fn push_padded(out: &mut Vec<char>, n: u32, width: u8)
    ensures
        final(out)@ == old(out)@ + padded(n as nat, width as nat),
    decreases width,
{
    if width > 0 {
        push_padded(out, n / 10, width - 1);
        out.push(digit_of((n % 10) as u8));
    }
    assert(out@ =~= old(out)@ + padded(n as nat, width as nat));
}

/// The nanoseconds between the Unix epoch and the instant that a text
/// spells, as `jiff` reads it.
pub uninterp spec fn timestamp_nanos(s: Seq<char>) -> Option<int>;

/// The canonical UTC text of an instant, as `jiff` writes it.
pub uninterp spec fn timestamp_text(nanos: int) -> Seq<char>;

pub open spec fn as_int(n: Option<i128>) -> Option<int> {
    match n {
        Some(x) => Some(x as int),
        None => None,
    }
}

/// The text of a midnight within the shared range.
pub open spec fn is_midnight(s: Seq<char>) -> bool {
    exists|d: DateModel| d.valid() && d.year <= MAX_YEAR && s == #[trigger] midnight(d)
}

/// The instants that `jiff` can represent.
pub open spec fn timestamp_range(nanos: int) -> bool {
    -377705023201000000000 <= nanos <= 253402207200999999999
}

/// `jiff::Timestamp::from_str`, given as nanoseconds since the epoch. An
/// instant it accepts lies in its range, and midnight of a day up to the
/// end of the shared range is accepted and is its own canonical text.
#[verifier::external_body]
fn jiff_timestamp(s: &str) -> (r: Option<i128>)
    ensures
        as_int(r) == timestamp_nanos(s@),
        r is Some ==> timestamp_range(r->0 as int),
        is_midnight(s@) ==> r is Some && timestamp_text(r->0 as int) == s@,
{
    let parsed: Result<jiff::Timestamp, jiff::Error> = s.parse();
    match parsed {
        Ok(t) => Some(t.as_nanosecond()),
        Err(_) => None,
    }
}

/// `jiff::Timestamp`'s text, from nanoseconds since the epoch. The text
/// is read back as the same instant, and where it begins with a plain
/// four-digit day it is spelled strictly.
#[verifier::external_body]
fn jiff_timestamp_text(nanos: i128) -> (r: String)
    requires
        timestamp_range(nanos as int),
    ensures
        r@ == timestamp_text(nanos as int),
        timestamp_nanos(r@) == Some(nanos as int),
        utc_day(r@) is Some ==> strict_instant(r@),
{
    jiff::Timestamp::from_nanosecond(nanos).expect("in range").to_string()
}

/// The UTC day at the front of an instant's canonical text, if it lies
/// in the shared range.
pub open spec fn utc_day(text: Seq<char>) -> Option<DateModel> {
    if text.len() < 10 {
        None
    } else {
        match iso_date(text.take(10)) {
            Some(d) if d.year <= MAX_YEAR => Some(d),
            _ => None,
        }
    }
}

/// The first place at or behind `from` that holds no digit.
pub open spec fn digits_end(s: Seq<char>, from: int) -> int
    decreases s.len() - from,
{
    if 0 <= from < s.len() && text::is_digit(s[from]) {
        digits_end(s, from + 1)
    } else {
        from
    }
}

/// `YYYY-MM-DDTHH:MM:SS[.fraction](Z|+HH:MM|-HH:MM)`, upper case, no leap
/// second.
pub open spec fn strict_instant(s: Seq<char>) -> bool {
    let zone = if s[19] == '.' {
        digits_end(s, 20)
    } else {
        19
    };
    &&& s.len() >= 20
    &&& text::all_digits(s.subrange(0, 4)) && s[4] == '-'
    &&& text::all_digits(s.subrange(5, 7)) && s[7] == '-'
    &&& text::all_digits(s.subrange(8, 10)) && s[10] == 'T'
    &&& text::all_digits(s.subrange(11, 13)) && s[13] == ':'
    &&& text::all_digits(s.subrange(14, 16)) && s[16] == ':'
    &&& text::all_digits(s.subrange(17, 19)) && !(s[17] == '6' && s[18] == '0')
    &&& s[19] == '.' ==> zone > 20
    &&& {
        ||| zone + 1 == s.len() && s[zone] == 'Z'
        ||| zone + 6 == s.len() && (s[zone] == '+' || s[zone] == '-') && text::all_digits(
            s.subrange(zone + 1, zone + 3),
        ) && s[zone + 3] == ':' && text::all_digits(s.subrange(zone + 4, zone + 6))
    }
}

/// The instant that a strictly spelled text names, if its UTC day lies in
/// the shared range.
pub open spec fn instant_of(s: Seq<char>) -> Option<int> {
    if strict_instant(s) {
        match timestamp_nanos(s) {
            Some(n) if utc_day(timestamp_text(n)) is Some => Some(n),
            _ => None,
        }
    } else {
        None
    }
}

/// An RFC 3339 instant. Equality and order are those of the points in
/// time: the offset it was spelled with is not kept.
#[derive(Clone, Copy, Debug, PartialEq, Eq, PartialOrd, Ord, Hash)]
pub struct Instant {
    nanos: i128,
}

impl DeepView for Instant {
    type V = int;

    closed spec fn deep_view(&self) -> int {
        self.nanos as int
    }
}

impl View for Instant {
    type V = int;

    open spec fn view(&self) -> int {
        self.deep_view()
    }
}

impl Modeled for Instant {
    fn dup(&self) -> (r: Self) {
        *self
    }

    fn same(&self, other: &Self) -> (b: bool) {
        self.nanos == other.nanos
    }
}

/// Whether `v[from..to]` lies inside the text and holds digits only.
fn digits_at(v: &Vec<char>, from: usize, to: usize) -> (r: bool)
    requires
        from <= to <= v@.len(),
    ensures
        r == text::all_digits(v@.subrange(from as int, to as int)),
{
    let ghost part = v@.subrange(from as int, to as int);
    let mut i: usize = from;
    while i < to
        invariant
            from <= i <= to <= v@.len(),
            part == v@.subrange(from as int, to as int),
            forall|j: int| 0 <= j < i - from ==> text::is_digit(#[trigger] part[j]),
        decreases to - i,
    {
        assert(part[i - from] == v@[i as int]);
        if !is_digit_char(v[i]) {
            return false;
        }
        i += 1;
    }
    true
}

/// Whether a text is spelled as a strict RFC 3339 instant.
pub fn is_strict_instant(s: &str) -> (r: bool)
    ensures
        r == strict_instant(s@),
{
    let v = chars_of(s);
    let n = v.len();
    if n < 20 {
        return false;
    }
    if !(digits_at(&v, 0, 4) && v[4] == '-' && digits_at(&v, 5, 7) && v[7] == '-' && digits_at(
        &v,
        8,
        10,
    ) && v[10] == 'T' && digits_at(&v, 11, 13) && v[13] == ':' && digits_at(&v, 14, 16) && v[16]
        == ':' && digits_at(&v, 17, 19) && !(v[17] == '6' && v[18] == '0')) {
        return false;
    }
    let mut zone: usize = 19;
    if v[19] == '.' {
        zone = 20;
        while zone < n && is_digit_char(v[zone])
            invariant
                v@ == s@,
                n == v@.len(),
                20 <= zone <= n,
                digits_end(s@, 20) == digits_end(s@, zone as int),
            decreases n - zone,
        {
            zone += 1;
        }
        if zone == 20 {
            return false;
        }
    }
    if zone >= n {
        return false;
    }
    if n - zone == 1 {
        v[zone] == 'Z'
    } else if n - zone == 6 {
        (v[zone] == '+' || v[zone] == '-') && digits_at(&v, zone + 1, zone + 3) && v[zone + 3]
            == ':' && digits_at(&v, zone + 4, zone + 6)
    } else {
        false
    }
}

/// The day at the front of an instant's canonical text.
pub fn leading_day(text: &str) -> (r: Option<Date>)
    ensures
        match r {
            Some(d) => utc_day(text@) == Some(d@),
            None => utc_day(text@) is None,
        },
{
    let v = chars_of(text);
    if v.len() < 10 {
        return None;
    }
    let mut front: Vec<char> = Vec::new();
    let mut i: usize = 0;
    while i < 10
        invariant
            i <= 10 <= v@.len(),
            front@ == v@.take(i as int),
        decreases 10 - i,
    {
        front.push(v[i]);
        i += 1;
        assert(v@.take(i as int) =~= v@.take(i - 1).push(v@[i - 1]));
    }
    let day = text_of(&front);
    match Date::parse(day.as_str()) {
        Ok(d) => Some(d),
        Err(_) => None,
    }
}

impl Instant {
    /// The canonical UTC text.
    pub open spec fn text(self) -> Seq<char> {
        timestamp_text(self@)
    }

    #[verifier::type_invariant]
    spec fn well_formed(self) -> bool {
        timestamp_range(self@) && utc_day(self.text()) is Some
    }

    /// Strict RFC 3339, normalized to UTC, within the range of dates.
    pub fn parse(s: &str) -> (r: Result<Self, PrimitiveError>)
        ensures
            match r {
                Ok(t) => instant_of(s@) == Some(t@),
                Err(e) => instant_of(s@) is None && e@ == PrimitiveErrorModel::Malformed(
                    "expected RFC 3339 instant"@,
                ),
            },
    {
        if !is_strict_instant(s) {
            return Err(PrimitiveError::Malformed("expected RFC 3339 instant"));
        }
        match jiff_timestamp(s) {
            Some(nanos) => {
                let text = jiff_timestamp_text(nanos);
                match leading_day(text.as_str()) {
                    Some(_) => Ok(Instant { nanos }),
                    None => Err(PrimitiveError::Malformed("expected RFC 3339 instant")),
                }
            },
            None => Err(PrimitiveError::Malformed("expected RFC 3339 instant")),
        }
    }

    /// The canonical UTC text, which reads back as this instant.
    pub fn to_string(&self) -> (r: String)
        ensures
            r@ == self.text(),
            instant_of(r@) == Some(self@),
    {
        proof {
            use_type_invariant(self);
        }
        jiff_timestamp_text(self.nanos)
    }

    /// The UTC calendar day.
    pub fn utc_date(&self) -> (r: Date)
        ensures
            utc_day(self.text()) == Some(r@),
    {
        proof {
            use_type_invariant(self);
        }
        let text = jiff_timestamp_text(self.nanos);
        match leading_day(text.as_str()) {
            Some(d) => d,
            None => {
                assert(false);
                Date { year: 0, month: 1, day: 1 }
            },
        }
    }

    pub fn compare(&self, other: &Self) -> (o: Order)
        ensures
            o == number_order(self@, other@),
    {
        if self.nanos < other.nanos {
            Order::Less
        } else if self.nanos == other.nanos {
            Order::Equal
        } else {
            Order::Greater
        }
    }
}

/// The day that a day's own midnight falls on is that day.
pub proof fn midnight_is_of_its_day(d: DateModel)
    requires
        d.valid(),
        d.year <= MAX_YEAR,
    ensures
        utc_day(midnight(d)) == Some(d),
{
    date_text_reads_back(d);
    padded_spells(d.year, 4);
    padded_spells(d.month, 2);
    padded_spells(d.day, 2);
    assert(midnight(d).take(10) =~= d.text());
}

} // verus!
