//! Schemas: types, arity, groups, cardinality, nomenclatures, resolver
//! declarations and their structural validation.

use vstd::prelude::*;
use crate::text;
use crate::canonical::same_text;
use crate::ids::{BlockId, ColumnId, GroupId, NomenclatureId, OptionId, ResolverId};
use crate::order::Modeled;
use crate::text::{chars_of, digits_text, push_text, text_of};

verus! {

/// Column arity: a `many` column holds a list and adds nothing to the row
/// path.
#[derive(Clone, Copy, Debug, PartialEq, Eq, Structural)]
pub enum Arity {
    One,
    Many,
}

impl DeepView for Arity {
    type V = Arity;

    open spec fn deep_view(&self) -> Arity {
        *self
    }
}

impl View for Arity {
    type V = Arity;

    open spec fn view(&self) -> Arity {
        *self
    }
}

impl Modeled for Arity {
    fn dup(&self) -> (r: Self) {
        *self
    }

    fn same(&self, other: &Self) -> (b: bool) {
        *self == *other
    }
}

/// Group cardinality: a `many` group opens a scope and adds a segment to
/// the row path.
#[derive(Clone, Copy, Debug, PartialEq, Eq, Structural)]
pub enum Cardinality {
    One,
    Many,
}

impl DeepView for Cardinality {
    type V = Cardinality;

    open spec fn deep_view(&self) -> Cardinality {
        *self
    }
}

impl View for Cardinality {
    type V = Cardinality;

    open spec fn view(&self) -> Cardinality {
        *self
    }
}

impl Modeled for Cardinality {
    fn dup(&self) -> (r: Self) {
        *self
    }

    fn same(&self, other: &Self) -> (b: bool) {
        *self == *other
    }
}

/// What a unit measures. Months and years have no fixed length in days
/// and measure something of their own.
#[derive(Clone, Copy, Debug, PartialEq, Eq, Structural)]
pub enum Dimension {
    Length,
    Mass,
    Duration,
    Calendar,
    Area,
    Volume,
    Ratio,
}

impl DeepView for Dimension {
    type V = Dimension;

    open spec fn deep_view(&self) -> Dimension {
        *self
    }
}

impl View for Dimension {
    type V = Dimension;

    open spec fn view(&self) -> Dimension {
        *self
    }
}

impl Modeled for Dimension {
    fn dup(&self) -> (r: Self) {
        *self
    }

    fn same(&self, other: &Self) -> (b: bool) {
        *self == *other
    }
}

/// The unit of a numeric column.
#[derive(Clone, Copy, Debug, PartialEq, Eq, Structural)]
pub enum Unit {
    Millimetre,
    Centimetre,
    Metre,
    Kilometre,
    Gram,
    Kilogram,
    Tonne,
    Minute,
    Hour,
    Day,
    Week,
    Month,
    Year,
    SquareMetre,
    Hectare,
    SquareKilometre,
    Litre,
    CubicMetre,
    Percent,
}

impl DeepView for Unit {
    type V = Unit;

    open spec fn deep_view(&self) -> Unit {
        *self
    }
}

impl View for Unit {
    type V = Unit;

    open spec fn view(&self) -> Unit {
        *self
    }
}

impl Modeled for Unit {
    fn dup(&self) -> (r: Self) {
        *self
    }

    fn same(&self, other: &Self) -> (b: bool) {
        *self == *other
    }
}

impl Unit {
    pub open spec fn spec_dimension(self) -> Dimension {
        match self {
            Unit::Millimetre | Unit::Centimetre | Unit::Metre | Unit::Kilometre =>
                Dimension::Length,
            Unit::Gram | Unit::Kilogram | Unit::Tonne => Dimension::Mass,
            Unit::Minute | Unit::Hour | Unit::Day | Unit::Week => Dimension::Duration,
            Unit::Month | Unit::Year => Dimension::Calendar,
            Unit::SquareMetre | Unit::Hectare | Unit::SquareKilometre => Dimension::Area,
            Unit::Litre | Unit::CubicMetre => Dimension::Volume,
            Unit::Percent => Dimension::Ratio,
        }
    }

    pub fn dimension(self) -> (d: Dimension)
        ensures
            d == self.spec_dimension(),
    {
        match self {
            Unit::Millimetre | Unit::Centimetre | Unit::Metre | Unit::Kilometre =>
                Dimension::Length,
            Unit::Gram | Unit::Kilogram | Unit::Tonne => Dimension::Mass,
            Unit::Minute | Unit::Hour | Unit::Day | Unit::Week => Dimension::Duration,
            Unit::Month | Unit::Year => Dimension::Calendar,
            Unit::SquareMetre | Unit::Hectare | Unit::SquareKilometre => Dimension::Area,
            Unit::Litre | Unit::CubicMetre => Dimension::Volume,
            Unit::Percent => Dimension::Ratio,
        }
    }

    pub open spec fn spec_factor(self) -> u64 {
        match self {
            Unit::Millimetre => 1,
            Unit::Centimetre => 10,
            Unit::Metre => 1_000,
            Unit::Kilometre => 1_000_000,
            Unit::Gram => 1,
            Unit::Kilogram => 1_000,
            Unit::Tonne => 1_000_000,
            Unit::Minute => 1,
            Unit::Hour => 60,
            Unit::Day => 1_440,
            Unit::Week => 10_080,
            Unit::Month => 1,
            Unit::Year => 12,
            Unit::SquareMetre => 1,
            Unit::Hectare => 10_000,
            Unit::SquareKilometre => 1_000_000,
            Unit::Litre => 1,
            Unit::CubicMetre => 1_000,
            Unit::Percent => 1,
        }
    }

    /// How many of its dimension's smallest unit make up the unit.
    pub fn factor(self) -> (f: u64)
        ensures
            f == self.spec_factor(),
            0 < f <= 1_000_000,
    {
        match self {
            Unit::Millimetre => 1,
            Unit::Centimetre => 10,
            Unit::Metre => 1_000,
            Unit::Kilometre => 1_000_000,
            Unit::Gram => 1,
            Unit::Kilogram => 1_000,
            Unit::Tonne => 1_000_000,
            Unit::Minute => 1,
            Unit::Hour => 60,
            Unit::Day => 1_440,
            Unit::Week => 10_080,
            Unit::Month => 1,
            Unit::Year => 12,
            Unit::SquareMetre => 1,
            Unit::Hectare => 10_000,
            Unit::SquareKilometre => 1_000_000,
            Unit::Litre => 1,
            Unit::CubicMetre => 1_000,
            Unit::Percent => 1,
        }
    }

    pub open spec fn spec_name(self) -> Seq<char> {
        match self {
            Unit::Millimetre => "millimetre"@,
            Unit::Centimetre => "centimetre"@,
            Unit::Metre => "metre"@,
            Unit::Kilometre => "kilometre"@,
            Unit::Gram => "gram"@,
            Unit::Kilogram => "kilogram"@,
            Unit::Tonne => "tonne"@,
            Unit::Minute => "minute"@,
            Unit::Hour => "hour"@,
            Unit::Day => "day"@,
            Unit::Week => "week"@,
            Unit::Month => "month"@,
            Unit::Year => "year"@,
            Unit::SquareMetre => "square_metre"@,
            Unit::Hectare => "hectare"@,
            Unit::SquareKilometre => "square_kilometre"@,
            Unit::Litre => "litre"@,
            Unit::CubicMetre => "cubic_metre"@,
            Unit::Percent => "percent"@,
        }
    }

    /// The unit's canonical name.
    pub fn name(self) -> (r: &'static str)
        ensures
            r@ == self.spec_name(),
    {
        match self {
            Unit::Millimetre => "millimetre",
            Unit::Centimetre => "centimetre",
            Unit::Metre => "metre",
            Unit::Kilometre => "kilometre",
            Unit::Gram => "gram",
            Unit::Kilogram => "kilogram",
            Unit::Tonne => "tonne",
            Unit::Minute => "minute",
            Unit::Hour => "hour",
            Unit::Day => "day",
            Unit::Week => "week",
            Unit::Month => "month",
            Unit::Year => "year",
            Unit::SquareMetre => "square_metre",
            Unit::Hectare => "hectare",
            Unit::SquareKilometre => "square_kilometre",
            Unit::Litre => "litre",
            Unit::CubicMetre => "cubic_metre",
            Unit::Percent => "percent",
        }
    }

    /// The unit with the given canonical name.
    pub fn parse(name: &str) -> (r: Option<Unit>)
        ensures
            match r {
                Some(u) => u.spec_name() == name@,
                None => forall|u: Unit| #[trigger] u.spec_name() != name@,
            },
    {
        if same_text(name, "millimetre") {
            Some(Unit::Millimetre)
        } else if same_text(name, "centimetre") {
            Some(Unit::Centimetre)
        } else if same_text(name, "metre") {
            Some(Unit::Metre)
        } else if same_text(name, "kilometre") {
            Some(Unit::Kilometre)
        } else if same_text(name, "gram") {
            Some(Unit::Gram)
        } else if same_text(name, "kilogram") {
            Some(Unit::Kilogram)
        } else if same_text(name, "tonne") {
            Some(Unit::Tonne)
        } else if same_text(name, "minute") {
            Some(Unit::Minute)
        } else if same_text(name, "hour") {
            Some(Unit::Hour)
        } else if same_text(name, "day") {
            Some(Unit::Day)
        } else if same_text(name, "week") {
            Some(Unit::Week)
        } else if same_text(name, "month") {
            Some(Unit::Month)
        } else if same_text(name, "year") {
            Some(Unit::Year)
        } else if same_text(name, "square_metre") {
            Some(Unit::SquareMetre)
        } else if same_text(name, "hectare") {
            Some(Unit::Hectare)
        } else if same_text(name, "square_kilometre") {
            Some(Unit::SquareKilometre)
        } else if same_text(name, "litre") {
            Some(Unit::Litre)
        } else if same_text(name, "cubic_metre") {
            Some(Unit::CubicMetre)
        } else if same_text(name, "percent") {
            Some(Unit::Percent)
        } else {
            None
        }
    }
}

/// Distinct units have distinct names.
pub proof fn unit_names_are_distinct(a: Unit, b: Unit)
    requires
        a.spec_name() == b.spec_name(),
    ensures
        a == b,
{
    name_starts(a);
    name_starts(b);
}

spec fn name_start(u: Unit) -> (nat, char, char) {
    match u {
        Unit::Millimetre => (10, 'm', 'i'),
        Unit::Centimetre => (10, 'c', 'e'),
        Unit::Metre => (5, 'm', 'e'),
        Unit::Kilometre => (9, 'k', 'i'),
        Unit::Gram => (4, 'g', 'r'),
        Unit::Kilogram => (8, 'k', 'i'),
        Unit::Tonne => (5, 't', 'o'),
        Unit::Minute => (6, 'm', 'i'),
        Unit::Hour => (4, 'h', 'o'),
        Unit::Day => (3, 'd', 'a'),
        Unit::Week => (4, 'w', 'e'),
        Unit::Month => (5, 'm', 'o'),
        Unit::Year => (4, 'y', 'e'),
        Unit::SquareMetre => (12, 's', 'q'),
        Unit::Hectare => (7, 'h', 'e'),
        Unit::SquareKilometre => (16, 's', 'q'),
        Unit::Litre => (5, 'l', 'i'),
        Unit::CubicMetre => (11, 'c', 'u'),
        Unit::Percent => (7, 'p', 'e'),
    }
}

proof fn name_starts(u: Unit)
    ensures
        name_start(u) == (u.spec_name().len(), u.spec_name()[0], u.spec_name()[1]),
{
    reveal_strlit("millimetre");
    reveal_strlit("centimetre");
    reveal_strlit("metre");
    reveal_strlit("kilometre");
    reveal_strlit("gram");
    reveal_strlit("kilogram");
    reveal_strlit("tonne");
    reveal_strlit("minute");
    reveal_strlit("hour");
    reveal_strlit("day");
    reveal_strlit("week");
    reveal_strlit("month");
    reveal_strlit("year");
    reveal_strlit("square_metre");
    reveal_strlit("hectare");
    reveal_strlit("square_kilometre");
    reveal_strlit("litre");
    reveal_strlit("cubic_metre");
    reveal_strlit("percent");
}

/// The factors by which a number in one unit becomes a number in another.
pub open spec fn unit_ratio(from: Unit, to: Unit) -> Option<(u64, u64)> {
    if from.spec_dimension() == to.spec_dimension() {
        Some((from.spec_factor(), to.spec_factor()))
    } else {
        None
    }
}

/// The factors by which a number in one unit becomes a number in another:
/// multiply by the first, divide by the second.
pub fn conversion(from: Unit, to: Unit) -> (r: Option<(u64, u64)>)
    ensures
        r == unit_ratio(from, to),
{
    if from.dimension() == to.dimension() {
        Some((from.factor(), to.factor()))
    } else {
        None
    }
}

/// What an attachment column admits.
#[derive(Clone, Debug, PartialEq, Eq)]
pub struct AttachmentConstraints {
    /// Content types or `type/*` patterns, ASCII case ignored. Empty: any.
    pub accept: Vec<String>,
    pub max_bytes: Option<u64>,
}

/// The model of [`AttachmentConstraints`].
#[verifier::ext_equal]
pub struct AttachmentConstraintsModel {
    pub accept: Seq<Seq<char>>,
    pub max_bytes: Option<u64>,
}

impl DeepView for AttachmentConstraints {
    type V = AttachmentConstraintsModel;

    open spec fn deep_view(&self) -> AttachmentConstraintsModel {
        AttachmentConstraintsModel {
            accept: self.accept.deep_view(),
            max_bytes: self.max_bytes.deep_view(),
        }
    }
}

impl View for AttachmentConstraints {
    type V = AttachmentConstraintsModel;

    open spec fn view(&self) -> AttachmentConstraintsModel {
        self.deep_view()
    }
}

impl Modeled for AttachmentConstraints {
    fn dup(&self) -> (r: Self) {
        AttachmentConstraints {
            accept: self.accept.dup(),
            max_bytes: self.max_bytes.dup(),
        }
    }

    fn same(&self, other: &Self) -> (b: bool) {
        self.accept.same(&other.accept)
            && self.max_bytes.same(&other.max_bytes)
    }
}

pub open spec fn lower_char(c: char) -> char {
    if 'A' <= c && c <= 'Z' {
        (c as nat + 32) as char
    } else {
        c
    }
}

/// ASCII letters in lower case.
pub open spec fn lower(s: Seq<char>) -> Seq<char> {
    Seq::new(s.len(), |i: int| lower_char(s[i]))
}

fn lower_text(s: &str) -> (r: Vec<char>)
    ensures
        r@ == lower(s@),
{
    let v = chars_of(s);
    let mut r: Vec<char> = Vec::new();
    let mut i: usize = 0;
    while i < v.len()
        invariant
            v@ == s@,
            i <= v@.len(),
            r@.len() == i,
            forall|j: int| 0 <= j < i ==> #[trigger] r@[j] == lower_char(s@[j]),
        decreases v@.len() - i,
    {
        let c = v[i];
        r.push(lower_of(c));
        i += 1;
    }
    assert(r@ =~= lower(s@));
    r
}

fn lower_of(c: char) -> (r: char)
    ensures
        r == lower_char(c),
{
    if 'A' <= c && c <= 'Z' {
        let n: u8 = c as u8;
        (n + 32) as char
    } else {
        c
    }
}

/// Whether the lower-case pattern `p` admits the lower-case type `t`: they
/// are equal, or `p` is `type/*` and `t` starts with `type/`.
pub open spec fn pattern_admits(p: Seq<char>, t: Seq<char>) -> bool {
    ||| p == t
    ||| p.len() >= 2 && p[p.len() - 2] == '/' && p[p.len() - 1] == '*' && p.drop_last().is_prefix_of(
        t,
    )
}

fn pattern_admits_text(p: &Vec<char>, t: &Vec<char>) -> (r: bool)
    ensures
        r == pattern_admits(p@, t@),
{
    if same_chars(p, t) {
        return true;
    }
    let n = p.len();
    if n < 2 || p[n - 2] != '/' || p[n - 1] != '*' {
        return false;
    }
    if t.len() < n - 1 {
        return false;
    }
    let mut i: usize = 0;
    while i < n - 1
        invariant
            n == p@.len(),
            n >= 2,
            i <= n - 1 <= t@.len(),
            forall|j: int| 0 <= j < i ==> #[trigger] p@[j] == t@[j],
        decreases n - i,
    {
        if p[i] != t[i] {
            assert(p@.drop_last()[i as int] != t@.subrange(0, n - 1)[i as int]);
            return false;
        }
        i += 1;
    }
    assert(p@.drop_last() =~= t@.subrange(0, n - 1));
    true
}

fn same_chars(a: &Vec<char>, b: &Vec<char>) -> (r: bool)
    ensures
        r == (a@ == b@),
{
    if a.len() != b.len() {
        return false;
    }
    let mut i: usize = 0;
    while i < a.len()
        invariant
            i <= a@.len(),
            a@.len() == b@.len(),
            forall|j: int| 0 <= j < i ==> #[trigger] a@[j] == b@[j],
        decreases a@.len() - i,
    {
        if a[i] != b[i] {
            return false;
        }
        i += 1;
    }
    assert(a@ =~= b@);
    true
}

impl AttachmentConstraintsModel {
    /// A content type that the patterns let through.
    pub open spec fn accepts(self, content_type: Seq<char>) -> bool {
        self.accept.len() == 0 || exists|i: int|
            0 <= i < self.accept.len() && pattern_admits(
                lower(#[trigger] self.accept[i]),
                lower(content_type),
            )
    }

    pub open spec fn admits_size(self, byte_size: u64) -> bool {
        match self.max_bytes {
            Some(m) => byte_size <= m,
            None => true,
        }
    }

    /// Every pattern of `narrow` is admitted by one of this side's.
    pub open spec fn covers_patterns(self, narrow: AttachmentConstraintsModel) -> bool {
        self.accept.len() == 0 || (narrow.accept.len() > 0 && forall|i: int|
            0 <= i < narrow.accept.len() ==> self.admits_pattern(#[trigger] narrow.accept[i]))
    }

    pub open spec fn admits_pattern(self, p: Seq<char>) -> bool {
        exists|j: int|
            0 <= j < self.accept.len() && pattern_admits(lower(#[trigger] self.accept[j]), lower(p))
    }

    pub open spec fn covers_sizes(self, narrow: AttachmentConstraintsModel) -> bool {
        match (self.max_bytes, narrow.max_bytes) {
            (None, _) => true,
            (Some(m), Some(n)) => n <= m,
            (Some(_), None) => false,
        }
    }

    /// Whatever `narrow` admits is admitted here.
    pub open spec fn covers(self, narrow: AttachmentConstraintsModel) -> bool {
        self.covers_patterns(narrow) && self.covers_sizes(narrow)
    }

    pub open spec fn names(self, p: Seq<char>) -> bool {
        exists|j: int|
            0 <= j < self.accept.len() && lower(#[trigger] self.accept[j]) == lower(p)
    }

    /// The same patterns, whatever their case and order, and the same
    /// limit.
    pub open spec fn equivalent(self, other: AttachmentConstraintsModel) -> bool {
        &&& self.max_bytes == other.max_bytes
        &&& forall|i: int| 0 <= i < self.accept.len() ==> other.names(#[trigger] self.accept[i])
        &&& forall|i: int| 0 <= i < other.accept.len() ==> self.names(#[trigger] other.accept[i])
    }
}

proof fn pattern_admits_transitive(q: Seq<char>, p: Seq<char>, t: Seq<char>)
    requires
        pattern_admits(q, p),
        pattern_admits(p, t),
    ensures
        pattern_admits(q, t),
{
    if q != p && p != t {
        let a = q.drop_last();
        let b = p.drop_last();
        assert(a[a.len() - 1] == '/');
        assert(p[p.len() - 1] == '*');
        assert(p.subrange(0, a.len() as int)[a.len() - 1] == p[a.len() - 1]);
        assert(a.len() != p.len());
        assert(a =~= t.subrange(0, a.len() as int)) by {
            assert forall|i: int| 0 <= i < a.len() implies a[i] == t[i] by {
                assert(p.subrange(0, a.len() as int)[i] == p[i]);
                assert(b[i] == p[i]);
                assert(t.subrange(0, b.len() as int)[i] == t[i]);
            }
        }
    }
}

/// A file that narrower constraints let through is let through by wider
/// ones.
pub proof fn covered_files_are_admitted(
    wide: AttachmentConstraintsModel,
    narrow: AttachmentConstraintsModel,
    content_type: Seq<char>,
    byte_size: u64,
)
    requires
        wide.covers(narrow),
        narrow.accepts(content_type),
        narrow.admits_size(byte_size),
    ensures
        wide.accepts(content_type),
        wide.admits_size(byte_size),
{
    if wide.accept.len() > 0 {
        let i = choose|i: int|
            0 <= i < narrow.accept.len() && pattern_admits(
                lower(#[trigger] narrow.accept[i]),
                lower(content_type),
            );
        let p = narrow.accept[i];
        assert(wide.admits_pattern(p));
        let j = choose|j: int|
            0 <= j < wide.accept.len() && pattern_admits(lower(#[trigger] wide.accept[j]), lower(p));
        pattern_admits_transitive(lower(wide.accept[j]), lower(p), lower(content_type));
    }
}

/// Constraints that cover others cover what those cover.
pub proof fn covering_is_transitive(
    a: AttachmentConstraintsModel,
    b: AttachmentConstraintsModel,
    c: AttachmentConstraintsModel,
)
    requires
        b.covers(a),
        c.covers(b),
    ensures
        c.covers(a),
{
    if c.accept.len() > 0 {
        assert forall|i: int| 0 <= i < a.accept.len() implies c.admits_pattern(
            #[trigger] a.accept[i],
        ) by {
            assert(b.admits_pattern(a.accept[i]));
            let j = choose|j: int|
                0 <= j < b.accept.len() && pattern_admits(
                    lower(#[trigger] b.accept[j]),
                    lower(a.accept[i]),
                );
            assert(c.admits_pattern(b.accept[j]));
            let k = choose|k: int|
                0 <= k < c.accept.len() && pattern_admits(
                    lower(#[trigger] c.accept[k]),
                    lower(b.accept[j]),
                );
            pattern_admits_transitive(lower(c.accept[k]), lower(b.accept[j]), lower(a.accept[i]));
        }
    }
}

/// Equivalent constraints cover each other.
pub proof fn equivalent_covers(a: AttachmentConstraintsModel, b: AttachmentConstraintsModel)
    requires
        a.equivalent(b),
    ensures
        b.covers(a),
{
    if b.accept.len() > 0 {
        assert(a.names(b.accept[0]));
        assert forall|i: int| 0 <= i < a.accept.len() implies b.admits_pattern(
            #[trigger] a.accept[i],
        ) by {
            assert(b.names(a.accept[i]));
            let j = choose|j: int|
                0 <= j < b.accept.len() && lower(#[trigger] b.accept[j]) == lower(a.accept[i]);
            assert(pattern_admits(lower(b.accept[j]), lower(a.accept[i])));
        }
    }
}

impl AttachmentConstraints {
    /// Whether the content type is let through.
    pub fn accepts(&self, content_type: &str) -> (r: bool)
        ensures
            r == self@.accepts(content_type@),
    {
        if self.accept.len() == 0 {
            return true;
        }
        self.admits(content_type)
    }

    fn admits(&self, content_type: &str) -> (r: bool)
        ensures
            r == self@.admits_pattern(content_type@),
    {
        let t = lower_text(content_type);
        let mut i: usize = 0;
        while i < self.accept.len()
            invariant
                i <= self.accept@.len(),
                t@ == lower(content_type@),
                forall|j: int|
                    0 <= j < i ==> !pattern_admits(lower(#[trigger] self@.accept[j]), t@),
            decreases self.accept@.len() - i,
        {
            let p = lower_text(self.accept[i].as_str());
            assert(self@.accept[i as int] == self.accept@[i as int]@);
            if pattern_admits_text(&p, &t) {
                return true;
            }
            i += 1;
        }
        false
    }

    /// Whether a file of this size is let through.
    pub fn admits_size(&self, byte_size: u64) -> (r: bool)
        ensures
            r == self@.admits_size(byte_size),
    {
        match self.max_bytes {
            Some(m) => byte_size <= m,
            None => true,
        }
    }

    /// Whether whatever `narrow` admits is admitted here.
    pub fn covers(&self, narrow: &AttachmentConstraints) -> (r: bool)
        ensures
            r == self@.covers(narrow@),
    {
        let sizes = match (self.max_bytes, narrow.max_bytes) {
            (None, _) => true,
            (Some(m), Some(n)) => n <= m,
            (Some(_), None) => false,
        };
        if !sizes {
            return false;
        }
        if self.accept.len() == 0 {
            return true;
        }
        if narrow.accept.len() == 0 {
            return false;
        }
        let mut i: usize = 0;
        while i < narrow.accept.len()
            invariant
                i <= narrow.accept@.len(),
                self@.accept.len() > 0,
                forall|j: int|
                    0 <= j < i ==> self@.admits_pattern(#[trigger] narrow@.accept[j]),
            decreases narrow.accept@.len() - i,
        {
            assert(narrow@.accept[i as int] == narrow.accept@[i as int]@);
            if !self.admits(narrow.accept[i].as_str()) {
                return false;
            }
            i += 1;
        }
        true
    }

    fn names(&self, p: &str) -> (r: bool)
        ensures
            r == self@.names(p@),
    {
        let t = lower_text(p);
        let mut i: usize = 0;
        while i < self.accept.len()
            invariant
                i <= self.accept@.len(),
                t@ == lower(p@),
                forall|j: int| 0 <= j < i ==> lower(#[trigger] self@.accept[j]) != t@,
            decreases self.accept@.len() - i,
        {
            let q = lower_text(self.accept[i].as_str());
            assert(self@.accept[i as int] == self.accept@[i as int]@);
            if same_chars(&q, &t) {
                return true;
            }
            i += 1;
        }
        false
    }

    fn names_all_of(&self, other: &AttachmentConstraints) -> (r: bool)
        ensures
            r == (forall|i: int|
                0 <= i < other@.accept.len() ==> self@.names(#[trigger] other@.accept[i])),
    {
        let mut i: usize = 0;
        while i < other.accept.len()
            invariant
                i <= other.accept@.len(),
                forall|j: int| 0 <= j < i ==> self@.names(#[trigger] other@.accept[j]),
            decreases other.accept@.len() - i,
        {
            assert(other@.accept[i as int] == other.accept@[i as int]@);
            if !self.names(other.accept[i].as_str()) {
                return false;
            }
            i += 1;
        }
        true
    }

    /// Whether the two are one constraint, whatever the case and order of
    /// their patterns.
    pub fn equivalent(&self, other: &AttachmentConstraints) -> (r: bool)
        ensures
            r == self@.equivalent(other@),
    {
        self.max_bytes.same(&other.max_bytes) && other.names_all_of(self) && self.names_all_of(
            other,
        )
    }
}

impl Default for AttachmentConstraints {
    fn default() -> (r: Self)
        ensures
            r@ == (AttachmentConstraintsModel { accept: Seq::empty(), max_bytes: None }),
    {
        let r = AttachmentConstraints { accept: Vec::new(), max_bytes: None };
        assert(r@.accept =~= Seq::<Seq<char>>::empty());
        r
    }
}

/// One row of a nomenclature.
#[derive(Clone, Debug, PartialEq, Eq)]
pub struct OptionRow {
    pub id: OptionId,
    pub label: String,
    /// Extra fields, by name.
    pub fields: Vec<(String, String)>,
}

/// The model of [`OptionRow`].
#[verifier::ext_equal]
pub struct OptionRowModel {
    pub id: Seq<char>,
    pub label: Seq<char>,
    pub fields: Seq<(Seq<char>, Seq<char>)>,
}

impl DeepView for OptionRow {
    type V = OptionRowModel;

    open spec fn deep_view(&self) -> OptionRowModel {
        OptionRowModel {
            id: self.id.deep_view(),
            label: self.label.deep_view(),
            fields: self.fields.deep_view(),
        }
    }
}

impl View for OptionRow {
    type V = OptionRowModel;

    open spec fn view(&self) -> OptionRowModel {
        self.deep_view()
    }
}

impl Modeled for OptionRow {
    fn dup(&self) -> (r: Self) {
        OptionRow {
            id: self.id.dup(),
            label: self.label.dup(),
            fields: self.fields.dup(),
        }
    }

    fn same(&self, other: &Self) -> (b: bool) {
        self.id.same(&other.id)
            && self.label.same(&other.label)
            && self.fields.same(&other.fields)
    }
}

/// How an enum column is backed.
#[derive(Clone, Debug, PartialEq, Eq)]
pub enum NomenclatureRef {
    /// Rows that version with the schema that holds them.
    Inline(Vec<OptionRow>),
    /// Published on its own, with its own identity and version.
    Published { id: NomenclatureId, version: u32 },
}

/// The model of [`NomenclatureRef`].
#[verifier::ext_equal]
pub enum NomenclatureRefModel {
    Inline(Seq<OptionRowModel>),
    Published { id: Seq<char>, version: u32 },
}

impl DeepView for NomenclatureRef {
    type V = NomenclatureRefModel;

    open spec fn deep_view(&self) -> NomenclatureRefModel {
        match self {
            NomenclatureRef::Inline(x) => NomenclatureRefModel::Inline(x.deep_view()),
            NomenclatureRef::Published { id, version } => NomenclatureRefModel::Published {
                id: id.deep_view(),
                version: *version,
            },
        }
    }
}

impl View for NomenclatureRef {
    type V = NomenclatureRefModel;

    open spec fn view(&self) -> NomenclatureRefModel {
        self.deep_view()
    }
}

impl Modeled for NomenclatureRef {
    fn dup(&self) -> (r: Self) {
        match self {
            NomenclatureRef::Inline(x) => NomenclatureRef::Inline(x.dup()),
            NomenclatureRef::Published { id, version } => NomenclatureRef::Published {
                id: id.dup(),
                version: *version,
            },
        }
    }

    fn same(&self, other: &Self) -> (b: bool) {
        match (self, other) {
            (NomenclatureRef::Inline(x), NomenclatureRef::Inline(y)) => x.same(y),
            (
                NomenclatureRef::Published { id, version },
                NomenclatureRef::Published { id: id2, version: version2 },
            ) => {
                id.same(id2)
                    && *version == *version2
            },
            _ => false,
        }
    }
}

/// The scalar types. Formats (an address, a phone number) are a matter of
/// presentation over text, never types.
#[derive(Clone, Debug, PartialEq, Eq)]
pub enum ScalarType {
    Text,
    Boolean,
    Integer(Option<Unit>),
    Decimal(Option<Unit>),
    Date,
    Datetime,
    Enum(NomenclatureRef),
    Attachment(AttachmentConstraints),
    Geometry,
}

/// The model of [`ScalarType`].
#[verifier::ext_equal]
pub enum ScalarTypeModel {
    Text,
    Boolean,
    Integer(Option<Unit>),
    Decimal(Option<Unit>),
    Date,
    Datetime,
    Enum(NomenclatureRefModel),
    Attachment(AttachmentConstraintsModel),
    Geometry,
}

impl DeepView for ScalarType {
    type V = ScalarTypeModel;

    open spec fn deep_view(&self) -> ScalarTypeModel {
        match self {
            ScalarType::Text => ScalarTypeModel::Text,
            ScalarType::Boolean => ScalarTypeModel::Boolean,
            ScalarType::Integer(x) => ScalarTypeModel::Integer(x.deep_view()),
            ScalarType::Decimal(x) => ScalarTypeModel::Decimal(x.deep_view()),
            ScalarType::Date => ScalarTypeModel::Date,
            ScalarType::Datetime => ScalarTypeModel::Datetime,
            ScalarType::Enum(x) => ScalarTypeModel::Enum(x.deep_view()),
            ScalarType::Attachment(x) => ScalarTypeModel::Attachment(x.deep_view()),
            ScalarType::Geometry => ScalarTypeModel::Geometry,
        }
    }
}

impl View for ScalarType {
    type V = ScalarTypeModel;

    open spec fn view(&self) -> ScalarTypeModel {
        self.deep_view()
    }
}

impl Modeled for ScalarType {
    fn dup(&self) -> (r: Self) {
        match self {
            ScalarType::Text => ScalarType::Text,
            ScalarType::Boolean => ScalarType::Boolean,
            ScalarType::Integer(x) => ScalarType::Integer(x.dup()),
            ScalarType::Decimal(x) => ScalarType::Decimal(x.dup()),
            ScalarType::Date => ScalarType::Date,
            ScalarType::Datetime => ScalarType::Datetime,
            ScalarType::Enum(x) => ScalarType::Enum(x.dup()),
            ScalarType::Attachment(x) => ScalarType::Attachment(x.dup()),
            ScalarType::Geometry => ScalarType::Geometry,
        }
    }

    fn same(&self, other: &Self) -> (b: bool) {
        match (self, other) {
            (ScalarType::Text, ScalarType::Text) => true,
            (ScalarType::Boolean, ScalarType::Boolean) => true,
            (ScalarType::Integer(x), ScalarType::Integer(y)) => x.same(y),
            (ScalarType::Decimal(x), ScalarType::Decimal(y)) => x.same(y),
            (ScalarType::Date, ScalarType::Date) => true,
            (ScalarType::Datetime, ScalarType::Datetime) => true,
            (ScalarType::Enum(x), ScalarType::Enum(y)) => x.same(y),
            (ScalarType::Attachment(x), ScalarType::Attachment(y)) => x.same(y),
            (ScalarType::Geometry, ScalarType::Geometry) => true,
            _ => false,
        }
    }
}

impl ScalarTypeModel {
    /// One constructor, whatever its parameters.
    pub open spec fn same_constructor(self, other: ScalarTypeModel) -> bool {
        match (self, other) {
            (ScalarTypeModel::Text, ScalarTypeModel::Text) => true,
            (ScalarTypeModel::Boolean, ScalarTypeModel::Boolean) => true,
            (ScalarTypeModel::Integer(_), ScalarTypeModel::Integer(_)) => true,
            (ScalarTypeModel::Decimal(_), ScalarTypeModel::Decimal(_)) => true,
            (ScalarTypeModel::Date, ScalarTypeModel::Date) => true,
            (ScalarTypeModel::Datetime, ScalarTypeModel::Datetime) => true,
            (ScalarTypeModel::Enum(_), ScalarTypeModel::Enum(_)) => true,
            (ScalarTypeModel::Attachment(_), ScalarTypeModel::Attachment(_)) => true,
            (ScalarTypeModel::Geometry, ScalarTypeModel::Geometry) => true,
            _ => false,
        }
    }
}

impl ScalarType {
    /// Whether the two types have one constructor, whatever its
    /// parameters.
    pub fn same_constructor(&self, other: &ScalarType) -> (r: bool)
        ensures
            r == self@.same_constructor(other@),
    {
        match (self, other) {
            (ScalarType::Text, ScalarType::Text) => true,
            (ScalarType::Boolean, ScalarType::Boolean) => true,
            (ScalarType::Integer(_), ScalarType::Integer(_)) => true,
            (ScalarType::Decimal(_), ScalarType::Decimal(_)) => true,
            (ScalarType::Date, ScalarType::Date) => true,
            (ScalarType::Datetime, ScalarType::Datetime) => true,
            (ScalarType::Enum(_), ScalarType::Enum(_)) => true,
            (ScalarType::Attachment(_), ScalarType::Attachment(_)) => true,
            (ScalarType::Geometry, ScalarType::Geometry) => true,
            _ => false,
        }
    }
}

/// A typed field.
#[derive(Clone, Debug, PartialEq, Eq)]
pub struct Column {
    pub id: ColumnId,
    pub label: String,
    pub ty: ScalarType,
    pub arity: Arity,
}

/// The model of [`Column`].
#[verifier::ext_equal]
pub struct ColumnModel {
    pub id: Seq<char>,
    pub label: Seq<char>,
    pub ty: ScalarTypeModel,
    pub arity: Arity,
}

impl DeepView for Column {
    type V = ColumnModel;

    open spec fn deep_view(&self) -> ColumnModel {
        ColumnModel {
            id: self.id.deep_view(),
            label: self.label.deep_view(),
            ty: self.ty.deep_view(),
            arity: self.arity.deep_view(),
        }
    }
}

impl View for Column {
    type V = ColumnModel;

    open spec fn view(&self) -> ColumnModel {
        self.deep_view()
    }
}

impl Modeled for Column {
    fn dup(&self) -> (r: Self) {
        Column {
            id: self.id.dup(),
            label: self.label.dup(),
            ty: self.ty.dup(),
            arity: self.arity.dup(),
        }
    }

    fn same(&self, other: &Self) -> (b: bool) {
        self.id.same(&other.id)
            && self.label.same(&other.label)
            && self.ty.same(&other.ty)
            && self.arity.same(&other.arity)
    }
}

/// A published block at one of its versions.
#[derive(Clone, Debug, PartialEq, Eq)]
pub struct BlockRef {
    pub id: BlockId,
    pub version: u32,
}

/// The model of [`BlockRef`].
#[verifier::ext_equal]
pub struct BlockRefModel {
    pub id: Seq<char>,
    pub version: u32,
}

impl DeepView for BlockRef {
    type V = BlockRefModel;

    open spec fn deep_view(&self) -> BlockRefModel {
        BlockRefModel {
            id: self.id.deep_view(),
            version: self.version,
        }
    }
}

impl View for BlockRef {
    type V = BlockRefModel;

    open spec fn view(&self) -> BlockRefModel {
        self.deep_view()
    }
}

impl Modeled for BlockRef {
    fn dup(&self) -> (r: Self) {
        BlockRef {
            id: self.id.dup(),
            version: self.version,
        }
    }

    fn same(&self, other: &Self) -> (b: bool) {
        self.id.same(&other.id)
            && self.version == other.version
    }
}

/// An ordered container of elements.
#[derive(Debug, PartialEq, Eq)]
pub struct Group {
    pub id: GroupId,
    pub label: String,
    pub cardinality: Cardinality,
    pub children: Vec<Element>,
    /// The block that the group was pasted from, if it still matches it.
    pub included_from: Option<BlockRef>,
}

/// A column or a group.
#[derive(Debug, PartialEq, Eq)]
pub enum Element {
    Column(Column),
    Group(Group),
}

/// The model of [`Group`].
#[verifier::ext_equal]
pub struct GroupModel {
    pub id: Seq<char>,
    pub label: Seq<char>,
    pub cardinality: Cardinality,
    pub children: Seq<ElementModel>,
    pub included_from: Option<BlockRefModel>,
}

/// The model of [`Element`].
#[verifier::ext_equal]
pub enum ElementModel {
    Column(ColumnModel),
    Group(GroupModel),
}

pub open spec fn element_model(e: Element) -> ElementModel
    decreases e,
{
    match e {
        Element::Column(c) => ElementModel::Column(c@),
        Element::Group(g) => ElementModel::Group(group_model(g)),
    }
}

pub open spec fn group_model(g: Group) -> GroupModel
    decreases g,
{
    GroupModel {
        id: g.id@,
        label: g.label@,
        cardinality: g.cardinality,
        children: elements_model(g.children@),
        included_from: g.included_from.deep_view(),
    }
}

pub open spec fn elements_model(s: Seq<Element>) -> Seq<ElementModel>
    decreases s,
{
    Seq::new(
        s.len(),
        |i: int|
            if 0 <= i < s.len() {
                element_model(s[i])
            } else {
                arbitrary()
            },
    )
}

impl DeepView for Element {
    type V = ElementModel;

    open spec fn deep_view(&self) -> ElementModel {
        element_model(*self)
    }
}

impl View for Element {
    type V = ElementModel;

    open spec fn view(&self) -> ElementModel {
        element_model(*self)
    }
}

impl DeepView for Group {
    type V = GroupModel;

    open spec fn deep_view(&self) -> GroupModel {
        group_model(*self)
    }
}

impl View for Group {
    type V = GroupModel;

    open spec fn view(&self) -> GroupModel {
        group_model(*self)
    }
}

fn dup_elements(v: &Vec<Element>) -> (r: Vec<Element>)
    ensures
        elements_model(r@) == elements_model(v@),
    decreases v,
{
    let mut r: Vec<Element> = Vec::new();
    let mut i: usize = 0;
    while i < v.len()
        invariant
            i <= v@.len(),
            r@.len() == i,
            forall|j: int| 0 <= j < i ==> element_model(#[trigger] r@[j]) == element_model(v@[j]),
        decreases v@.len() - i,
    {
        r.push(dup_element(&v[i]));
        i += 1;
    }
    assert(elements_model(r@) =~= elements_model(v@));
    r
}

fn dup_element(e: &Element) -> (r: Element)
    ensures
        r@ == e@,
    decreases e,
{
    match e {
        Element::Column(c) => Element::Column(c.dup()),
        Element::Group(g) => Element::Group(
            Group {
                id: g.id.dup(),
                label: g.label.dup(),
                cardinality: g.cardinality,
                children: dup_elements(&g.children),
                included_from: g.included_from.dup(),
            },
        ),
    }
}

fn same_elements(a: &Vec<Element>, b: &Vec<Element>) -> (r: bool)
    ensures
        r == (elements_model(a@) == elements_model(b@)),
    decreases a,
{
    if a.len() != b.len() {
        assert(elements_model(a@).len() != elements_model(b@).len());
        return false;
    }
    let mut i: usize = 0;
    while i < a.len()
        invariant
            i <= a@.len(),
            a@.len() == b@.len(),
            forall|j: int|
                0 <= j < i ==> #[trigger] elements_model(a@)[j] == elements_model(b@)[j],
        decreases a@.len() - i,
    {
        if !same_element(&a[i], &b[i]) {
            assert(elements_model(a@)[i as int] != elements_model(b@)[i as int]);
            return false;
        }
        i += 1;
    }
    assert(elements_model(a@) =~= elements_model(b@));
    true
}

fn same_element(a: &Element, b: &Element) -> (r: bool)
    ensures
        r == (a@ == b@),
    decreases a,
{
    match (a, b) {
        (Element::Column(x), Element::Column(y)) => x.same(y),
        (Element::Group(x), Element::Group(y)) => x.id.same(&y.id) && x.label.same(&y.label)
            && x.cardinality == y.cardinality && same_elements(&x.children, &y.children)
            && x.included_from.same(&y.included_from),
        _ => false,
    }
}

impl Clone for Element {
    fn clone(&self) -> (r: Self)
        ensures
            r@ == self@,
    {
        dup_element(self)
    }
}

fn dup_group(g: &Group) -> (r: Group)
    ensures
        r@ == g@,
{
    Group {
        id: g.id.dup(),
        label: g.label.dup(),
        cardinality: g.cardinality,
        children: dup_elements(&g.children),
        included_from: g.included_from.dup(),
    }
}

impl Clone for Group {
    fn clone(&self) -> (r: Self)
        ensures
            r@ == self@,
    {
        dup_group(self)
    }
}

impl Modeled for Group {
    fn dup(&self) -> (r: Self) {
        dup_group(self)
    }

    fn same(&self, other: &Self) -> (b: bool) {
        self.id.same(&other.id) && self.label.same(&other.label) && self.cardinality
            == other.cardinality && same_elements(&self.children, &other.children)
            && self.included_from.same(&other.included_from)
    }
}

impl Modeled for Element {
    fn dup(&self) -> (r: Self) {
        dup_element(self)
    }

    fn same(&self, other: &Self) -> (b: bool) {
        same_element(self, other)
    }
}

/// A named field of a resolver's declared result type.
#[derive(Clone, Debug, PartialEq, Eq)]
pub struct ResultField {
    pub name: String,
    pub ty: ScalarType,
}

/// The model of [`ResultField`].
#[verifier::ext_equal]
pub struct ResultFieldModel {
    pub name: Seq<char>,
    pub ty: ScalarTypeModel,
}

impl DeepView for ResultField {
    type V = ResultFieldModel;

    open spec fn deep_view(&self) -> ResultFieldModel {
        ResultFieldModel {
            name: self.name.deep_view(),
            ty: self.ty.deep_view(),
        }
    }
}

impl View for ResultField {
    type V = ResultFieldModel;

    open spec fn view(&self) -> ResultFieldModel {
        self.deep_view()
    }
}

impl Modeled for ResultField {
    fn dup(&self) -> (r: Self) {
        ResultField {
            name: self.name.dup(),
            ty: self.ty.dup(),
        }
    }

    fn same(&self, other: &Self) -> (b: bool) {
        self.name.same(&other.name)
            && self.ty.same(&other.ty)
    }
}

/// One result field lands in one column.
#[derive(Clone, Debug, PartialEq, Eq)]
pub struct Mapping {
    pub result_field: String,
    pub target: ColumnId,
}

/// The model of [`Mapping`].
#[verifier::ext_equal]
pub struct MappingModel {
    pub result_field: Seq<char>,
    pub target: Seq<char>,
}

impl DeepView for Mapping {
    type V = MappingModel;

    open spec fn deep_view(&self) -> MappingModel {
        MappingModel {
            result_field: self.result_field.deep_view(),
            target: self.target.deep_view(),
        }
    }
}

impl View for Mapping {
    type V = MappingModel;

    open spec fn view(&self) -> MappingModel {
        self.deep_view()
    }
}

impl Modeled for Mapping {
    fn dup(&self) -> (r: Self) {
        Mapping {
            result_field: self.result_field.dup(),
            target: self.target.dup(),
        }
    }

    fn same(&self, other: &Self) -> (b: bool) {
        self.result_field.same(&other.result_field)
            && self.target.same(&other.target)
    }
}

/// A resolver as a schema declares it: a versioned object, anchored on
/// the group whose instances it resolves. How it is reached is no part of
/// the schema.
#[derive(Clone, Debug, PartialEq, Eq)]
pub struct ResolverDeclaration {
    pub id: ResolverId,
    pub version: u32,
    pub anchor: GroupId,
    /// Which columns feed it, with their types.
    pub input: Vec<(ColumnId, ScalarType)>,
    pub result_type: Vec<ResultField>,
    pub mapping: Vec<Mapping>,
}

/// The model of [`ResolverDeclaration`].
#[verifier::ext_equal]
pub struct ResolverDeclarationModel {
    pub id: Seq<char>,
    pub version: u32,
    pub anchor: Seq<char>,
    pub input: Seq<(Seq<char>, ScalarTypeModel)>,
    pub result_type: Seq<ResultFieldModel>,
    pub mapping: Seq<MappingModel>,
}

impl DeepView for ResolverDeclaration {
    type V = ResolverDeclarationModel;

    open spec fn deep_view(&self) -> ResolverDeclarationModel {
        ResolverDeclarationModel {
            id: self.id.deep_view(),
            version: self.version,
            anchor: self.anchor.deep_view(),
            input: self.input.deep_view(),
            result_type: self.result_type.deep_view(),
            mapping: self.mapping.deep_view(),
        }
    }
}

impl View for ResolverDeclaration {
    type V = ResolverDeclarationModel;

    open spec fn view(&self) -> ResolverDeclarationModel {
        self.deep_view()
    }
}

impl Modeled for ResolverDeclaration {
    fn dup(&self) -> (r: Self) {
        ResolverDeclaration {
            id: self.id.dup(),
            version: self.version,
            anchor: self.anchor.dup(),
            input: self.input.dup(),
            result_type: self.result_type.dup(),
            mapping: self.mapping.dup(),
        }
    }

    fn same(&self, other: &Self) -> (b: bool) {
        self.id.same(&other.id)
            && self.version == other.version
            && self.anchor.same(&other.anchor)
            && self.input.same(&other.input)
            && self.result_type.same(&other.result_type)
            && self.mapping.same(&other.mapping)
    }
}

/// A schema: its root is an implicit `one` group.
#[derive(Clone, Debug, PartialEq, Eq)]
pub struct Schema {
    pub root: Vec<Element>,
    pub resolvers: Vec<ResolverDeclaration>,
}

/// The model of [`Schema`].
#[verifier::ext_equal]
pub struct SchemaModel {
    pub root: Seq<ElementModel>,
    pub resolvers: Seq<ResolverDeclarationModel>,
}

impl DeepView for Schema {
    type V = SchemaModel;

    open spec fn deep_view(&self) -> SchemaModel {
        SchemaModel {
            root: self.root.deep_view(),
            resolvers: self.resolvers.deep_view(),
        }
    }
}

impl View for Schema {
    type V = SchemaModel;

    open spec fn view(&self) -> SchemaModel {
        self.deep_view()
    }
}

impl Modeled for Schema {
    fn dup(&self) -> (r: Self) {
        Schema {
            root: self.root.dup(),
            resolvers: self.resolvers.dup(),
        }
    }

    fn same(&self, other: &Self) -> (b: bool) {
        self.root.same(&other.root)
            && self.resolvers.same(&other.resolvers)
    }
}

impl Default for Schema {
    fn default() -> (r: Self)
        ensures
            r@ == (SchemaModel { root: Seq::empty(), resolvers: Seq::empty() }),
    {
        let r = Schema { root: Vec::new(), resolvers: Vec::new() };
        assert(r@.root =~= Seq::<ElementModel>::empty());
        assert(r@.resolvers =~= Seq::<ResolverDeclarationModel>::empty());
        r
    }
}

/// A group without its children.
#[derive(Clone, Debug, PartialEq, Eq)]
pub struct GroupShell {
    pub id: GroupId,
    pub label: String,
    pub cardinality: Cardinality,
    pub included_from: Option<BlockRef>,
}

/// The model of [`GroupShell`].
#[verifier::ext_equal]
pub struct GroupShellModel {
    pub id: Seq<char>,
    pub label: Seq<char>,
    pub cardinality: Cardinality,
    pub included_from: Option<BlockRefModel>,
}

impl DeepView for GroupShell {
    type V = GroupShellModel;

    open spec fn deep_view(&self) -> GroupShellModel {
        GroupShellModel {
            id: self.id.deep_view(),
            label: self.label.deep_view(),
            cardinality: self.cardinality.deep_view(),
            included_from: self.included_from.deep_view(),
        }
    }
}

impl View for GroupShell {
    type V = GroupShellModel;

    open spec fn view(&self) -> GroupShellModel {
        self.deep_view()
    }
}

impl Modeled for GroupShell {
    fn dup(&self) -> (r: Self) {
        GroupShell {
            id: self.id.dup(),
            label: self.label.dup(),
            cardinality: self.cardinality.dup(),
            included_from: self.included_from.dup(),
        }
    }

    fn same(&self, other: &Self) -> (b: bool) {
        self.id.same(&other.id)
            && self.label.same(&other.label)
            && self.cardinality.same(&other.cardinality)
            && self.included_from.same(&other.included_from)
    }
}

/// A column, or a group without its children.
#[derive(Clone, Debug, PartialEq, Eq)]
pub enum Shell {
    Column(Column),
    Group(GroupShell),
}

/// The model of [`Shell`].
#[verifier::ext_equal]
pub enum ShellModel {
    Column(ColumnModel),
    Group(GroupShellModel),
}

impl DeepView for Shell {
    type V = ShellModel;

    open spec fn deep_view(&self) -> ShellModel {
        match self {
            Shell::Column(x) => ShellModel::Column(x.deep_view()),
            Shell::Group(x) => ShellModel::Group(x.deep_view()),
        }
    }
}

impl View for Shell {
    type V = ShellModel;

    open spec fn view(&self) -> ShellModel {
        self.deep_view()
    }
}

impl Modeled for Shell {
    fn dup(&self) -> (r: Self) {
        match self {
            Shell::Column(x) => Shell::Column(x.dup()),
            Shell::Group(x) => Shell::Group(x.dup()),
        }
    }

    fn same(&self, other: &Self) -> (b: bool) {
        match (self, other) {
            (Shell::Column(x), Shell::Column(y)) => x.same(y),
            (Shell::Group(x), Shell::Group(y)) => x.same(y),
            _ => false,
        }
    }
}

/// An element where it stands: the group that directly holds it (none at
/// the root), the `many` groups that enclose it, outermost first, and
/// those that enclose what it holds.
#[derive(Clone, Debug, PartialEq, Eq)]
pub struct Placed {
    pub shell: Shell,
    pub parent: Option<GroupId>,
    pub scope: Vec<GroupId>,
    pub within: Vec<GroupId>,
}

/// The model of [`Placed`].
#[verifier::ext_equal]
pub struct PlacedModel {
    pub shell: ShellModel,
    pub parent: Option<Seq<char>>,
    pub scope: Seq<Seq<char>>,
    pub within: Seq<Seq<char>>,
}

impl DeepView for Placed {
    type V = PlacedModel;

    open spec fn deep_view(&self) -> PlacedModel {
        PlacedModel {
            shell: self.shell.deep_view(),
            parent: self.parent.deep_view(),
            scope: self.scope.deep_view(),
            within: self.within.deep_view(),
        }
    }
}

impl View for Placed {
    type V = PlacedModel;

    open spec fn view(&self) -> PlacedModel {
        self.deep_view()
    }
}

impl Modeled for Placed {
    fn dup(&self) -> (r: Self) {
        Placed {
            shell: self.shell.dup(),
            parent: self.parent.dup(),
            scope: self.scope.dup(),
            within: self.within.dup(),
        }
    }

    fn same(&self, other: &Self) -> (b: bool) {
        self.shell.same(&other.shell)
            && self.parent.same(&other.parent)
            && self.scope.same(&other.scope)
            && self.within.same(&other.within)
    }
}

pub open spec fn shell_of(g: GroupModel) -> GroupShellModel {
    GroupShellModel {
        id: g.id,
        label: g.label,
        cardinality: g.cardinality,
        included_from: g.included_from,
    }
}

/// The scope that a group opens inside `scope`.
pub open spec fn inner_scope(
    cardinality: Cardinality,
    id: Seq<char>,
    scope: Seq<Seq<char>>,
) -> Seq<Seq<char>> {
    if cardinality == Cardinality::Many {
        scope.push(id)
    } else {
        scope
    }
}

/// Every element of a tree in document order, a group before what it
/// holds.
pub open spec fn placed(
    elements: Seq<ElementModel>,
    parent: Option<Seq<char>>,
    scope: Seq<Seq<char>>,
) -> Seq<PlacedModel>
    decreases elements,
{
    if elements.len() == 0 {
        Seq::empty()
    } else {
        placed(elements.drop_last(), parent, scope) + placed_one(elements.last(), parent, scope)
    }
}

/// An element and what it holds, in document order.
pub open spec fn placed_one(
    e: ElementModel,
    parent: Option<Seq<char>>,
    scope: Seq<Seq<char>>,
) -> Seq<PlacedModel>
    decreases e,
{
    match e {
        ElementModel::Column(c) => seq![
            PlacedModel { shell: ShellModel::Column(c), parent, scope, within: scope },
        ],
        ElementModel::Group(g) => seq![
            PlacedModel {
                shell: ShellModel::Group(shell_of(g)),
                parent,
                scope,
                within: inner_scope(g.cardinality, g.id, scope),
            },
        ] + placed(g.children, Some(g.id), inner_scope(g.cardinality, g.id, scope)),
    }
}

/// Every element of a schema in document order.
pub open spec fn schema_elements(s: SchemaModel) -> Seq<PlacedModel> {
    placed(s.root, None, Seq::empty())
}

fn place_all(
    elements: &Vec<Element>,
    parent: &Option<GroupId>,
    scope: &Vec<GroupId>,
    out: &mut Vec<Placed>,
)
    ensures
        final(out).deep_view() == old(out).deep_view() + placed(
            elements_model(elements@),
            parent.deep_view(),
            scope.deep_view(),
        ),
    decreases elements,
{
    let ghost start = out.deep_view();
    let ghost s = elements_model(elements@);
    let mut i: usize = 0;
    assert(s.take(0) =~= Seq::<ElementModel>::empty());
    assert(start + Seq::<PlacedModel>::empty() =~= start);
    while i < elements.len()
        invariant
            i <= elements@.len(),
            s == elements_model(elements@),
            out.deep_view() == start + placed(
                s.take(i as int),
                parent.deep_view(),
                scope.deep_view(),
            ),
        decreases elements@.len() - i,
    {
        let ghost before = out.deep_view();
        place_one(&elements[i], parent, scope, out);
        i += 1;
        proof {
            let t = s.take(i as int);
            assert(t.drop_last() =~= s.take(i - 1));
            assert(t.last() == element_model(elements@[i - 1]));
            assert(out.deep_view() =~= start + placed(
                t,
                parent.deep_view(),
                scope.deep_view(),
            ));
        }
    }
    assert(s.take(s.len() as int) =~= s);
}

fn place_one(
    e: &Element,
    parent: &Option<GroupId>,
    scope: &Vec<GroupId>,
    out: &mut Vec<Placed>,
)
    ensures
        final(out).deep_view() == old(out).deep_view() + placed_one(
            e@,
            parent.deep_view(),
            scope.deep_view(),
        ),
    decreases e,
{
    let ghost start = out.deep_view();
    match e {
        Element::Column(c) => {
            out.push(
                Placed {
                    shell: Shell::Column(c.dup()),
                    parent: parent.dup(),
                    scope: scope.dup(),
                    within: scope.dup(),
                },
            );
            assert(out.deep_view() =~= start + placed_one(
                e@,
                parent.deep_view(),
                scope.deep_view(),
            ));
        },
        Element::Group(g) => {
            let shell = GroupShell {
                id: g.id.dup(),
                label: g.label.dup(),
                cardinality: g.cardinality,
                included_from: g.included_from.dup(),
            };
            let mut inner = scope.dup();
            if g.cardinality == Cardinality::Many {
                inner.push(g.id.dup());
            }
            assert(inner.deep_view() =~= inner_scope(g.cardinality, g.id@, scope.deep_view()));
            out.push(
                Placed {
                    shell: Shell::Group(shell),
                    parent: parent.dup(),
                    scope: scope.dup(),
                    within: inner.dup(),
                },
            );
            let ghost head = PlacedModel {
                shell: ShellModel::Group(shell_of(g@)),
                parent: parent.deep_view(),
                scope: scope.deep_view(),
                within: inner.deep_view(),
            };
            assert(out.deep_view() =~= start.push(head));
            let here = Some(g.id.dup());
            place_all(&g.children, &here, &inner, out);
            assert(out.deep_view() =~= start + placed_one(
                e@,
                parent.deep_view(),
                scope.deep_view(),
            ));
        },
    }
}

impl Schema {
    /// Every element in document order, a group before what it holds.
    pub fn elements(&self) -> (r: Vec<Placed>)
        ensures
            r.deep_view() == schema_elements(self@),
    {
        let mut out: Vec<Placed> = Vec::new();
        let scope: Vec<GroupId> = Vec::new();
        assert(out.deep_view() =~= Seq::<PlacedModel>::empty());
        assert(scope.deep_view() =~= Seq::<Seq<char>>::empty());
        assert(self.root.deep_view() =~= elements_model(self.root@));
        place_all(&self.root, &None, &scope, &mut out);
        assert(out.deep_view() =~= schema_elements(self@));
        out
    }
}

/// How deep `many` groups may nest: a policy, not a type.
#[derive(Clone, Copy, Debug, PartialEq, Eq, Structural)]
pub struct DepthPolicy {
    pub max_many_depth: usize,
}

impl DeepView for DepthPolicy {
    type V = DepthPolicy;

    open spec fn deep_view(&self) -> DepthPolicy {
        *self
    }
}

impl View for DepthPolicy {
    type V = DepthPolicy;

    open spec fn view(&self) -> DepthPolicy {
        *self
    }
}

impl Modeled for DepthPolicy {
    fn dup(&self) -> (r: Self) {
        *self
    }

    fn same(&self, other: &Self) -> (b: bool) {
        *self == *other
    }
}

impl Default for DepthPolicy {
    fn default() -> (r: Self)
        ensures
            r.max_many_depth == 1,
    {
        DepthPolicy { max_many_depth: 1 }
    }
}

/// What is wrong with a schema.
#[derive(Clone, Debug, PartialEq, Eq)]
pub enum SchemaError {
    DepthExceeded { group: GroupId, depth: usize, max: usize },
    DuplicateColumnId(ColumnId),
    DuplicateGroupId(GroupId),
    UnknownMappingTarget { resolver: ResolverId, target: ColumnId },
    UnknownMappingField { resolver: ResolverId, field: String },
    MappingTypeMismatch { resolver: ResolverId, field: String, target: ColumnId },
    UnknownInputColumn { resolver: ResolverId, column: ColumnId },
}

/// The model of [`SchemaError`].
#[verifier::ext_equal]
pub enum SchemaErrorModel {
    DepthExceeded { group: Seq<char>, depth: usize, max: usize },
    DuplicateColumnId(Seq<char>),
    DuplicateGroupId(Seq<char>),
    UnknownMappingTarget { resolver: Seq<char>, target: Seq<char> },
    UnknownMappingField { resolver: Seq<char>, field: Seq<char> },
    MappingTypeMismatch { resolver: Seq<char>, field: Seq<char>, target: Seq<char> },
    UnknownInputColumn { resolver: Seq<char>, column: Seq<char> },
}

impl DeepView for SchemaError {
    type V = SchemaErrorModel;

    open spec fn deep_view(&self) -> SchemaErrorModel {
        match self {
            SchemaError::DepthExceeded { group, depth, max } => SchemaErrorModel::DepthExceeded {
                group: group.deep_view(),
                depth: *depth,
                max: *max,
            },
            SchemaError::DuplicateColumnId(x) => SchemaErrorModel::DuplicateColumnId(x.deep_view()),
            SchemaError::DuplicateGroupId(x) => SchemaErrorModel::DuplicateGroupId(x.deep_view()),
            SchemaError::UnknownMappingTarget { resolver, target } => SchemaErrorModel::UnknownMappingTarget {
                resolver: resolver.deep_view(),
                target: target.deep_view(),
            },
            SchemaError::UnknownMappingField { resolver, field } => SchemaErrorModel::UnknownMappingField {
                resolver: resolver.deep_view(),
                field: field.deep_view(),
            },
            SchemaError::MappingTypeMismatch { resolver, field, target } => SchemaErrorModel::MappingTypeMismatch {
                resolver: resolver.deep_view(),
                field: field.deep_view(),
                target: target.deep_view(),
            },
            SchemaError::UnknownInputColumn { resolver, column } => SchemaErrorModel::UnknownInputColumn {
                resolver: resolver.deep_view(),
                column: column.deep_view(),
            },
        }
    }
}

impl View for SchemaError {
    type V = SchemaErrorModel;

    open spec fn view(&self) -> SchemaErrorModel {
        self.deep_view()
    }
}

impl Modeled for SchemaError {
    fn dup(&self) -> (r: Self) {
        match self {
            SchemaError::DepthExceeded { group, depth, max } => SchemaError::DepthExceeded {
                group: group.dup(),
                depth: *depth,
                max: *max,
            },
            SchemaError::DuplicateColumnId(x) => SchemaError::DuplicateColumnId(x.dup()),
            SchemaError::DuplicateGroupId(x) => SchemaError::DuplicateGroupId(x.dup()),
            SchemaError::UnknownMappingTarget { resolver, target } => SchemaError::UnknownMappingTarget {
                resolver: resolver.dup(),
                target: target.dup(),
            },
            SchemaError::UnknownMappingField { resolver, field } => SchemaError::UnknownMappingField {
                resolver: resolver.dup(),
                field: field.dup(),
            },
            SchemaError::MappingTypeMismatch { resolver, field, target } => SchemaError::MappingTypeMismatch {
                resolver: resolver.dup(),
                field: field.dup(),
                target: target.dup(),
            },
            SchemaError::UnknownInputColumn { resolver, column } => SchemaError::UnknownInputColumn {
                resolver: resolver.dup(),
                column: column.dup(),
            },
        }
    }

    fn same(&self, other: &Self) -> (b: bool) {
        match (self, other) {
            (
                SchemaError::DepthExceeded { group, depth, max },
                SchemaError::DepthExceeded { group: group2, depth: depth2, max: max2 },
            ) => {
                group.same(group2)
                    && *depth == *depth2
                    && *max == *max2
            },
            (SchemaError::DuplicateColumnId(x), SchemaError::DuplicateColumnId(y)) => x.same(y),
            (SchemaError::DuplicateGroupId(x), SchemaError::DuplicateGroupId(y)) => x.same(y),
            (
                SchemaError::UnknownMappingTarget { resolver, target },
                SchemaError::UnknownMappingTarget { resolver: resolver2, target: target2 },
            ) => {
                resolver.same(resolver2)
                    && target.same(target2)
            },
            (
                SchemaError::UnknownMappingField { resolver, field },
                SchemaError::UnknownMappingField { resolver: resolver2, field: field2 },
            ) => {
                resolver.same(resolver2)
                    && field.same(field2)
            },
            (
                SchemaError::MappingTypeMismatch { resolver, field, target },
                SchemaError::MappingTypeMismatch { resolver: resolver2, field: field2, target: target2 },
            ) => {
                resolver.same(resolver2)
                    && field.same(field2)
                    && target.same(target2)
            },
            (
                SchemaError::UnknownInputColumn { resolver, column },
                SchemaError::UnknownInputColumn { resolver: resolver2, column: column2 },
            ) => {
                resolver.same(resolver2)
                    && column.same(column2)
            },
            _ => false,
        }
    }
}

/// The text of an error.
pub open spec fn error_text(e: SchemaErrorModel) -> Seq<char> {
    match e {
        SchemaErrorModel::DepthExceeded { group, depth, max } => "group '"@ + group + "' nests `many` groups to depth "@ + text::digits(depth as nat) + ", policy allows "@ + text::digits(max as nat),
        SchemaErrorModel::DuplicateColumnId(id) => "duplicate column id '"@ + id + "'"@,
        SchemaErrorModel::DuplicateGroupId(id) => "duplicate group id '"@ + id + "'"@,
        SchemaErrorModel::UnknownMappingTarget { resolver, target } => "resolver '"@ + resolver + "' maps into unknown column '"@ + target + "'"@,
        SchemaErrorModel::UnknownMappingField { resolver, field } => "resolver '"@ + resolver + "' maps result field '"@ + field + "' absent from its declared result type"@,
        SchemaErrorModel::MappingTypeMismatch { resolver, field, target } => "resolver '"@ + resolver + "': result field '"@ + field + "' does not typecheck against column '"@ + target + "'"@,
        SchemaErrorModel::UnknownInputColumn { resolver, column } => "resolver '"@ + resolver + "' reads unknown column '"@ + column + "'"@,
    }
}

fn push_number(v: &mut Vec<char>, n: usize)
    ensures
        final(v)@ == old(v)@ + text::digits(n as nat),
{
    let d = digits_text(n as u128);
    let ghost start = v@;
    let mut i: usize = 0;
    assert(start =~= start + d@.take(0));
    while i < d.len()
        invariant
            i <= d@.len(),
            start == old(v)@,
            v@ == start + d@.take(i as int),
        decreases d@.len() - i,
    {
        v.push(d[i]);
        i += 1;
        assert(v@ =~= start + d@.take(i as int));
    }
    assert(d@.take(d@.len() as int) =~= d@);
}

impl SchemaError {
    /// The error in words.
    pub fn to_string(&self) -> (r: String)
        ensures
            r@ == error_text(self@),
    {
        let mut v: Vec<char> = Vec::new();
        match self {
            SchemaError::DepthExceeded { group, depth, max } => {
                push_text(&mut v, "group '");
                push_text(&mut v, group.as_str());
                push_text(&mut v, "' nests `many` groups to depth ");
                push_number(&mut v, *depth);
                push_text(&mut v, ", policy allows ");
                push_number(&mut v, *max);
            },
            SchemaError::DuplicateColumnId(id) => {
                push_text(&mut v, "duplicate column id '");
                push_text(&mut v, id.as_str());
                push_text(&mut v, "'");
            },
            SchemaError::DuplicateGroupId(id) => {
                push_text(&mut v, "duplicate group id '");
                push_text(&mut v, id.as_str());
                push_text(&mut v, "'");
            },
            SchemaError::UnknownMappingTarget { resolver, target } => {
                push_text(&mut v, "resolver '");
                push_text(&mut v, resolver.as_str());
                push_text(&mut v, "' maps into unknown column '");
                push_text(&mut v, target.as_str());
                push_text(&mut v, "'");
            },
            SchemaError::UnknownMappingField { resolver, field } => {
                push_text(&mut v, "resolver '");
                push_text(&mut v, resolver.as_str());
                push_text(&mut v, "' maps result field '");
                push_text(&mut v, field.as_str());
                push_text(&mut v, "' absent from its declared result type");
            },
            SchemaError::MappingTypeMismatch { resolver, field, target } => {
                push_text(&mut v, "resolver '");
                push_text(&mut v, resolver.as_str());
                push_text(&mut v, "': result field '");
                push_text(&mut v, field.as_str());
                push_text(&mut v, "' does not typecheck against column '");
                push_text(&mut v, target.as_str());
                push_text(&mut v, "'");
            },
            SchemaError::UnknownInputColumn { resolver, column } => {
                push_text(&mut v, "resolver '");
                push_text(&mut v, resolver.as_str());
                push_text(&mut v, "' reads unknown column '");
                push_text(&mut v, column.as_str());
                push_text(&mut v, "'");
            },
        }
        assert(v@ =~= error_text(self@));
        text_of(&v)
    }
}

/// Whether one of the elements is a column with this id.
pub open spec fn has_column(s: Seq<PlacedModel>, id: Seq<char>) -> bool {
    exists|i: int| 0 <= i < s.len() && (#[trigger] s[i]).shell.is_column(id)
}

/// Whether one of the elements is a group with this id.
pub open spec fn has_group(s: Seq<PlacedModel>, id: Seq<char>) -> bool {
    exists|i: int| 0 <= i < s.len() && (#[trigger] s[i]).shell.is_group(id)
}

impl ShellModel {
    pub open spec fn is_column(self, id: Seq<char>) -> bool {
        match self {
            ShellModel::Column(c) => c.id == id,
            ShellModel::Group(_) => false,
        }
    }

    pub open spec fn is_group(self, id: Seq<char>) -> bool {
        match self {
            ShellModel::Column(_) => false,
            ShellModel::Group(g) => g.id == id,
        }
    }
}

/// What is wrong with an element, given those before it.
pub open spec fn element_errors(
    before: Seq<PlacedModel>,
    p: PlacedModel,
    max: usize,
) -> Seq<SchemaErrorModel> {
    match p.shell {
        ShellModel::Column(c) => if has_column(before, c.id) {
            seq![SchemaErrorModel::DuplicateColumnId(c.id)]
        } else {
            Seq::empty()
        },
        ShellModel::Group(g) => (if has_group(before, g.id) {
            seq![SchemaErrorModel::DuplicateGroupId(g.id)]
        } else {
            Seq::empty()
        }) + (if p.within.len() > max {
            seq![
                SchemaErrorModel::DepthExceeded {
                    group: g.id,
                    depth: p.within.len() as usize,
                    max,
                },
            ]
        } else {
            Seq::empty()
        }),
    }
}

pub open spec fn structure_errors(s: Seq<PlacedModel>, max: usize) -> Seq<SchemaErrorModel>
    decreases s.len(),
{
    if s.len() == 0 {
        Seq::empty()
    } else {
        structure_errors(s.drop_last(), max) + element_errors(s.drop_last(), s.last(), max)
    }
}

/// The inputs of a resolver that are no columns of the schema.
pub open spec fn input_errors(
    s: Seq<PlacedModel>,
    resolver: Seq<char>,
    input: Seq<(Seq<char>, ScalarTypeModel)>,
) -> Seq<SchemaErrorModel>
    decreases input.len(),
{
    if input.len() == 0 {
        Seq::empty()
    } else {
        input_errors(s, resolver, input.drop_last()) + (if has_column(s, input.last().0) {
            Seq::empty()
        } else {
            seq![
                SchemaErrorModel::UnknownInputColumn { resolver, column: input.last().0 },
            ]
        })
    }
}

/// The type of the first field with a name.
pub open spec fn field_type(
    fields: Seq<ResultFieldModel>,
    name: Seq<char>,
) -> Option<ScalarTypeModel>
    decreases fields.len(),
{
    if fields.len() == 0 {
        None
    } else if fields[0].name == name {
        Some(fields[0].ty)
    } else {
        field_type(fields.drop_first(), name)
    }
}

/// The type of the first column with an id.
pub open spec fn column_type(s: Seq<PlacedModel>, id: Seq<char>) -> Option<ScalarTypeModel>
    decreases s.len(),
{
    if s.len() == 0 {
        None
    } else {
        match s[0].shell {
            ShellModel::Column(c) if c.id == id => Some(c.ty),
            _ => column_type(s.drop_first(), id),
        }
    }
}

/// What is wrong with one mapping of a resolver.
pub open spec fn mapping_error(
    s: Seq<PlacedModel>,
    r: ResolverDeclarationModel,
    m: MappingModel,
) -> Option<SchemaErrorModel> {
    match (field_type(r.result_type, m.result_field), column_type(s, m.target)) {
        (None, _) => Some(
            SchemaErrorModel::UnknownMappingField { resolver: r.id, field: m.result_field },
        ),
        (_, None) => Some(
            SchemaErrorModel::UnknownMappingTarget { resolver: r.id, target: m.target },
        ),
        (Some(f), Some(t)) => if f.same_constructor(t) {
            None
        } else {
            Some(
                SchemaErrorModel::MappingTypeMismatch {
                    resolver: r.id,
                    field: m.result_field,
                    target: m.target,
                },
            )
        },
    }
}

pub open spec fn mapping_errors(
    s: Seq<PlacedModel>,
    r: ResolverDeclarationModel,
    mapping: Seq<MappingModel>,
) -> Seq<SchemaErrorModel>
    decreases mapping.len(),
{
    if mapping.len() == 0 {
        Seq::empty()
    } else {
        let before = mapping_errors(s, r, mapping.drop_last());
        match mapping_error(s, r, mapping.last()) {
            Some(e) => before.push(e),
            None => before,
        }
    }
}

pub open spec fn resolver_errors(
    s: Seq<PlacedModel>,
    resolvers: Seq<ResolverDeclarationModel>,
) -> Seq<SchemaErrorModel>
    decreases resolvers.len(),
{
    if resolvers.len() == 0 {
        Seq::empty()
    } else {
        let r = resolvers.last();
        resolver_errors(s, resolvers.drop_last()) + input_errors(s, r.id, r.input)
            + mapping_errors(s, r, r.mapping)
    }
}

/// Everything that is wrong with a schema under a depth policy.
pub open spec fn schema_errors(schema: SchemaModel, max: usize) -> Seq<SchemaErrorModel> {
    let s = schema_elements(schema);
    structure_errors(s, max) + resolver_errors(s, schema.resolvers)
}

/// Whether a column with this id stands among the first `n` elements.
fn column_among(s: &Vec<Placed>, n: usize, id: &ColumnId) -> (r: bool)
    requires
        n <= s@.len(),
    ensures
        r == has_column(s.deep_view().take(n as int), id@),
{
    let ghost t = s.deep_view().take(n as int);
    let mut i: usize = 0;
    while i < n
        invariant
            i <= n <= s@.len(),
            t == s.deep_view().take(n as int),
            forall|j: int| 0 <= j < i ==> !(#[trigger] t[j]).shell.is_column(id@),
        decreases n - i,
    {
        assert(t[i as int] == s@[i as int].deep_view());
        if let Shell::Column(c) = &s[i].shell {
            if c.id.same(id) {
                assert(t[i as int].shell.is_column(id@));
                return true;
            }
        }
        i += 1;
    }
    false
}

/// Whether a group with this id stands among the first `n` elements.
fn group_among(s: &Vec<Placed>, n: usize, id: &GroupId) -> (r: bool)
    requires
        n <= s@.len(),
    ensures
        r == has_group(s.deep_view().take(n as int), id@),
{
    let ghost t = s.deep_view().take(n as int);
    let mut i: usize = 0;
    while i < n
        invariant
            i <= n <= s@.len(),
            t == s.deep_view().take(n as int),
            forall|j: int| 0 <= j < i ==> !(#[trigger] t[j]).shell.is_group(id@),
        decreases n - i,
    {
        assert(t[i as int] == s@[i as int].deep_view());
        if let Shell::Group(g) = &s[i].shell {
            if g.id.same(id) {
                assert(t[i as int].shell.is_group(id@));
                return true;
            }
        }
        i += 1;
    }
    false
}

pub fn find_field<'a>(fields: &'a Vec<ResultField>, name: &String) -> (r: Option<&'a ScalarType>)
    ensures
        match r {
            Some(t) => field_type(fields.deep_view(), name@) == Some(t@),
            None => field_type(fields.deep_view(), name@) is None,
        },
{
    let ghost s = fields.deep_view();
    let mut i: usize = 0;
    assert(s.skip(0) =~= s);
    while i < fields.len()
        invariant
            i <= fields@.len(),
            s == fields.deep_view(),
            field_type(s, name@) == field_type(s.skip(i as int), name@),
        decreases fields@.len() - i,
    {
        assert(s.skip(i as int)[0] == fields@[i as int].deep_view());
        if fields[i].name.same(name) {
            return Some(&fields[i].ty);
        }
        assert(s.skip(i as int).drop_first() =~= s.skip(i + 1));
        i += 1;
    }
    None
}

fn find_column_type<'a>(s: &'a Vec<Placed>, id: &ColumnId) -> (r: Option<&'a ScalarType>)
    ensures
        match r {
            Some(t) => column_type(s.deep_view(), id@) == Some(t@),
            None => column_type(s.deep_view(), id@) is None,
        },
{
    let ghost m = s.deep_view();
    let mut i: usize = 0;
    assert(m.skip(0) =~= m);
    while i < s.len()
        invariant
            i <= s@.len(),
            m == s.deep_view(),
            column_type(m, id@) == column_type(m.skip(i as int), id@),
        decreases s@.len() - i,
    {
        assert(m.skip(i as int)[0] == s@[i as int].deep_view());
        assert(m.skip(i as int).drop_first() =~= m.skip(i + 1));
        if let Shell::Column(c) = &s[i].shell {
            if c.id.same(id) {
                return Some(&c.ty);
            }
        }
        i += 1;
    }
    None
}

fn structure_check(s: &Vec<Placed>, max: usize) -> (errors: Vec<SchemaError>)
    ensures
        errors.deep_view() == structure_errors(s.deep_view(), max),
{
    let ghost m = s.deep_view();
    let mut errors: Vec<SchemaError> = Vec::new();
    let mut i: usize = 0;
    assert(m.take(0) =~= Seq::<PlacedModel>::empty());
    assert(errors.deep_view() =~= Seq::<SchemaErrorModel>::empty());
    while i < s.len()
        invariant
            i <= s@.len(),
            m == s.deep_view(),
            errors.deep_view() == structure_errors(m.take(i as int), max),
        decreases s@.len() - i,
    {
        let ghost before = m.take(i as int);
        let ghost p = m[i as int];
        let ghost had = errors.deep_view();
        assert(m.take(i + 1).drop_last() =~= before);
        assert(m.take(i + 1).last() == p);
        assert(p == s@[i as int].deep_view());
        match &s[i].shell {
            Shell::Column(c) => {
                if column_among(s, i, &c.id) {
                    errors.push(SchemaError::DuplicateColumnId(c.id.dup()));
                }
                assert(errors.deep_view() =~= had + element_errors(before, p, max));
            },
            Shell::Group(g) => {
                if group_among(s, i, &g.id) {
                    errors.push(SchemaError::DuplicateGroupId(g.id.dup()));
                }
                let ghost mid = errors.deep_view();
                assert(mid =~= had + (if has_group(before, g.id@) {
                    seq![SchemaErrorModel::DuplicateGroupId(g.id@)]
                } else {
                    Seq::empty()
                }));
                let depth = s[i].within.len();
                if depth > max {
                    errors.push(SchemaError::DepthExceeded { group: g.id.dup(), depth, max });
                }
                assert(errors.deep_view() =~= had + element_errors(before, p, max));
            },
        }
        i += 1;
    }
    assert(m.take(m.len() as int) =~= m);
    errors
}

fn resolver_check(s: &Vec<Placed>, r: &ResolverDeclaration, errors: &mut Vec<SchemaError>)
    ensures
        final(errors).deep_view() == old(errors).deep_view() + input_errors(
            s.deep_view(),
            r@.id,
            r@.input,
        ) + mapping_errors(s.deep_view(), r@, r@.mapping),
{
    let ghost m = s.deep_view();
    let ghost start = errors.deep_view();
    let ghost input = r@.input;
    let n = s.len();
    assert(m.take(m.len() as int) =~= m);
    let mut i: usize = 0;
    assert(input.take(0) =~= Seq::<(Seq<char>, ScalarTypeModel)>::empty());
    assert(start + Seq::<SchemaErrorModel>::empty() =~= start);
    while i < r.input.len()
        invariant
            i <= r.input@.len(),
            n == s@.len(),
            m == s.deep_view(),
            m.take(m.len() as int) == m,
            input == r@.input,
            errors.deep_view() == start + input_errors(m, r@.id, input.take(i as int)),
        decreases r.input@.len() - i,
    {
        let ghost had = errors.deep_view();
        if !column_among(s, n, &r.input[i].0) {
            errors.push(
                SchemaError::UnknownInputColumn {
                    resolver: r.id.dup(),
                    column: r.input[i].0.dup(),
                },
            );
        }
        i += 1;
        proof {
            let t = input.take(i as int);
            assert(t.drop_last() =~= input.take(i - 1));
            assert(t.last() == r.input@[i - 1].deep_view());
            let c = t.last().0;
            if has_column(m, c) {
                assert(errors.deep_view() =~= had);
            } else {
                assert(errors.deep_view() =~= had.push(
                    SchemaErrorModel::UnknownInputColumn { resolver: r@.id, column: c },
                ));
            }
            assert(errors.deep_view() =~= start + input_errors(m, r@.id, t));
        }
    }
    assert(input.take(input.len() as int) =~= input);
    let ghost mid = errors.deep_view();
    let ghost mapping = r@.mapping;
    let mut k: usize = 0;
    assert(mapping.take(0) =~= Seq::<MappingModel>::empty());
    assert(mid + Seq::<SchemaErrorModel>::empty() =~= mid);
    while k < r.mapping.len()
        invariant
            k <= r.mapping@.len(),
            m == s.deep_view(),
            mapping == r@.mapping,
            errors.deep_view() == mid + mapping_errors(m, r@, mapping.take(k as int)),
        decreases r.mapping@.len() - k,
    {
        let ghost x = r.mapping@[k as int].deep_view();
        let ghost had = errors.deep_view();
        let field = find_field(&r.result_type, &r.mapping[k].result_field);
        let target = find_column_type(s, &r.mapping[k].target);
        match (field, target) {
            (None, _) => {
                errors.push(
                    SchemaError::UnknownMappingField {
                        resolver: r.id.dup(),
                        field: r.mapping[k].result_field.dup(),
                    },
                );
            },
            (_, None) => {
                errors.push(
                    SchemaError::UnknownMappingTarget {
                        resolver: r.id.dup(),
                        target: r.mapping[k].target.dup(),
                    },
                );
            },
            (Some(f), Some(t)) => {
                if !f.same_constructor(t) {
                    errors.push(
                        SchemaError::MappingTypeMismatch {
                            resolver: r.id.dup(),
                            field: r.mapping[k].result_field.dup(),
                            target: r.mapping[k].target.dup(),
                        },
                    );
                }
            },
        }
        k += 1;
        proof {
            let t = mapping.take(k as int);
            assert(t.drop_last() =~= mapping.take(k - 1));
            assert(t.last() == x);
            match mapping_error(m, r@, x) {
                Some(e) => {
                    assert(errors.deep_view() =~= had.push(e));
                },
                None => {
                    assert(errors.deep_view() =~= had);
                },
            }
            assert(errors.deep_view() =~= mid + mapping_errors(m, r@, t));
        }
    }
    assert(mapping.take(mapping.len() as int) =~= mapping);
}

/// Everything that is wrong with a schema: duplicate ids, `many` groups
/// nested past the policy, resolvers that read or feed what is not there
/// or does not fit.
pub fn validate(schema: &Schema, policy: DepthPolicy) -> (errors: Vec<SchemaError>)
    ensures
        errors.deep_view() == schema_errors(schema@, policy.max_many_depth),
{
    let s = schema.elements();
    let ghost m = s.deep_view();
    let mut errors = structure_check(&s, policy.max_many_depth);
    let ghost start = errors.deep_view();
    let ghost rs = schema@.resolvers;
    let mut i: usize = 0;
    assert(rs.take(0) =~= Seq::<ResolverDeclarationModel>::empty());
    assert(start + Seq::<SchemaErrorModel>::empty() =~= start);
    while i < schema.resolvers.len()
        invariant
            i <= schema.resolvers@.len(),
            m == s.deep_view(),
            rs == schema@.resolvers,
            errors.deep_view() == start + resolver_errors(m, rs.take(i as int)),
        decreases schema.resolvers@.len() - i,
    {
        resolver_check(&s, &schema.resolvers[i], &mut errors);
        i += 1;
        proof {
            let t = rs.take(i as int);
            assert(t.drop_last() =~= rs.take(i - 1));
            assert(t.last() == schema.resolvers@[i - 1].deep_view());
            assert(errors.deep_view() =~= start + resolver_errors(m, t));
        }
    }
    assert(rs.take(rs.len() as int) =~= rs);
    errors
}

} // verus!
