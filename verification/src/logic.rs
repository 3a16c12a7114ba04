//! The rule language: predicates over a record's columns.
//!
//! Atoms are two-valued, and absence always loses: a source that is
//! absent, empty or hidden makes every comparison false and `is_empty`
//! true. There is no negation of an expression.

use vstd::prelude::*;
use crate::collections::OrderedSet;
use crate::decimal::{Decimal, DecimalModel};
use crate::ids::{ColumnId, GroupId, OptionId};
use crate::order::Modeled;
use crate::schema::Unit;
use crate::time::{Date, DateModel, Instant};

verus! {

/// How deep an expression may nest to be read or published.
pub const MAX_DEPTH: usize = 64;

/// A column, possibly seen through an extra field of its nomenclature.
#[derive(Clone, Debug, PartialEq, Eq)]
pub struct ColumnRef {
    pub column: ColumnId,
    pub field: Option<String>,
}

/// The model of [`ColumnRef`].
#[verifier::ext_equal]
pub struct ColumnRefModel {
    pub column: Seq<char>,
    pub field: Option<Seq<char>>,
}

impl DeepView for ColumnRef {
    type V = ColumnRefModel;

    open spec fn deep_view(&self) -> ColumnRefModel {
        ColumnRefModel {
            column: self.column.deep_view(),
            field: self.field.deep_view(),
        }
    }
}

impl View for ColumnRef {
    type V = ColumnRefModel;

    open spec fn view(&self) -> ColumnRefModel {
        self.deep_view()
    }
}

impl Modeled for ColumnRef {
    fn dup(&self) -> (r: Self) {
        ColumnRef {
            column: self.column.dup(),
            field: self.field.dup(),
        }
    }

    fn same(&self, other: &Self) -> (b: bool) {
        self.column.same(&other.column)
            && self.field.same(&other.field)
    }
}

/// A typed literal. Numbers carry units.
#[derive(Clone, Debug, PartialEq, Eq)]
pub enum Const {
    Boolean(bool),
    Number { value: Decimal, unit: Option<Unit> },
    Date(Date),
    Datetime(Instant),
    Option(OptionId),
    /// Only against a nomenclature's extra fields.
    Text(String),
}

/// The model of [`Const`].
#[verifier::ext_equal]
pub enum ConstModel {
    Boolean(bool),
    Number { value: DecimalModel, unit: Option<Unit> },
    Date(DateModel),
    Datetime(int),
    Option(Seq<char>),
    Text(Seq<char>),
}

impl DeepView for Const {
    type V = ConstModel;

    open spec fn deep_view(&self) -> ConstModel {
        match self {
            Const::Boolean(x) => ConstModel::Boolean(*x),
            Const::Number { value, unit } => ConstModel::Number {
                value: value.deep_view(),
                unit: unit.deep_view(),
            },
            Const::Date(x) => ConstModel::Date(x.deep_view()),
            Const::Datetime(x) => ConstModel::Datetime(x.deep_view()),
            Const::Option(x) => ConstModel::Option(x.deep_view()),
            Const::Text(x) => ConstModel::Text(x.deep_view()),
        }
    }
}

impl View for Const {
    type V = ConstModel;

    open spec fn view(&self) -> ConstModel {
        self.deep_view()
    }
}

impl Modeled for Const {
    fn dup(&self) -> (r: Self) {
        match self {
            Const::Boolean(x) => Const::Boolean(*x),
            Const::Number { value, unit } => Const::Number {
                value: value.dup(),
                unit: unit.dup(),
            },
            Const::Date(x) => Const::Date(x.dup()),
            Const::Datetime(x) => Const::Datetime(x.dup()),
            Const::Option(x) => Const::Option(x.dup()),
            Const::Text(x) => Const::Text(x.dup()),
        }
    }

    fn same(&self, other: &Self) -> (b: bool) {
        match (self, other) {
            (Const::Boolean(x), Const::Boolean(y)) => *x == *y,
            (
                Const::Number { value, unit },
                Const::Number { value: value2, unit: unit2 },
            ) => {
                value.same(value2)
                    && unit.same(unit2)
            },
            (Const::Date(x), Const::Date(y)) => x.same(y),
            (Const::Datetime(x), Const::Datetime(y)) => x.same(y),
            (Const::Option(x), Const::Option(y)) => x.same(y),
            (Const::Text(x), Const::Text(y)) => x.same(y),
            _ => false,
        }
    }
}

/// The right side of a comparison. A column can be written there, and
/// publication refuses it.
#[derive(Clone, Debug, PartialEq, Eq)]
pub enum Operand {
    Const(Const),
    Column(ColumnRef),
}

/// The model of [`Operand`].
#[verifier::ext_equal]
pub enum OperandModel {
    Const(ConstModel),
    Column(ColumnRefModel),
}

impl DeepView for Operand {
    type V = OperandModel;

    open spec fn deep_view(&self) -> OperandModel {
        match self {
            Operand::Const(x) => OperandModel::Const(x.deep_view()),
            Operand::Column(x) => OperandModel::Column(x.deep_view()),
        }
    }
}

impl View for Operand {
    type V = OperandModel;

    open spec fn view(&self) -> OperandModel {
        self.deep_view()
    }
}

impl Modeled for Operand {
    fn dup(&self) -> (r: Self) {
        match self {
            Operand::Const(x) => Operand::Const(x.dup()),
            Operand::Column(x) => Operand::Column(x.dup()),
        }
    }

    fn same(&self, other: &Self) -> (b: bool) {
        match (self, other) {
            (Operand::Const(x), Operand::Const(y)) => x.same(y),
            (Operand::Column(x), Operand::Column(y)) => x.same(y),
            _ => false,
        }
    }
}

/// One predicate.
#[derive(Clone, Debug, PartialEq, Eq)]
pub enum Atom {
    Eq { source: ColumnRef, right: Operand },
    NotEq { source: ColumnRef, right: Operand },
    Lt { source: ColumnRef, right: Operand },
    Le { source: ColumnRef, right: Operand },
    Gt { source: ColumnRef, right: Operand },
    Ge { source: ColumnRef, right: Operand },
    IsEmpty { source: ColumnRef },
    IsFilled { source: ColumnRef },
    /// Membership in an enum column of arity `many`.
    Contains { source: ColumnRef, option: OptionId },
    Excludes { source: ColumnRef, option: OptionId },
    /// Whether a resolution that feeds the group is pending.
    Pending { group: GroupId },
    NotPending { group: GroupId },
}

/// The model of [`Atom`].
#[verifier::ext_equal]
pub enum AtomModel {
    Eq { source: ColumnRefModel, right: OperandModel },
    NotEq { source: ColumnRefModel, right: OperandModel },
    Lt { source: ColumnRefModel, right: OperandModel },
    Le { source: ColumnRefModel, right: OperandModel },
    Gt { source: ColumnRefModel, right: OperandModel },
    Ge { source: ColumnRefModel, right: OperandModel },
    IsEmpty { source: ColumnRefModel },
    IsFilled { source: ColumnRefModel },
    Contains { source: ColumnRefModel, option: Seq<char> },
    Excludes { source: ColumnRefModel, option: Seq<char> },
    Pending { group: Seq<char> },
    NotPending { group: Seq<char> },
}

impl DeepView for Atom {
    type V = AtomModel;

    open spec fn deep_view(&self) -> AtomModel {
        match self {
            Atom::Eq { source, right } => AtomModel::Eq {
                source: source.deep_view(),
                right: right.deep_view(),
            },
            Atom::NotEq { source, right } => AtomModel::NotEq {
                source: source.deep_view(),
                right: right.deep_view(),
            },
            Atom::Lt { source, right } => AtomModel::Lt {
                source: source.deep_view(),
                right: right.deep_view(),
            },
            Atom::Le { source, right } => AtomModel::Le {
                source: source.deep_view(),
                right: right.deep_view(),
            },
            Atom::Gt { source, right } => AtomModel::Gt {
                source: source.deep_view(),
                right: right.deep_view(),
            },
            Atom::Ge { source, right } => AtomModel::Ge {
                source: source.deep_view(),
                right: right.deep_view(),
            },
            Atom::IsEmpty { source } => AtomModel::IsEmpty {
                source: source.deep_view(),
            },
            Atom::IsFilled { source } => AtomModel::IsFilled {
                source: source.deep_view(),
            },
            Atom::Contains { source, option } => AtomModel::Contains {
                source: source.deep_view(),
                option: option.deep_view(),
            },
            Atom::Excludes { source, option } => AtomModel::Excludes {
                source: source.deep_view(),
                option: option.deep_view(),
            },
            Atom::Pending { group } => AtomModel::Pending {
                group: group.deep_view(),
            },
            Atom::NotPending { group } => AtomModel::NotPending {
                group: group.deep_view(),
            },
        }
    }
}

impl View for Atom {
    type V = AtomModel;

    open spec fn view(&self) -> AtomModel {
        self.deep_view()
    }
}

impl Modeled for Atom {
    fn dup(&self) -> (r: Self) {
        match self {
            Atom::Eq { source, right } => Atom::Eq {
                source: source.dup(),
                right: right.dup(),
            },
            Atom::NotEq { source, right } => Atom::NotEq {
                source: source.dup(),
                right: right.dup(),
            },
            Atom::Lt { source, right } => Atom::Lt {
                source: source.dup(),
                right: right.dup(),
            },
            Atom::Le { source, right } => Atom::Le {
                source: source.dup(),
                right: right.dup(),
            },
            Atom::Gt { source, right } => Atom::Gt {
                source: source.dup(),
                right: right.dup(),
            },
            Atom::Ge { source, right } => Atom::Ge {
                source: source.dup(),
                right: right.dup(),
            },
            Atom::IsEmpty { source } => Atom::IsEmpty {
                source: source.dup(),
            },
            Atom::IsFilled { source } => Atom::IsFilled {
                source: source.dup(),
            },
            Atom::Contains { source, option } => Atom::Contains {
                source: source.dup(),
                option: option.dup(),
            },
            Atom::Excludes { source, option } => Atom::Excludes {
                source: source.dup(),
                option: option.dup(),
            },
            Atom::Pending { group } => Atom::Pending {
                group: group.dup(),
            },
            Atom::NotPending { group } => Atom::NotPending {
                group: group.dup(),
            },
        }
    }

    fn same(&self, other: &Self) -> (b: bool) {
        match (self, other) {
            (
                Atom::Eq { source, right },
                Atom::Eq { source: source2, right: right2 },
            ) => {
                source.same(source2)
                    && right.same(right2)
            },
            (
                Atom::NotEq { source, right },
                Atom::NotEq { source: source2, right: right2 },
            ) => {
                source.same(source2)
                    && right.same(right2)
            },
            (
                Atom::Lt { source, right },
                Atom::Lt { source: source2, right: right2 },
            ) => {
                source.same(source2)
                    && right.same(right2)
            },
            (
                Atom::Le { source, right },
                Atom::Le { source: source2, right: right2 },
            ) => {
                source.same(source2)
                    && right.same(right2)
            },
            (
                Atom::Gt { source, right },
                Atom::Gt { source: source2, right: right2 },
            ) => {
                source.same(source2)
                    && right.same(right2)
            },
            (
                Atom::Ge { source, right },
                Atom::Ge { source: source2, right: right2 },
            ) => {
                source.same(source2)
                    && right.same(right2)
            },
            (
                Atom::IsEmpty { source },
                Atom::IsEmpty { source: source2 },
            ) => {
                source.same(source2)
            },
            (
                Atom::IsFilled { source },
                Atom::IsFilled { source: source2 },
            ) => {
                source.same(source2)
            },
            (
                Atom::Contains { source, option },
                Atom::Contains { source: source2, option: option2 },
            ) => {
                source.same(source2)
                    && option.same(option2)
            },
            (
                Atom::Excludes { source, option },
                Atom::Excludes { source: source2, option: option2 },
            ) => {
                source.same(source2)
                    && option.same(option2)
            },
            (
                Atom::Pending { group },
                Atom::Pending { group: group2 },
            ) => {
                group.same(group2)
            },
            (
                Atom::NotPending { group },
                Atom::NotPending { group: group2 },
            ) => {
                group.same(group2)
            },
            _ => false,
        }
    }
}

impl AtomModel {
    /// The column reference on the left, where there is one.
    pub open spec fn source(self) -> Option<ColumnRefModel> {
        match self {
            AtomModel::Eq { source, .. } => Some(source),
            AtomModel::NotEq { source, .. } => Some(source),
            AtomModel::Lt { source, .. } => Some(source),
            AtomModel::Le { source, .. } => Some(source),
            AtomModel::Gt { source, .. } => Some(source),
            AtomModel::Ge { source, .. } => Some(source),
            AtomModel::IsEmpty { source } => Some(source),
            AtomModel::IsFilled { source } => Some(source),
            AtomModel::Contains { source, .. } => Some(source),
            AtomModel::Excludes { source, .. } => Some(source),
            AtomModel::Pending { .. } => None,
            AtomModel::NotPending { .. } => None,
        }
    }

    /// The right side of a comparison.
    pub open spec fn right(self) -> Option<OperandModel> {
        match self {
            AtomModel::Eq { right, .. } => Some(right),
            AtomModel::NotEq { right, .. } => Some(right),
            AtomModel::Lt { right, .. } => Some(right),
            AtomModel::Le { right, .. } => Some(right),
            AtomModel::Gt { right, .. } => Some(right),
            AtomModel::Ge { right, .. } => Some(right),
            _ => None,
        }
    }

    /// The group whose resolution the atom reads.
    pub open spec fn awaited(self) -> Option<Seq<char>> {
        match self {
            AtomModel::Pending { group } => Some(group),
            AtomModel::NotPending { group } => Some(group),
            _ => None,
        }
    }

    /// The columns that the atom reads.
    pub open spec fn reads(self) -> Set<Seq<char>> {
        let left = match self.source() {
            Some(s) => Set::empty().insert(s.column),
            None => Set::empty(),
        };
        match self.right() {
            Some(OperandModel::Column(c)) => left.insert(c.column),
            _ => left,
        }
    }
}

impl Atom {
    /// The column reference on the left, where there is one.
    pub fn source(&self) -> (r: Option<&ColumnRef>)
        ensures
            match r {
                Some(s) => self@.source() == Some(s@),
                None => self@.source() is None,
            },
    {
        match self {
            Atom::Eq { source, .. } => Some(source),
            Atom::NotEq { source, .. } => Some(source),
            Atom::Lt { source, .. } => Some(source),
            Atom::Le { source, .. } => Some(source),
            Atom::Gt { source, .. } => Some(source),
            Atom::Ge { source, .. } => Some(source),
            Atom::IsEmpty { source } => Some(source),
            Atom::IsFilled { source } => Some(source),
            Atom::Contains { source, .. } => Some(source),
            Atom::Excludes { source, .. } => Some(source),
            Atom::Pending { .. } => None,
            Atom::NotPending { .. } => None,
        }
    }

    /// The column on the right of a comparison.
    pub fn right_column(&self) -> (r: Option<&ColumnRef>)
        ensures
            match r {
                Some(c) => self@.right() == Some(OperandModel::Column(c@)),
                None => !(self@.right() matches Some(OperandModel::Column(_))),
            },
    {
        let right = match self {
            Atom::Eq { right, .. } => right,
            Atom::NotEq { right, .. } => right,
            Atom::Lt { right, .. } => right,
            Atom::Le { right, .. } => right,
            Atom::Gt { right, .. } => right,
            Atom::Ge { right, .. } => right,
            _ => {
                return None;
            },
        };
        match right {
            Operand::Column(c) => Some(c),
            Operand::Const(_) => None,
        }
    }
}

/// A predicate, nested as deep as need be.
#[derive(Debug, PartialEq, Eq)]
pub enum Expr {
    And(Vec<Expr>),
    Or(Vec<Expr>),
    Atom(Atom),
}

/// The model of [`Expr`].
#[verifier::ext_equal]
pub enum ExprModel {
    And(Seq<ExprModel>),
    Or(Seq<ExprModel>),
    Atom(AtomModel),
}

pub open spec fn expr_model(e: Expr) -> ExprModel
    decreases e,
{
    match e {
        Expr::And(v) => ExprModel::And(exprs_model(v@)),
        Expr::Or(v) => ExprModel::Or(exprs_model(v@)),
        Expr::Atom(a) => ExprModel::Atom(a@),
    }
}

pub open spec fn exprs_model(s: Seq<Expr>) -> Seq<ExprModel>
    decreases s,
{
    Seq::new(
        s.len(),
        |i: int|
            if 0 <= i < s.len() {
                expr_model(s[i])
            } else {
                arbitrary()
            },
    )
}

impl DeepView for Expr {
    type V = ExprModel;

    open spec fn deep_view(&self) -> ExprModel {
        expr_model(*self)
    }
}

impl View for Expr {
    type V = ExprModel;

    open spec fn view(&self) -> ExprModel {
        expr_model(*self)
    }
}

fn dup_exprs(v: &Vec<Expr>) -> (r: Vec<Expr>)
    ensures
        exprs_model(r@) == exprs_model(v@),
    decreases v,
{
    let mut r: Vec<Expr> = Vec::new();
    let mut i: usize = 0;
    while i < v.len()
        invariant
            i <= v@.len(),
            r@.len() == i,
            forall|j: int| 0 <= j < i ==> expr_model(#[trigger] r@[j]) == expr_model(v@[j]),
        decreases v@.len() - i,
    {
        r.push(dup_expr(&v[i]));
        i += 1;
    }
    assert(exprs_model(r@) =~= exprs_model(v@));
    r
}

fn dup_expr(e: &Expr) -> (r: Expr)
    ensures
        r@ == e@,
    decreases e,
{
    match e {
        Expr::And(v) => Expr::And(dup_exprs(v)),
        Expr::Or(v) => Expr::Or(dup_exprs(v)),
        Expr::Atom(a) => Expr::Atom(a.dup()),
    }
}

fn same_exprs(a: &Vec<Expr>, b: &Vec<Expr>) -> (r: bool)
    ensures
        r == (exprs_model(a@) == exprs_model(b@)),
    decreases a,
{
    if a.len() != b.len() {
        assert(exprs_model(a@).len() != exprs_model(b@).len());
        return false;
    }
    let mut i: usize = 0;
    while i < a.len()
        invariant
            i <= a@.len(),
            a@.len() == b@.len(),
            forall|j: int| 0 <= j < i ==> #[trigger] exprs_model(a@)[j] == exprs_model(b@)[j],
        decreases a@.len() - i,
    {
        if !same_expr(&a[i], &b[i]) {
            assert(exprs_model(a@)[i as int] != exprs_model(b@)[i as int]);
            return false;
        }
        i += 1;
    }
    assert(exprs_model(a@) =~= exprs_model(b@));
    true
}

fn same_expr(a: &Expr, b: &Expr) -> (r: bool)
    ensures
        r == (a@ == b@),
    decreases a,
{
    match (a, b) {
        (Expr::And(x), Expr::And(y)) => same_exprs(x, y),
        (Expr::Or(x), Expr::Or(y)) => same_exprs(x, y),
        (Expr::Atom(x), Expr::Atom(y)) => x.same(y),
        _ => false,
    }
}

impl Modeled for Expr {
    fn dup(&self) -> (r: Self) {
        dup_expr(self)
    }

    fn same(&self, other: &Self) -> (b: bool) {
        same_expr(self, other)
    }
}

impl Clone for Expr {
    fn clone(&self) -> (r: Self)
        ensures
            r@ == self@,
    {
        dup_expr(self)
    }
}

/// Every column that an expression reads.
pub open spec fn reads(e: ExprModel) -> Set<Seq<char>>
    decreases e,
{
    match e {
        ExprModel::And(s) => all_read(s),
        ExprModel::Or(s) => all_read(s),
        ExprModel::Atom(a) => a.reads(),
    }
}

/// Every column that some expressions read.
pub open spec fn all_read(s: Seq<ExprModel>) -> Set<Seq<char>>
    decreases s,
{
    if s.len() == 0 {
        Set::empty()
    } else {
        all_read(s.drop_last()).union(reads(s.last()))
    }
}

/// Every group whose resolution an expression reads.
pub open spec fn awaits(e: ExprModel) -> Set<Seq<char>>
    decreases e,
{
    match e {
        ExprModel::And(s) => all_await(s),
        ExprModel::Or(s) => all_await(s),
        ExprModel::Atom(a) => match a.awaited() {
            Some(g) => Set::empty().insert(g),
            None => Set::empty(),
        },
    }
}

/// Every group whose resolution some expressions read.
pub open spec fn all_await(s: Seq<ExprModel>) -> Set<Seq<char>>
    decreases s,
{
    if s.len() == 0 {
        Set::empty()
    } else {
        all_await(s.drop_last()).union(awaits(s.last()))
    }
}

fn collect_sources(expr: &Expr, out: &mut OrderedSet<ColumnId>)
    ensures
        final(out)@ == old(out)@.union(reads(expr@)),
    decreases expr,
{
    match expr {
        Expr::And(v) => {
            collect_all_sources(v, out);
        },
        Expr::Or(v) => {
            collect_all_sources(v, out);
        },
        Expr::Atom(a) => {
            let ghost start = out@;
            if let Some(s) = a.source() {
                out.insert(s.column.dup());
            }
            if let Some(c) = a.right_column() {
                out.insert(c.column.dup());
            }
            assert(out@ =~= start.union(a@.reads()));
        },
    }
}

fn collect_all_sources(v: &Vec<Expr>, out: &mut OrderedSet<ColumnId>)
    ensures
        final(out)@ == old(out)@.union(all_read(exprs_model(v@))),
    decreases v,
{
    let ghost m = exprs_model(v@);
    let ghost start = out@;
    let mut i: usize = 0;
    assert(m.take(0) =~= Seq::<ExprModel>::empty());
    assert(start.union(Set::<Seq<char>>::empty()) =~= start);
    while i < v.len()
        invariant
            i <= v@.len(),
            m == exprs_model(v@),
            start == old(out)@,
            out@ == start.union(all_read(m.take(i as int))),
        decreases v@.len() - i,
    {
        proof {
            assert(m.take(i + 1).drop_last() =~= m.take(i as int));
            assert(m.take(i + 1).last() == v@[i as int]@);
        }
        collect_sources(&v[i], out);
        assert(out@ =~= start.union(all_read(m.take(i + 1))));
        i += 1;
    }
    assert(m.take(m.len() as int) =~= m);
}

/// Every column that an expression reads, on either side of a
/// comparison.
pub fn sources(expr: &Expr) -> (r: OrderedSet<ColumnId>)
    ensures
        r@ == reads(expr@),
{
    let mut out: OrderedSet<ColumnId> = OrderedSet::new();
    collect_sources(expr, &mut out);
    assert(out@ =~= reads(expr@));
    out
}

fn collect_awaited(expr: &Expr, out: &mut OrderedSet<GroupId>)
    ensures
        final(out)@ == old(out)@.union(awaits(expr@)),
    decreases expr,
{
    match expr {
        Expr::And(v) => {
            collect_all_awaited(v, out);
        },
        Expr::Or(v) => {
            collect_all_awaited(v, out);
        },
        Expr::Atom(a) => {
            let ghost start = out@;
            match a {
                Atom::Pending { group } => {
                    out.insert(group.dup());
                },
                Atom::NotPending { group } => {
                    out.insert(group.dup());
                },
                _ => {},
            }
            assert(out@ =~= start.union(awaits(expr@)));
        },
    }
}

fn collect_all_awaited(v: &Vec<Expr>, out: &mut OrderedSet<GroupId>)
    ensures
        final(out)@ == old(out)@.union(all_await(exprs_model(v@))),
    decreases v,
{
    let ghost m = exprs_model(v@);
    let ghost start = out@;
    let mut i: usize = 0;
    assert(m.take(0) =~= Seq::<ExprModel>::empty());
    assert(start.union(Set::<Seq<char>>::empty()) =~= start);
    while i < v.len()
        invariant
            i <= v@.len(),
            m == exprs_model(v@),
            start == old(out)@,
            out@ == start.union(all_await(m.take(i as int))),
        decreases v@.len() - i,
    {
        proof {
            assert(m.take(i + 1).drop_last() =~= m.take(i as int));
            assert(m.take(i + 1).last() == v@[i as int]@);
        }
        collect_awaited(&v[i], out);
        assert(out@ =~= start.union(all_await(m.take(i + 1))));
        i += 1;
    }
    assert(m.take(m.len() as int) =~= m);
}

/// The groups whose resolutions an expression's pending atoms read.
pub fn pending_sources(expr: &Expr) -> (r: OrderedSet<GroupId>)
    ensures
        r@ == awaits(expr@),
{
    let mut out: OrderedSet<GroupId> = OrderedSet::new();
    collect_awaited(expr, &mut out);
    assert(out@ =~= awaits(expr@));
    out
}

/// The larger of two numbers.
pub open spec fn larger(a: nat, b: nat) -> nat {
    if a >= b {
        a
    } else {
        b
    }
}

/// The deepest position at which a node stands; the root's is 0.
pub open spec fn depth_of(e: ExprModel) -> nat
    decreases e,
{
    match e {
        ExprModel::And(s) => depth_below(s),
        ExprModel::Or(s) => depth_below(s),
        ExprModel::Atom(_) => 0,
    }
}

/// The deepest position among what a combinator holds.
pub open spec fn depth_below(s: Seq<ExprModel>) -> nat
    decreases s,
{
    if s.len() == 0 {
        0
    } else {
        larger(depth_below(s.drop_last()), 1 + depth_of(s.last()))
    }
}

/// The number of nodes.
spec fn nodes(e: ExprModel) -> nat
    decreases e,
{
    match e {
        ExprModel::And(s) => 1 + nodes_below(s),
        ExprModel::Or(s) => 1 + nodes_below(s),
        ExprModel::Atom(_) => 1,
    }
}

spec fn nodes_below(s: Seq<ExprModel>) -> nat
    decreases s,
{
    if s.len() == 0 {
        0
    } else {
        nodes_below(s.drop_last()) + nodes(s.last())
    }
}

/// The deepest position that the pending work reaches.
spec fn reach(work: Seq<(&Expr, usize)>) -> nat
    decreases work.len(),
{
    if work.len() == 0 {
        0
    } else {
        larger(reach(work.drop_last()), work.last().1 as nat + depth_of(work.last().0@))
    }
}

spec fn nodes_left(work: Seq<(&Expr, usize)>) -> nat
    decreases work.len(),
{
    if work.len() == 0 {
        0
    } else {
        nodes_left(work.drop_last()) + nodes(work.last().0@)
    }
}

/// A number as far as a machine word carries it.
pub open spec fn in_word(n: nat) -> nat {
    if n <= usize::MAX {
        n
    } else {
        usize::MAX as nat
    }
}

/// Puts what a combinator holds on the pending work.
fn push_operands<'a>(v: &'a Vec<Expr>, depth: usize, work: &mut Vec<(&'a Expr, usize)>)
    requires
        depth > 0,
    ensures
        nodes_left(final(work)@) == nodes_left(old(work)@) + nodes_below(exprs_model(v@)),
        reach(final(work)@) == larger(
            reach(old(work)@),
            if v@.len() == 0 {
                0
            } else {
                (depth - 1 + depth_below(exprs_model(v@))) as nat
            },
        ),
{
    let ghost m = exprs_model(v@);
    let mut i: usize = 0;
    assert(m.take(0) =~= Seq::<ExprModel>::empty());
    while i < v.len()
        invariant
            i <= v@.len(),
            depth > 0,
            m == exprs_model(v@),
            nodes_left(work@) == nodes_left(old(work)@) + nodes_below(m.take(i as int)),
            reach(work@) == larger(
                reach(old(work)@),
                if i == 0 {
                    0
                } else {
                    (depth - 1 + depth_below(m.take(i as int))) as nat
                },
            ),
        decreases v@.len() - i,
    {
        let ghost before = work@;
        proof {
            assert(m.take(i + 1).drop_last() =~= m.take(i as int));
            assert(m.take(i + 1).last() == v@[i as int]@);
        }
        work.push((&v[i], depth));
        assert(work@.drop_last() =~= before);
        i += 1;
    }
    assert(m.take(m.len() as int) =~= m);
}

impl Expr {
    /// How deep the expression nests, found without recursion.
    pub fn depth(&self) -> (r: usize)
        ensures
            r == in_word(depth_of(self@)),
    {
        let mut work: Vec<(&Expr, usize)> = Vec::new();
        work.push((self, 0));
        let mut best: usize = 0;
        proof {
            assert(work@.drop_last() =~= Seq::<(&Expr, usize)>::empty());
            assert(reach(work@.drop_last()) == 0);
            assert(reach(work@) == depth_of(self@));
        }
        while work.len() > 0
            invariant
                in_word(depth_of(self@)) == in_word(larger(best as nat, reach(work@))),
            decreases nodes_left(work@),
        {
            let ghost before = work@;
            let (e, d) = match work.pop() {
                Some(p) => p,
                None => {
                    return best;
                },
            };
            assert(work@ =~= before.drop_last());
            if d > best {
                best = d;
            }
            let next: usize = if d < usize::MAX {
                d + 1
            } else {
                d
            };
            match e {
                Expr::And(v) => {
                    push_operands(v, next, &mut work);
                },
                Expr::Or(v) => {
                    push_operands(v, next, &mut work);
                },
                Expr::Atom(_) => {},
            }
        }
        best
    }
}

/// An expression reads finitely many columns.
pub proof fn reads_are_finite(e: ExprModel)
    ensures
        reads(e).finite(),
    decreases e,
{
    match e {
        ExprModel::And(s) => all_reads_are_finite(s),
        ExprModel::Or(s) => all_reads_are_finite(s),
        ExprModel::Atom(_) => {},
    }
}

proof fn all_reads_are_finite(s: Seq<ExprModel>)
    ensures
        all_read(s).finite(),
    decreases s,
{
    if s.len() > 0 {
        all_reads_are_finite(s.drop_last());
        reads_are_finite(s.last());
    }
}

} // verus!
