//! Exact decimals.

use vstd::arithmetic::div_mod::*;
use vstd::arithmetic::mul::*;
use vstd::arithmetic::power::*;
use vstd::prelude::*;
use crate::order;
use crate::text;
use crate::order::{Modeled, Order};
use crate::text::{chars_of, digit_number, digits_text, is_digit_char, push_text, text_of};

verus! {

/// Why a primitive could not be read.
#[derive(Clone, Copy, Debug, PartialEq, Eq)]
pub enum PrimitiveError {
    Malformed(&'static str),
    OutOfRange(&'static str),
}

impl PrimitiveError {
    /// What is wrong, in words.
    pub fn to_string(&self) -> (r: String)
        ensures
            r@ == primitive_text(self@),
    {
        match self {
            PrimitiveError::Malformed(m) => (*m).to_owned(),
            PrimitiveError::OutOfRange(m) => {
                let mut text: Vec<char> = Vec::new();
                push_text(&mut text, "out of range: ");
                push_text(&mut text, m);
                let r = text_of(&text);
                assert(r@ =~= primitive_text(self@));
                r
            },
        }
    }
}

/// What is wrong with a primitive, in words.
pub open spec fn primitive_text(e: PrimitiveErrorModel) -> Seq<char> {
    match e {
        PrimitiveErrorModel::Malformed(m) => m,
        PrimitiveErrorModel::OutOfRange(m) => "out of range: "@ + m,
    }
}

/// The model of [`PrimitiveError`].
#[verifier::ext_equal]
pub enum PrimitiveErrorModel {
    Malformed(Seq<char>),
    OutOfRange(Seq<char>),
}

impl DeepView for PrimitiveError {
    type V = PrimitiveErrorModel;

    open spec fn deep_view(&self) -> PrimitiveErrorModel {
        match self {
            PrimitiveError::Malformed(m) => PrimitiveErrorModel::Malformed(m@),
            PrimitiveError::OutOfRange(m) => PrimitiveErrorModel::OutOfRange(m@),
        }
    }
}

impl View for PrimitiveError {
    type V = PrimitiveErrorModel;

    open spec fn view(&self) -> PrimitiveErrorModel {
        self.deep_view()
    }
}

/// An exact decimal: an integer mantissa over a power of ten, normalized
/// (no trailing fraction zeros), so `1.50` and `1.5` are one value.
#[derive(Clone, Copy, Debug, PartialEq, Eq, Hash)]
pub struct Decimal {
    mantissa: i128,
    scale: u32,
}

/// The number `mantissa / 10^scale`.
pub struct DecimalModel {
    pub mantissa: int,
    pub scale: nat,
}

impl DecimalModel {
    /// In lowest terms over powers of ten.
    pub open spec fn normal(self) -> bool {
        self.scale == 0 || self.mantissa % 10 != 0
    }

    /// Within what a [`Decimal`] can hold.
    pub open spec fn in_range(self) -> bool {
        i128::MIN <= self.mantissa <= i128::MAX && self.scale <= u32::MAX
    }
}

impl DeepView for Decimal {
    type V = DecimalModel;

    closed spec fn deep_view(&self) -> DecimalModel {
        DecimalModel { mantissa: self.mantissa as int, scale: self.scale as nat }
    }
}

impl View for Decimal {
    type V = DecimalModel;

    open spec fn view(&self) -> DecimalModel {
        self.deep_view()
    }
}

impl Modeled for Decimal {
    fn dup(&self) -> (r: Self) {
        *self
    }

    fn same(&self, other: &Self) -> (b: bool) {
        self.mantissa == other.mantissa && self.scale == other.scale
    }
}

pub open spec fn pow10(n: nat) -> nat
    decreases n,
{
    if n == 0 {
        1
    } else {
        10 * pow10((n - 1) as nat)
    }
}

pub proof fn pow10_adds(a: nat, b: nat)
    ensures
        pow10(a + b) == pow10(a) * pow10(b),
        pow10(a) > 0,
    decreases a,
{
    if a > 0 {
        pow10_adds((a - 1) as nat, b);
        let x = pow10((a - 1) as nat);
        let y = pow10(b);
        assert(10 * (x * y) == (10 * x) * y) by (nonlinear_arith);
    } else {
        assert(1 * pow10(b) == pow10(b));
    }
}

pub proof fn pow10_positive(a: nat)
    ensures
        pow10(a) > 0,
{
    pow10_adds(a, 0);
}

/// Euclid's algorithm.
pub open spec fn common(a: nat, b: nat) -> nat
    decreases b,
{
    if b == 0 {
        a
    } else {
        common(b, a % b)
    }
}

/// The greatest common divisor, or 1 where both numbers are 0.
pub open spec fn gcd_or_one(a: nat, b: nat) -> nat {
    if common(a, b) == 0 {
        1
    } else {
        common(a, b)
    }
}

pub proof fn gcd_divides(a: nat, b: nat)
    ensures
        gcd_or_one(a, b) > 0,
        a % gcd_or_one(a, b) == 0,
        b % gcd_or_one(a, b) == 0,
        a > 0 || b > 0 ==> common(a, b) > 0,
        common(a, b) <= a || common(a, b) <= b,
    decreases b,
{
    if b == 0 {
        if a > 0 {
            lemma_mod_self_0(a as int);
        }
        assert(0nat % gcd_or_one(a, b) == 0);
    } else {
        gcd_divides(b, a % b);
        let g = common(a, b);
        assert(g == common(b, a % b));
        assert(g > 0);
        assert(a % g == 0) by {
            let r = (a % b) as int;
            let q = (a / b) as int;
            lemma_fundamental_div_mod(a as int, b as int);
            lemma_fundamental_div_mod(b as int, g as int);
            lemma_fundamental_div_mod(r, g as int);
            let bg = b as int / g as int;
            let rg = r / (g as int);
            assert(a as int == (bg * q + rg) * g) by (nonlinear_arith)
                requires
                    a as int == b as int * q + r,
                    b as int == g as int * bg,
                    r == g as int * rg,
            ;
            lemma_mod_multiples_basic(bg * q + rg, g as int);
        }
    }
}

/// The greatest common divisor, or 1 where both numbers are 0.
pub fn gcd(a: u128, b: u128) -> (r: u128)
    ensures
        r == gcd_or_one(a as nat, b as nat),
        r > 0,
{
    let mut x = a;
    let mut y = b;
    while y != 0
        invariant
            common(x as nat, y as nat) == common(a as nat, b as nat),
        decreases y,
    {
        let t = x % y;
        x = y;
        y = t;
    }
    if x == 0 {
        1
    } else {
        x
    }
}

/// How often `p` divides `d`.
pub open spec fn exponent(p: nat, d: nat) -> nat
    decreases d,
{
    if p > 1 && d > 0 && d % p == 0 {
        proof {
            lemma_div_decreases(d as int, p as int);
            lemma_div_pos_is_pos(d as int, p as int);
        }
        1 + exponent(p, d / p)
    } else {
        0
    }
}

/// `d` with every factor `p` taken out.
pub open spec fn cofactor(p: nat, d: nat) -> nat
    decreases d,
{
    if p > 1 && d > 0 && d % p == 0 {
        proof {
            lemma_div_decreases(d as int, p as int);
            lemma_div_pos_is_pos(d as int, p as int);
        }
        cofactor(p, d / p)
    } else {
        d
    }
}

pub open spec fn abs(m: int) -> nat {
    if m < 0 {
        (-m) as nat
    } else {
        m as nat
    }
}

pub open spec fn signed(negative: bool, m: nat) -> int {
    if negative {
        -(m as int)
    } else {
        m as int
    }
}

/// `mantissa / 10^scale` in lowest terms over powers of ten.
pub open spec fn normalized(mantissa: int, scale: nat) -> DecimalModel
    decreases scale,
{
    if scale > 0 && mantissa % 10 == 0 {
        normalized(mantissa / 10, (scale - 1) as nat)
    } else {
        DecimalModel { mantissa, scale }
    }
}

pub proof fn normalized_keeps(mantissa: int, scale: nat)
    ensures
        normalized(mantissa, scale).normal(),
        normalized(mantissa, scale).mantissa * pow10(scale) == mantissa * pow10(
            normalized(mantissa, scale).scale,
        ),
        abs(normalized(mantissa, scale).mantissa) <= abs(mantissa),
        mantissa <= 0 ==> normalized(mantissa, scale).mantissa <= 0,
        mantissa >= 0 ==> normalized(mantissa, scale).mantissa >= 0,
        normalized(mantissa, scale).scale <= scale,
    decreases scale,
{
    if scale > 0 && mantissa % 10 == 0 {
        let q = mantissa / 10;
        let s = (scale - 1) as nat;
        normalized_keeps(q, s);
        let n = normalized(q, s);
        let p = pow10(s) as int;
        let r = pow10(n.scale) as int;
        assert(n.mantissa * (10 * p) == (10 * q) * r) by (nonlinear_arith)
            requires
                n.mantissa * p == q * r,
        ;
    }
}

proof fn normalized_sign(m: nat, scale: nat)
    ensures
        normalized(-(m as int), scale).mantissa == -normalized(m as int, scale).mantissa,
        normalized(-(m as int), scale).scale == normalized(m as int, scale).scale,
    decreases scale,
{
    if scale > 0 && m % 10 == 0 {
        normalized_sign(m / 10, (scale - 1) as nat);
        assert((-(m as int)) / 10 == -((m / 10) as int));
    }
}

/// `d * num / den`: the quotient is reduced, its factors 2 and 5 are
/// turned into powers of ten, and the number is brought to normal form.
/// Nothing where the quotient has no finite expansion, or where that
/// normal form does not fit.
pub open spec fn mul_div(d: DecimalModel, num: nat, den: nat) -> Option<DecimalModel> {
    if den == 0 {
        None
    } else {
        let g = gcd_or_one(num, den);
        let h = gcd_or_one(abs(d.mantissa), den / g);
        let left = den / g / h;
        let twos = exponent(2, left);
        let odd = cofactor(2, left);
        let fives = exponent(5, odd);
        let mantissa = signed(
            d.mantissa < 0,
            (abs(d.mantissa) / h) * (num / g) * pow(5, twos) as nat * pow(2, fives) as nat,
        );
        let scale = d.scale + twos + fives;
        if cofactor(5, odd) != 1 || !normalized(mantissa, scale).in_range() {
            None
        } else {
            Some(normalized(mantissa, scale))
        }
    }
}

proof fn exponent_is_small(p: nat, d: nat, k: nat)
    requires
        p > 1,
        d < pow(2, k),
    ensures
        exponent(p, d) <= k,
    decreases d,
{
    if d > 0 && d % p == 0 {
        lemma_div_decreases(d as int, p as int);
        reveal(pow);
        if k == 0 {
            assert(d < 1);
        } else {
            let e = (k - 1) as nat;
            lemma_fundamental_div_mod(d as int, p as int);
            assert(d / p < pow(2, e)) by (nonlinear_arith)
                requires
                    d as int == p * (d / p),
                    p >= 2,
                    d < 2 * pow(2, e),
                    d / p >= 0,
            ;
            exponent_is_small(p, d / p, e);
        }
    }
}

/// A factor taken out of a number: how often it is in there, and what is
/// left.
fn take_out(p: u128, d: u128) -> (r: (u32, u128))
    requires
        p > 1,
        d > 0,
    ensures
        r.0 == exponent(p as nat, d as nat),
        r.1 == cofactor(p as nat, d as nat),
        r.0 <= 128,
        r.1 > 0,
{
    proof {
        assert(pow(2, 128) == 0x1_0000_0000_0000_0000_0000_0000_0000_0000) by {
            vstd::arithmetic::power2::lemma2_to64();
            vstd::arithmetic::power2::lemma_pow2(64);
            lemma_pow_adds(2, 64, 64);
        }
        exponent_is_small(p as nat, d as nat, 128);
    }
    let mut count: u32 = 0;
    let mut rest: u128 = d;
    while rest % p == 0
        invariant
            p > 1,
            rest > 0,
            count + exponent(p as nat, rest as nat) == exponent(p as nat, d as nat),
            cofactor(p as nat, rest as nat) == cofactor(p as nat, d as nat),
            exponent(p as nat, d as nat) <= 128,
        decreases rest,
    {
        proof {
            lemma_div_decreases(rest as int, p as int);
            lemma_fundamental_div_mod(rest as int, p as int);
            assert(rest / p > 0) by (nonlinear_arith)
                requires
                    rest > 0,
                    rest as int == p * (rest / p),
                    p > 1,
            ;
        }
        rest = rest / p;
        count = count + 1;
    }
    (count, rest)
}

/// What is left of a product once both 2 and 5 are taken out of its
/// factors.
pub open spec fn core_of(m: nat) -> nat {
    cofactor(5, cofactor(2, m))
}

proof fn cofactor_has_no_more(p: nat, d: nat)
    requires
        p > 1,
        d > 0,
    ensures
        cofactor(p, d) > 0,
        cofactor(p, d) % p != 0,
    decreases d,
{
    if d % p == 0 {
        lemma_div_decreases(d as int, p as int);
        lemma_fundamental_div_mod(d as int, p as int);
        assert(d / p > 0) by (nonlinear_arith)
            requires
                d > 0,
                d as int == p * (d / p),
                p > 1,
        ;
        cofactor_has_no_more(p, d / p);
    }
}

proof fn odd_stays_odd(d: nat)
    requires
        d > 0,
        d % 2 != 0,
    ensures
        cofactor(5, d) % 2 != 0,
    decreases d,
{
    if d % 5 == 0 {
        assert(d / 5 > 0 && (d / 5) % 2 != 0);
        odd_stays_odd(d / 5);
    }
}

proof fn core_is_coprime(m: nat, n: nat)
    requires
        m > 0,
        n > 0,
    ensures
        core_of(m) > 0,
        core_of(n) > 0,
        (core_of(m) * core_of(n)) % 2 != 0,
        (core_of(m) * core_of(n)) % 5 != 0,
{
    cofactor_has_no_more(2, m);
    cofactor_has_no_more(2, n);
    odd_stays_odd(cofactor(2, m));
    odd_stays_odd(cofactor(2, n));
    cofactor_has_no_more(5, cofactor(2, m));
    cofactor_has_no_more(5, cofactor(2, n));
    let a = core_of(m);
    let b = core_of(n);
    lemma_mul_mod_noop(a as int, b as int, 2);
    lemma_mul_mod_noop(a as int, b as int, 5);
    let x = a % 5;
    let y = b % 5;
    assert((x * y) % 5 != 0) by {
        assert(x == 1 || x == 2 || x == 3 || x == 4);
        assert(y == 1 || y == 2 || y == 3 || y == 4);
        assert(x * y == 1 || x * y == 2 || x * y == 3 || x * y == 4 || x * y == 6 || x * y == 8 || x
            * y == 9 || x * y == 12 || x * y == 16) by (nonlinear_arith)
            requires
                x == 1 || x == 2 || x == 3 || x == 4,
                y == 1 || y == 2 || y == 3 || y == 4,
        ;
    }
    assert((a % 2) * (b % 2) == 1) by (nonlinear_arith)
        requires
            a % 2 == 1,
            b % 2 == 1,
    ;
}

proof fn pairs_swap(a: int, b: int, c: int, d: int)
    ensures
        (a * b) * (c * d) == (a * c) * (b * d),
{
    assert((a * b) * (c * d) == (a * c) * (b * d)) by (nonlinear_arith);
}

proof fn product_factors(m: nat, n: nat, twos: nat, fives: nat)
    requires
        m > 0,
        n > 0,
    ensures
        m * n * pow(5, twos) * pow(2, fives) == core_of(m) * core_of(n) * pow(
            2,
            exponent(2, m) + exponent(2, n) + fives,
        ) * pow(5, exponent(5, cofactor(2, m)) + exponent(5, cofactor(2, n)) + twos),
{
    exponent_cofactor(2, m);
    exponent_cofactor(2, n);
    exponent_cofactor(5, cofactor(2, m));
    exponent_cofactor(5, cofactor(2, n));
    let a = exponent(2, m);
    let b = exponent(2, n);
    let c = exponent(5, cofactor(2, m));
    let d = exponent(5, cofactor(2, n));
    lemma_pow_adds(2, a, b);
    lemma_pow_adds(2, a + b, fives);
    lemma_pow_adds(5, c, d);
    lemma_pow_adds(5, c + d, twos);
    let (pa, pb, pf) = (pow(2, a), pow(2, b), pow(2, fives));
    let (pc, pd, pt) = (pow(5, c), pow(5, d), pow(5, twos));
    let u = core_of(m) as int;
    let v = core_of(n) as int;
    let x = pc * u;
    let y = pd * v;
    pairs_swap(pa, x, pb, y);
    pairs_swap(pc, u, pd, v);
    let two = pa * pb;
    let five = pc * pd;
    let uv = u * v;
    assert((two * (five * uv)) * pt * pf == uv * (two * pf) * (five * pt)) by (nonlinear_arith);
}

proof fn nothing_is_normal(scale: nat)
    ensures
        normalized(0, scale) == (DecimalModel { mantissa: 0, scale: 0 }),
    decreases scale,
{
    if scale > 0 {
        nothing_is_normal((scale - 1) as nat);
    }
}

/// The normal form of `core * 2^x * 5^y` over `10^scale`, where neither 2
/// nor 5 is in `core`.
proof fn factors_normalize(core: nat, x: nat, y: nat, scale: nat, t: nat)
    requires
        core % 2 != 0,
        core % 5 != 0,
        t <= x,
        t <= y,
        t <= scale,
        t == x || t == y || t == scale,
    ensures
        normalized(core * pow(2, x) * pow(5, y), scale) == (DecimalModel {
            mantissa: core * pow(2, (x - t) as nat) * pow(5, (y - t) as nat),
            scale: (scale - t) as nat,
        }),
    decreases scale,
{
    let m = core * pow(2, x) * pow(5, y);
    if t > 0 {
        let rest = core * pow(2, (x - 1) as nat) * pow(5, (y - 1) as nat);
        reveal(pow);
        let p = pow(2, (x - 1) as nat);
        let q = pow(5, (y - 1) as nat);
        assert(core * (2 * p) * (5 * q) == 10 * (core * p * q)) by (nonlinear_arith);
        assert(m == 10 * rest);
        assert(m % 10 == 0 && m / 10 == rest);
        factors_normalize(core, (x - 1) as nat, (y - 1) as nat, (scale - 1) as nat, (t - 1) as nat);
    } else if scale > 0 {
        if x == 0 {
            lemma_pow0(2);
            let mut_free = core * pow(5, y);
            power_keeps_odd(core, y);
            assert(m == mut_free) by {
                assert(core * 1 == core);
            }
            assert(m % 2 != 0);
        } else {
            lemma_pow0(5);
            power_keeps_five_out(core, x);
            assert(m == core * pow(2, x));
            assert(m % 5 != 0);
        }
        assert(m % 10 != 0);
    }
}

proof fn power_keeps_odd(core: nat, y: nat)
    requires
        core % 2 != 0,
    ensures
        (core * pow(5, y)) % 2 != 0,
    decreases y,
{
    reveal(pow);
    if y == 0 {
        assert(core * 1 == core);
    } else {
        let e = (y - 1) as nat;
        power_keeps_odd(core, e);
        let r = core * pow(5, e);
        assert(core * (5 * pow(5, e)) == 5 * r) by (nonlinear_arith)
            requires
                r == core * pow(5, e),
        ;
        assert((5 * r) % 2 != 0);
    }
}

proof fn power_keeps_five_out(core: nat, x: nat)
    requires
        core % 5 != 0,
    ensures
        (core * pow(2, x)) % 5 != 0,
    decreases x,
{
    reveal(pow);
    if x == 0 {
        assert(core * 1 == core);
    } else {
        let e = (x - 1) as nat;
        power_keeps_five_out(core, e);
        let r = core * pow(2, e);
        assert(core * (2 * pow(2, e)) == 2 * r) by (nonlinear_arith)
            requires
                r == core * pow(2, e),
        ;
        assert((2 * r) % 5 != 0);
    }
}

proof fn power_step(b: int, base: int, done: nat, n: nat)
    requires
        b >= 1,
        base >= 0,
        done < n,
    ensures
        base * pow(b, (done + 1) as nat) == base * pow(b, done) * b,
        0 <= base * pow(b, (done + 1) as nat) <= base * pow(b, n),
{
    reveal(pow);
    let p = pow(b, done);
    assert(base * (b * p) == base * p * b) by (nonlinear_arith);
    let more = (n - done - 1) as nat;
    lemma_pow_adds(b, (done + 1) as nat, more);
    lemma_pow_positive(b, more);
    lemma_pow_positive(b, (done + 1) as nat);
    let x = base * pow(b, (done + 1) as nat);
    assert(x >= 0) by (nonlinear_arith)
        requires
            base >= 0,
            pow(b, (done + 1) as nat) > 0,
            x == base * pow(b, (done + 1) as nat),
    ;
    lemma_mul_is_associative(base, pow(b, (done + 1) as nat), pow(b, more));
    grows(x, pow(b, more));
}

/// `m * b^n`, where it fits.
fn scaled_up(m: u128, b: u128, n: u64) -> (r: Option<u128>)
    requires
        b == 2 || b == 5,
    ensures
        match r {
            Some(x) => x == m * pow(b as int, n as nat),
            None => m * pow(b as int, n as nat) > u128::MAX,
        },
{
    let mut r: u128 = m;
    let mut done: u64 = 0;
    proof {
        lemma_pow0(b as int);
        assert(m * 1 == m);
    }
    while done < n
        invariant
            b == 2 || b == 5,
            done <= n,
            r == m * pow(b as int, done as nat),
        decreases n - done,
    {
        proof {
            power_step(b as int, m as int, done as nat, n as nat);
        }
        r = match r.checked_mul(b) {
            Some(x) => x,
            None => {
                return None;
            },
        };
        done = done + 1;
    }
    Some(r)
}

/// `m * n * 2^x * 5^y`, where it fits.
fn multiplied(m: u128, n: u128, x: u64, y: u64) -> (r: Option<u128>)
    ensures
        match r {
            Some(p) => p == m * n * pow(2, x as nat) * pow(5, y as nat),
            None => m * n * pow(2, x as nat) * pow(5, y as nat) > u128::MAX,
        },
{
    proof {
        lemma_pow_positive(2, x as nat);
        lemma_pow_positive(5, y as nat);
        assert(m * n >= 0) by (nonlinear_arith);
        grows(m * n, pow(2, x as nat));
        grows(m * n * pow(2, x as nat), pow(5, y as nat));
    }
    match m.checked_mul(n) {
        Some(p) => match scaled_up(p, 2, x) {
            Some(q) => scaled_up(q, 5, y),
            None => None,
        },
        None => None,
    }
}

proof fn exponent_cofactor(p: nat, d: nat)
    requires
        p > 1,
        d > 0,
    ensures
        d == pow(p as int, exponent(p, d)) * cofactor(p, d),
        cofactor(p, d) > 0,
    decreases d,
{
    if d % p == 0 {
        lemma_div_decreases(d as int, p as int);
        lemma_fundamental_div_mod(d as int, p as int);
        assert(d / p > 0) by (nonlinear_arith)
            requires
                d > 0,
                p > 1,
                d as int == p * (d / p) + d % p,
                d % p == 0,
        ;
        exponent_cofactor(p, d / p);
        let e = exponent(p, d / p);
        let c = cofactor(p, d / p) as int;
        reveal(pow);
        assert(pow(p as int, (e + 1) as nat) == p * pow(p as int, e));
        let w = pow(p as int, e);
        assert(p * (w * c) == (p * w) * c) by (nonlinear_arith);
    } else {
        lemma_pow0(p as int);
    }
}

/// A conversion that gives a result gives the exact one: the product
/// and quotient hold as an equation between integers.
pub proof fn mul_div_is_exact(d: DecimalModel, num: nat, den: nat)
    ensures
        mul_div(d, num, den) matches Some(r) ==> {
            &&& den > 0
            &&& r.normal()
            &&& r.mantissa * den * pow10(d.scale) == d.mantissa * num * pow10(r.scale)
        },
{
    if mul_div(d, num, den) is Some {
        let g = gcd_or_one(num, den);
        gcd_divides(num, den);
        let n1 = num / g;
        let d1 = den / g;
        let m = abs(d.mantissa);
        let h = gcd_or_one(m, d1);
        gcd_divides(m, d1);
        let left = d1 / h;
        lemma_fundamental_div_mod(num as int, g as int);
        lemma_fundamental_div_mod(den as int, g as int);
        lemma_fundamental_div_mod(m as int, h as int);
        lemma_fundamental_div_mod(d1 as int, h as int);
        let m1 = m / h;
        assert(d1 > 0) by (nonlinear_arith)
            requires
                den > 0,
                den as int == g * d1,
        ;
        assert(left > 0) by (nonlinear_arith)
            requires
                d1 > 0,
                d1 as int == h * left,
        ;
        let twos = exponent(2, left);
        let odd = cofactor(2, left);
        exponent_cofactor(2, left);
        let fives = exponent(5, odd);
        exponent_cofactor(5, odd);
        lemma_pow_positive(5, twos);
        lemma_pow_positive(2, fives);
        let f = pow(5, twos);
        let t = pow(2, fives);
        let tt = pow(2, twos);
        let ff = pow(5, fives);
        let mag = m1 * n1 * f as nat * t as nat;
        let mantissa = signed(d.mantissa < 0, mag);
        let scale = d.scale + twos + fives;
        let r = normalized(mantissa, scale);
        normalized_keeps(mantissa, scale);
        // left == 2^twos * 5^fives and 10^k == 2^k * 5^k
        assert(left as int == tt * ff) by {
            assert(ff * 1 == ff);
        }
        pow10_is(twos);
        pow10_is(fives);
        pow10_adds(d.scale, twos);
        pow10_adds(d.scale + twos, fives);
        pow10_positive(scale);
        let p0 = pow10(d.scale) as int;
        let p2 = pow10(twos) as int;
        let p5 = pow10(fives) as int;
        let ps = pow10(scale) as int;
        let pr = pow10(r.scale) as int;
        assert(ps == p0 * p2 * p5);
        // mag * den == m * num * 10^(twos + fives)
        assert(mag as int == m1 * n1 * f * t);
        assert(den as int == g * (h * left));
        assert(mag as int * den as int == m as int * num as int * (p2 * p5)) by {
            regroup(m1 as int, n1 as int, f, t, g as int, h as int, tt, ff);
        }
        let neg = d.mantissa < 0;
        assert(mantissa * den as int == d.mantissa * num as int * (p2 * p5)) by (nonlinear_arith)
            requires
                mag as int * den as int == m as int * num as int * (p2 * p5),
                mantissa == signed(neg, mag),
                d.mantissa == signed(neg, m),
        ;
        // r.mantissa * 10^scale == mantissa * 10^r.scale
        assert((r.mantissa * den as int * p0) * (p2 * p5) == (d.mantissa * num as int * pr) * (p2
            * p5)) by (nonlinear_arith)
            requires
                r.mantissa * ps == mantissa * pr,
                ps == p0 * p2 * p5,
                mantissa * den as int == d.mantissa * num as int * (p2 * p5),
        ;
        pow10_positive(twos);
        pow10_positive(fives);
        assert(p2 * p5 > 0) by (nonlinear_arith)
            requires
                p2 > 0,
                p5 > 0,
        ;
        cancel(p2 * p5, r.mantissa * den as int * p0, d.mantissa * num as int * pr);
    }
}

proof fn regroup(m: int, n: int, f: int, t: int, g: int, h: int, tt: int, ff: int)
    ensures
        (m * n * f * t) * (g * (h * (tt * ff))) == ((h * m) * (g * n)) * ((tt * f) * (t * ff)),
{
    let a = m * n;
    let b = g * h;
    let u = f * t;
    let v = tt * ff;
    assert(m * n * f * t == a * u) by (nonlinear_arith)
        requires
            a == m * n,
            u == f * t,
    ;
    assert(g * (h * v) == b * v) by (nonlinear_arith)
        requires
            b == g * h,
    ;
    assert((h * m) * (g * n) == b * a) by (nonlinear_arith)
        requires
            a == m * n,
            b == g * h,
    ;
    assert((tt * f) * (t * ff) == u * v) by (nonlinear_arith)
        requires
            u == f * t,
            v == tt * ff,
    ;
    assert((a * u) * (b * v) == (b * a) * (u * v)) by (nonlinear_arith);
}

proof fn cancel(p: int, x: int, y: int)
    requires
        p > 0,
        x * p == y * p,
    ensures
        x == y,
{
    assert(x == y) by (nonlinear_arith)
        requires
            p > 0,
            x * p == y * p,
    ;
}

proof fn pow10_is(n: nat)
    ensures
        pow10(n) == pow(2, n) * pow(5, n),
        pow10(n) == pow(5, n) * pow(2, n),
    decreases n,
{
    reveal(pow);
    if n > 0 {
        pow10_is((n - 1) as nat);
        let a = pow(2, (n - 1) as nat);
        let b = pow(5, (n - 1) as nat);
        assert(10 * (a * b) == (2 * a) * (5 * b)) by (nonlinear_arith);
    }
    let x = pow(2, n);
    let y = pow(5, n);
    assert(x * y == y * x) by (nonlinear_arith);
}

/// The magnitude of a mantissa.
fn unsigned(m: i128) -> (r: u128)
    ensures
        r == abs(m as int),
{
    if m < 0 {
        (-(m + 1)) as u128 + 1
    } else {
        m as u128
    }
}

/// A mantissa from its sign and magnitude, where it fits.
fn with_sign(negative: bool, m: u128) -> (r: Option<i128>)
    ensures
        match r {
            Some(x) => x == signed(negative, m as nat),
            None => !(i128::MIN <= signed(negative, m as nat) <= i128::MAX),
        },
{
    if m <= i128::MAX as u128 {
        if negative {
            Some(-(m as i128))
        } else {
            Some(m as i128)
        }
    } else if negative && m == i128::MAX as u128 + 1 {
        Some(i128::MIN)
    } else {
        None
    }
}

impl Decimal {
    #[verifier::type_invariant]
    spec fn well_formed(self) -> bool {
        self@.normal()
    }

    /// Every decimal is normalized and in range.
    pub fn facts(&self)
        ensures
            self@.normal(),
            self@.in_range(),
    {
        proof {
            use_type_invariant(self);
        }
    }

    pub fn from_i64(value: i64) -> (r: Self)
        ensures
            r@ == (DecimalModel { mantissa: value as int, scale: 0 }),
    {
        Decimal { mantissa: value as i128, scale: 0 }
    }

    /// Exact or nothing: `Some` only for whole numbers that fit.
    pub fn to_i64(&self) -> (r: Option<i64>)
        ensures
            match r {
                Some(v) => self@ == (DecimalModel { mantissa: v as int, scale: 0 }),
                None => self@.scale != 0 || !(i64::MIN <= self@.mantissa <= i64::MAX),
            },
    {
        if self.scale != 0 {
            return None;
        }
        if i64::MIN as i128 <= self.mantissa && self.mantissa <= i64::MAX as i128 {
            Some(self.mantissa as i64)
        } else {
            None
        }
    }

    /// Exact `self * num / den`, or `None` where the result has no finite
    /// decimal representation or does not fit. Never rounds.
    #[verifier::rlimit(40)]
    pub fn mul_div_exact(&self, num: u64, den: u64) -> (r: Option<Decimal>)
        ensures
            match r {
                Some(d) => mul_div(self@, num as nat, den as nat) == Some(d@),
                None => mul_div(self@, num as nat, den as nat) is None,
            },
    {
        if den == 0 {
            return None;
        }
        let negative = self.mantissa < 0;
        let magnitude = unsigned(self.mantissa);
        let g = gcd(num as u128, den as u128);
        proof {
            gcd_divides(num as nat, den as nat);
        }
        let n1 = num as u128 / g;
        let d1 = den as u128 / g;
        let h = gcd(magnitude, d1);
        let m1 = magnitude / h;
        let left = d1 / h;
        proof {
            gcd_divides(magnitude as nat, d1 as nat);
            lemma_fundamental_div_mod(den as int, g as int);
            lemma_fundamental_div_mod(d1 as int, h as int);
            assert(d1 > 0) by (nonlinear_arith)
                requires
                    den > 0,
                    den as int == g * d1,
            ;
            assert(left > 0) by (nonlinear_arith)
                requires
                    d1 > 0,
                    d1 as int == h * left,
            ;
        }
        let (twos, odd) = take_out(2, left);
        let (fives, other) = take_out(5, odd);
        if other != 1 {
            return None;
        }
        let ghost whole = (m1 * n1 * pow(5, twos as nat) as nat * pow(2, fives as nat) as nat) as nat;
        let ghost whole_scale = (self.scale + twos + fives) as nat;
        proof {
            lemma_fundamental_div_mod(num as int, g as int);
            lemma_pow_positive(5, twos as nat);
            lemma_pow_positive(2, fives as nat);
            normalized_sign(whole, whole_scale);
            normalized_keeps(whole as int, whole_scale);
            normalized_keeps(-(whole as int), whole_scale);
        }
        if m1 == 0 || n1 == 0 {
            proof {
                assert(whole == 0) by (nonlinear_arith)
                    requires
                        m1 == 0 || n1 == 0,
                        whole == m1 * n1 * pow(5, twos as nat) * pow(2, fives as nat),
                ;
                nothing_is_normal(whole_scale);
            }
            return Some(Decimal { mantissa: 0, scale: 0 });
        }
        let (m_twos, m_odd) = take_out(2, m1);
        let (m_fives, m_core) = take_out(5, m_odd);
        let (n_twos, n_odd) = take_out(2, n1);
        let (n_fives, n_core) = take_out(5, n_odd);
        let x = m_twos + n_twos + fives;
        let y = m_fives + n_fives + twos;
        let total: u64 = self.scale as u64 + twos as u64 + fives as u64;
        let mut t: u64 = if x < y {
            x as u64
        } else {
            y as u64
        };
        if total < t {
            t = total;
        }
        let ghost core = (m_core * n_core) as nat;
        let ghost reduced = (core * pow(2, (x - t) as nat) as nat * pow(5, (y - t) as nat) as nat)
            as nat;
        proof {
            product_factors(m1 as nat, n1 as nat, twos as nat, fives as nat);
            assert(whole == core * pow(2, x as nat) * pow(5, y as nat));
            core_is_coprime(m1 as nat, n1 as nat);
            factors_normalize(core, x as nat, y as nat, whole_scale, t as nat);
            lemma_pow_positive(2, (x - t) as nat);
            lemma_pow_positive(5, (y - t) as nat);
        }
        let m = match multiplied(m_core, n_core, x as u64 - t, y as u64 - t) {
            Some(m) => m,
            None => {
                return None;
            },
        };
        let mantissa = match with_sign(negative, m) {
            Some(m) => m,
            None => {
                return None;
            },
        };
        if total - t > u32::MAX as u64 {
            return None;
        }
        Some(Decimal { mantissa, scale: (total - t) as u32 })
    }

    /// Reads `[-]digits[.digits]`, with either side of the point possibly
    /// empty, and normalizes.
    #[verifier::rlimit(40)]
    pub fn parse(s: &str) -> (r: Result<Self, PrimitiveError>)
        ensures
            order::result_model(r) == parsed(s@),
    {
        let text = chars_of(s);
        let n = text.len();
        let negative = n > 0 && text[0] == '-';
        let start: usize = if negative {
            1
        } else {
            0
        };
        let ghost rest = unsigned_part(s@);
        assert(rest =~= s@.skip(start as int));
        let dot = find_point(&text, start);
        let after: usize = if dot < n {
            dot + 1
        } else {
            n
        };
        let ghost whole = rest.take(point(rest));
        let ghost fraction = if point(rest) < rest.len() {
            rest.skip(point(rest) + 1)
        } else {
            Seq::empty()
        };
        assert(whole =~= s@.subrange(start as int, dot as int));
        assert(fraction =~= s@.subrange(after as int, n as int));
        if dot == start && after == n {
            return Err(PrimitiveError::Malformed("empty decimal"));
        }
        if !digits_between(&text, start, dot) || !digits_between(&text, after, n) {
            return Err(PrimitiveError::Malformed("non-digit in decimal"));
        }
        let end = trim_zeros(&text, after, n);
        let ghost kept = trimmed(fraction);
        proof {
            trimmed_last(fraction);
            value_of_two(whole, kept);
            if kept.len() > 0 {
                assert((whole + kept).last() == kept.last());
                assert(kept.last() == fraction[kept.len() - 1]);
            }
            assert(text::all_digits(kept));
        }
        let high = match read_digits(&text, start, dot, 0) {
            Some(x) => x,
            None => {
                proof {
                    fold_grows(text::decimal_value(whole), kept, 0);
                    assert(kept.take(0) =~= Seq::<char>::empty());
                    value_is_fold(whole);
                }
                return Err(PrimitiveError::OutOfRange("decimal too large"));
            },
        };
        proof {
            value_is_fold(whole);
        }
        let mantissa = match read_digits(&text, after, end, high) {
            Some(x) => x,
            None => {
                return Err(PrimitiveError::OutOfRange("decimal too large"));
            },
        };
        if mantissa == 0 {
            return Ok(Decimal { mantissa: 0, scale: 0 });
        }
        if end - after > u32::MAX as usize {
            return Err(PrimitiveError::OutOfRange("decimal too large"));
        }
        let signed_mantissa = if negative {
            -mantissa
        } else {
            mantissa
        };
        Ok(Decimal { mantissa: signed_mantissa, scale: (end - after) as u32 })
    }

    /// The canonical text.
    pub fn to_string(&self) -> (r: String)
        ensures
            r@ == rendered(self@),
    {
        let mut out: Vec<char> = Vec::new();
        if self.mantissa < 0 {
            out.push('-');
        }
        let ds = digits_text(unsigned(self.mantissa));
        let n = ds.len();
        let ghost sign = out@;
        let ghost d = text::digits(abs(self@.mantissa));
        if self.scale == 0 {
            append_chars(&mut out, &ds, 0, n);
            assert(ds@.subrange(0, n as int) =~= d);
        } else if n as u64 > self.scale as u64 {
            let cut: usize = n - self.scale as usize;
            append_chars(&mut out, &ds, 0, cut);
            out.push('.');
            append_chars(&mut out, &ds, cut, n);
            assert(out@ =~= sign + d.take(cut as int) + seq!['.'] + d.skip(cut as int));
        } else {
            out.push('0');
            out.push('.');
            let ghost head = out@;
            let mut k: u32 = 0;
            let pad: u32 = self.scale - n as u32;
            while k < pad
                invariant
                    k <= pad,
                    out@ == head + zeros(k as nat),
                decreases pad - k,
            {
                out.push('0');
                k += 1;
                assert(zeros(k as nat) =~= zeros((k - 1) as nat).push('0'));
            }
            append_chars(&mut out, &ds, 0, n);
            assert(ds@.subrange(0, n as int) =~= d);
            assert(out@ =~= sign + seq!['0', '.'] + zeros(pad as nat) + d);
        }
        let r = text_of(&out);
        assert(r@ =~= rendered(self@));
        r
    }

    /// The exact order of the numbers.
    pub fn compare(&self, other: &Self) -> (o: Order)
        ensures
            o == decimal_order(self@, other@),
    {
        self.compare_times(1, other, 1)
    }

    /// The exact order of `self * f` and `other * g`, whether or not the
    /// products fit.
    pub fn compare_times(&self, f: u64, other: &Self, g: u64) -> (o: Order)
        requires
            0 < f <= 1_000_000_000,
            0 < g <= 1_000_000_000,
        ensures
            o == decimal_order(times(self@, f as nat), times(other@, g as nat)),
    {
        let a_negative = self.mantissa < 0;
        let b_negative = other.mantissa < 0;
        proof {
            let pa = pow10(self.scale as nat) as int;
            let pb = pow10(other.scale as nat) as int;
            pow10_positive(self.scale as nat);
            pow10_positive(other.scale as nat);
            let m = self.mantissa as int;
            let n = other.mantissa as int;
            let a = m * f;
            let b = n * g;
            sign_of_product(m, f as int);
            sign_of_product(n, g as int);
            sign_of_product(a, pb);
            sign_of_product(b, pa);
        }
        if a_negative && !b_negative {
            return Order::Less;
        }
        if !a_negative && b_negative {
            return Order::Greater;
        }
        let x = wide_product(unsigned(self.mantissa), f);
        let y = wide_product(unsigned(other.mantissa), g);
        let o = compare_magnitudes(&x, self.scale, &y, other.scale);
        if a_negative {
            match o {
                Order::Less => Order::Greater,
                Order::Equal => Order::Equal,
                Order::Greater => Order::Less,
            }
        } else {
            o
        }
    }
}

/// A number times a whole number, not brought to normal form.
pub open spec fn times(d: DecimalModel, f: nat) -> DecimalModel {
    DecimalModel { mantissa: d.mantissa * f, scale: d.scale }
}

proof fn sign_of_product(m: int, p: int)
    requires
        p > 0,
    ensures
        m < 0 ==> m * p < 0,
        m >= 0 ==> m * p >= 0,
        (-m) * p == -(m * p),
{
    assert(m < 0 ==> m * p < 0) by (nonlinear_arith)
        requires
            p > 0,
    ;
    assert(m >= 0 ==> m * p >= 0) by (nonlinear_arith)
        requires
            p > 0,
    ;
    assert((-m) * p == -(m * p)) by (nonlinear_arith);
}

proof fn grows(x: int, y: int)
    requires
        x >= 0,
        y >= 1,
    ensures
        x * y >= x,
{
    assert(x * y >= x) by (nonlinear_arith)
        requires
            x >= 0,
            y >= 1,
    ;
}

/// The text behind a leading minus sign, if there is one.
pub open spec fn unsigned_part(s: Seq<char>) -> Seq<char> {
    if s.len() > 0 && s[0] == '-' {
        s.skip(1)
    } else {
        s
    }
}

/// The place of the first point, or the length where there is none.
pub open spec fn point(s: Seq<char>) -> int
    decreases s.len(),
{
    if s.len() == 0 || s[0] == '.' {
        0
    } else {
        1 + point(s.drop_first())
    }
}

proof fn first_dot_is(s: Seq<char>, p: int)
    requires
        0 <= p <= s.len(),
        p < s.len() ==> s[p] == '.',
        forall|i: int| 0 <= i < p ==> #[trigger] s[i] != '.',
    ensures
        point(s) == p,
    decreases s.len(),
{
    if p > 0 {
        assert forall|i: int| 0 <= i < p - 1 implies #[trigger] s.drop_first()[i] != '.' by {
            assert(s.drop_first()[i] == s[i + 1]);
        }
        first_dot_is(s.drop_first(), p - 1);
    }
}

/// Without trailing zeros.
pub open spec fn trimmed(s: Seq<char>) -> Seq<char>
    decreases s.len(),
{
    if s.len() > 0 && s.last() == '0' {
        trimmed(s.drop_last())
    } else {
        s
    }
}

proof fn trimmed_last(s: Seq<char>)
    ensures
        trimmed(s).len() > 0 ==> trimmed(s).last() != '0',
        trimmed(s).len() <= s.len(),
        trimmed(s) == s.take(trimmed(s).len() as int),
    decreases s.len(),
{
    if s.len() > 0 && s.last() == '0' {
        trimmed_last(s.drop_last());
        let t = trimmed(s.drop_last());
        assert(s.take(t.len() as int) =~= s.drop_last().take(t.len() as int));
    } else {
        assert(s.take(s.len() as int) =~= s);
    }
}

/// The number that `acc` becomes when the digits of `s` are written
/// behind it.
pub open spec fn fold_digits(acc: nat, s: Seq<char>) -> nat
    decreases s.len(),
{
    if s.len() == 0 {
        acc
    } else {
        10 * fold_digits(acc, s.drop_last()) + text::digit_value(s.last())
    }
}

proof fn value_is_fold(s: Seq<char>)
    ensures
        text::decimal_value(s) == fold_digits(0, s),
    decreases s.len(),
{
    if s.len() > 0 {
        value_is_fold(s.drop_last());
    }
}

proof fn value_of_two(a: Seq<char>, b: Seq<char>)
    ensures
        text::decimal_value(a + b) == fold_digits(text::decimal_value(a), b),
    decreases b.len(),
{
    if b.len() == 0 {
        assert(a + b =~= a);
    } else {
        assert((a + b).drop_last() =~= a + b.drop_last());
        value_of_two(a, b.drop_last());
    }
}

proof fn fold_grows(acc: nat, s: Seq<char>, i: int)
    requires
        0 <= i <= s.len(),
    ensures
        fold_digits(acc, s.take(i)) <= fold_digits(acc, s),
    decreases s.len() - i,
{
    if i == s.len() {
        assert(s.take(i) =~= s);
    } else {
        fold_grows(acc, s, i + 1);
        assert(s.take(i + 1).drop_last() =~= s.take(i));
    }
}

/// The place of the first point at or after `start`, or the end.
fn find_point(text: &Vec<char>, start: usize) -> (dot: usize)
    requires
        start <= text@.len(),
    ensures
        start <= dot <= text@.len(),
        point(text@.skip(start as int)) == dot - start,
        dot < text@.len() ==> text@[dot as int] == '.',
{
    let ghost rest = text@.skip(start as int);
    let mut dot: usize = start;
    while dot < text.len() && text[dot] != '.'
        invariant
            start <= dot <= text@.len(),
            rest == text@.skip(start as int),
            forall|i: int| 0 <= i < dot - start ==> #[trigger] rest[i] != '.',
        decreases text@.len() - dot,
    {
        dot += 1;
    }
    proof {
        first_dot_is(rest, dot - start);
    }
    dot
}

/// Whether `text[from..to]` holds digits only.
fn digits_between(text: &Vec<char>, from: usize, to: usize) -> (r: bool)
    requires
        from <= to <= text@.len(),
    ensures
        r == text::all_digits(text@.subrange(from as int, to as int)),
{
    let ghost part = text@.subrange(from as int, to as int);
    let mut i: usize = from;
    while i < to
        invariant
            from <= i <= to <= text@.len(),
            part == text@.subrange(from as int, to as int),
            forall|j: int| 0 <= j < i - from ==> text::is_digit(#[trigger] part[j]),
        decreases to - i,
    {
        assert(part[i - from] == text@[i as int]);
        if !is_digit_char(text[i]) {
            return false;
        }
        i += 1;
    }
    true
}

/// Where `text[from..to]` ends once its trailing zeros are cut off.
fn trim_zeros(text: &Vec<char>, from: usize, to: usize) -> (end: usize)
    requires
        from <= to <= text@.len(),
    ensures
        from <= end <= to,
        text@.subrange(from as int, end as int) == trimmed(text@.subrange(from as int, to as int)),
{
    let mut end: usize = to;
    while end > from && text[end - 1] == '0'
        invariant
            from <= end <= to <= text@.len(),
            trimmed(text@.subrange(from as int, end as int)) == trimmed(
                text@.subrange(from as int, to as int),
            ),
        decreases end,
    {
        assert(text@.subrange(from as int, end as int).drop_last() =~= text@.subrange(
            from as int,
            end - 1,
        ));
        end = end - 1;
    }
    end
}

/// Writes the digits of `text[from..to]` behind `acc`.
fn read_digits(text: &Vec<char>, from: usize, to: usize, acc: i128) -> (r: Option<i128>)
    requires
        from <= to <= text@.len(),
        acc >= 0,
        text::all_digits(text@.subrange(from as int, to as int)),
    ensures
        match r {
            Some(v) => v >= 0 && v == fold_digits(
                acc as nat,
                text@.subrange(from as int, to as int),
            ),
            None => fold_digits(acc as nat, text@.subrange(from as int, to as int)) > i128::MAX,
        },
{
    let ghost part = text@.subrange(from as int, to as int);
    let mut m: i128 = acc;
    let mut i: usize = from;
    assert(part.take(0) =~= Seq::<char>::empty());
    while i < to
        invariant
            from <= i <= to <= text@.len(),
            part == text@.subrange(from as int, to as int),
            text::all_digits(part),
            acc >= 0,
            m >= 0,
            m == fold_digits(acc as nat, part.take(i - from)),
        decreases to - i,
    {
        assert(part[i - from] == text@[i as int]);
        let v = digit_number(text[i]);
        proof {
            assert(part.take(i - from + 1).drop_last() =~= part.take(i - from));
            fold_grows(acc as nat, part, i - from + 1);
        }
        m = match m.checked_mul(10) {
            Some(x) => x,
            None => {
                return None;
            },
        };
        m = match m.checked_add(v as i128) {
            Some(x) => x,
            None => {
                return None;
            },
        };
        i += 1;
    }
    assert(part.take(part.len() as int) =~= part);
    Some(m)
}

/// The decimal that a text spells out.
pub open spec fn parsed(s: Seq<char>) -> Result<DecimalModel, PrimitiveErrorModel> {
    let negative = s.len() > 0 && s[0] == '-';
    let rest = unsigned_part(s);
    let whole = rest.take(point(rest));
    let fraction = if point(rest) < rest.len() {
        rest.skip(point(rest) + 1)
    } else {
        Seq::empty()
    };
    let kept = trimmed(fraction);
    let mantissa = text::decimal_value(whole + kept);
    if whole.len() == 0 && fraction.len() == 0 {
        Err(PrimitiveErrorModel::Malformed("empty decimal"@))
    } else if !text::all_digits(whole) || !text::all_digits(fraction) {
        Err(PrimitiveErrorModel::Malformed("non-digit in decimal"@))
    } else if mantissa > i128::MAX {
        Err(PrimitiveErrorModel::OutOfRange("decimal too large"@))
    } else if mantissa == 0 {
        Ok(DecimalModel { mantissa: 0, scale: 0 })
    } else if kept.len() > u32::MAX {
        Err(PrimitiveErrorModel::OutOfRange("decimal too large"@))
    } else {
        Ok(DecimalModel { mantissa: signed(negative, mantissa), scale: kept.len() })
    }
}

pub open spec fn zeros(n: nat) -> Seq<char> {
    Seq::new(n, |i: int| '0')
}

/// The canonical text of a decimal.
pub open spec fn rendered(d: DecimalModel) -> Seq<char> {
    let sign = if d.mantissa < 0 {
        seq!['-']
    } else {
        Seq::empty()
    };
    let ds = text::digits(abs(d.mantissa));
    if d.scale == 0 {
        sign + ds
    } else if ds.len() > d.scale {
        let cut = ds.len() - d.scale;
        sign + ds.take(cut) + seq!['.'] + ds.skip(cut)
    } else {
        sign + seq!['0', '.'] + zeros((d.scale - ds.len()) as nat) + ds
    }
}

proof fn zeros_value(n: nat, s: Seq<char>)
    ensures
        text::decimal_value(zeros(n) + s) == text::decimal_value(s),
    decreases s.len(), n,
{
    if s.len() > 0 {
        assert((zeros(n) + s).drop_last() =~= zeros(n) + s.drop_last());
        zeros_value(n, s.drop_last());
    } else if n > 0 {
        assert((zeros(n) + s).drop_last() =~= zeros((n - 1) as nat) + s);
        zeros_value((n - 1) as nat, s);
    } else {
        assert(zeros(n) + s =~= s);
    }
}

/// Reading back the canonical text of a decimal gives that decimal.
/// The one mantissa whose magnitude has no positive counterpart is left
/// out: its digits are too large to read.
#[verifier::rlimit(40)]
pub proof fn parse_of_rendered(d: DecimalModel)
    requires
        d.normal(),
        d.in_range(),
        d.mantissa != i128::MIN,
    ensures
        parsed(rendered(d)) == Ok::<DecimalModel, PrimitiveErrorModel>(d),
{
    let s = rendered(d);
    let m = abs(d.mantissa);
    let ds = text::digits(m);
    text::digits_spell(m);
    let rest = unsigned_part(s);
    assert(ds[0] != '-');
    assert forall|i: int| 0 <= i < ds.len() implies text::is_digit(#[trigger] ds[i]) && ds[i]
        != '.' by {}
    if d.scale == 0 {
        assert(rest =~= ds);
        first_dot_is(rest, ds.len() as int);
        assert(rest.take(point(rest)) =~= ds);
        assert(ds + trimmed(Seq::<char>::empty()) =~= ds);
    } else {
        let cut = ds.len() - d.scale;
        let whole = if cut > 0 {
            ds.take(cut)
        } else {
            seq!['0']
        };
        let fraction = if cut > 0 {
            ds.skip(cut)
        } else {
            zeros((-cut) as nat) + ds
        };
        assert(rest =~= whole + seq!['.'] + fraction);
        assert forall|i: int| 0 <= i < whole.len() implies #[trigger] rest[i] != '.' by {
            if cut > 0 {
                assert(rest[i] == ds[i]);
            }
        }
        assert(rest[whole.len() as int] == '.');
        first_dot_is(rest, whole.len() as int);
        assert(rest.take(point(rest)) =~= whole);
        assert(rest.skip(point(rest) + 1) =~= fraction);
        assert forall|i: int| 0 <= i < fraction.len() implies text::is_digit(#[trigger] fraction[i]) by {
            if cut > 0 {
                assert(fraction[i] == ds[i + cut]);
            } else if i >= -cut {
                assert(fraction[i] == ds[i + cut]);
            }
        }
        assert forall|i: int| 0 <= i < whole.len() implies text::is_digit(#[trigger] whole[i]) by {
            if cut > 0 {
                assert(whole[i] == ds[i]);
            }
        }
        assert(fraction.last() == ds.last());
        assert(ds.last() == text::digit_char(m % 10));
        assert(m % 10 != 0);
        assert(trimmed(fraction) == fraction);
        if cut > 0 {
            assert(whole + fraction =~= ds);
        } else {
            assert(whole + fraction =~= zeros((1 - cut) as nat) + ds);
            zeros_value((1 - cut) as nat, ds);
        }
        assert(m > 0);
    }
}

/// What a text says behind its first point.
spec fn behind_point(s: Seq<char>) -> Seq<char> {
    if point(s) < s.len() {
        s.skip(point(s) + 1)
    } else {
        Seq::empty()
    }
}

/// The canonical text of a decimal spells its sign, its digits and its
/// scale.
proof fn rendered_spells(d: DecimalModel)
    ensures
        ({
            let s = rendered(d);
            let rest = unsigned_part(s);
            &&& s.len() > 0
            &&& (s[0] == '-') == (d.mantissa < 0)
            &&& 0 <= point(rest) <= rest.len()
            &&& text::decimal_value(rest.take(point(rest)) + behind_point(rest)) == abs(d.mantissa)
            &&& behind_point(rest).len() == d.scale
        }),
{
    let s = rendered(d);
    let m = abs(d.mantissa);
    let ds = text::digits(m);
    text::digits_spell(m);
    let rest = unsigned_part(s);
    assert(text::is_digit(ds[0]));
    assert forall|i: int| 0 <= i < ds.len() implies #[trigger] ds[i] != '.' by {
        assert(text::is_digit(ds[i]));
    }
    if d.scale == 0 {
        assert(rest =~= ds);
        first_dot_is(rest, ds.len() as int);
        assert(rest.take(point(rest)) + behind_point(rest) =~= ds);
    } else {
        let cut = ds.len() - d.scale;
        let whole = if cut > 0 {
            ds.take(cut)
        } else {
            seq!['0']
        };
        let fraction = if cut > 0 {
            ds.skip(cut)
        } else {
            zeros((-cut) as nat) + ds
        };
        assert(rest =~= whole + seq!['.'] + fraction);
        assert forall|i: int| 0 <= i < whole.len() implies #[trigger] rest[i] != '.' by {
            if cut > 0 {
                assert(rest[i] == ds[i]);
            }
        }
        assert(rest[whole.len() as int] == '.');
        first_dot_is(rest, whole.len() as int);
        assert(rest.take(point(rest)) =~= whole);
        assert(behind_point(rest) =~= fraction);
        if cut > 0 {
            assert(whole + fraction =~= ds);
        } else {
            assert(whole + fraction =~= zeros((1 - cut) as nat) + ds);
            zeros_value((1 - cut) as nat, ds);
        }
    }
}

/// Different decimals have different canonical texts.
pub proof fn rendered_is_unique(a: DecimalModel, b: DecimalModel)
    requires
        rendered(a) == rendered(b),
    ensures
        a == b,
{
    rendered_spells(a);
    rendered_spells(b);
}

/// Distinct normalized decimals are distinct numbers.
pub proof fn normal_is_unique(a: DecimalModel, b: DecimalModel)
    requires
        a.normal(),
        b.normal(),
        decimal_order(a, b) == Order::Equal,
    ensures
        a == b,
{
    if a.scale < b.scale {
        scale_tie(a, b);
    } else if b.scale < a.scale {
        scale_tie(b, a);
    } else {
        pow10_positive(a.scale);
        cancel(pow10(a.scale) as int, a.mantissa, b.mantissa);
    }
}

proof fn scale_tie(a: DecimalModel, b: DecimalModel)
    requires
        a.scale < b.scale,
        a.mantissa * pow10(b.scale) == b.mantissa * pow10(a.scale),
    ensures
        b.mantissa % 10 == 0,
{
    let k = (b.scale - a.scale - 1) as nat;
    pow10_adds(a.scale, (k + 1) as nat);
    let p = pow10(a.scale) as int;
    let t = pow10(k) as int;
    let am = a.mantissa;
    let bm = b.mantissa;
    assert((am * (10 * t)) * p == bm * p) by (nonlinear_arith)
        requires
            am * (p * (10 * t)) == bm * p,
    ;
    pow10_positive(a.scale);
    cancel(p, am * (10 * t), bm);
    assert(bm == 10 * (am * t)) by (nonlinear_arith)
        requires
            am * (10 * t) == bm,
    ;
}

/// The order of the numbers, compared over a common power of ten.
pub open spec fn decimal_order(a: DecimalModel, b: DecimalModel) -> Order {
    let x = a.mantissa * pow10(b.scale);
    let y = b.mantissa * pow10(a.scale);
    if x < y {
        Order::Less
    } else if x == y {
        Order::Equal
    } else {
        Order::Greater
    }
}

/// The digit of weight `10^p`.
fn digit_at(m: u128, p: u64) -> (d: u8)
    ensures
        d as int == (m as int / pow10(p as nat) as int) % 10,
        d < 10,
{
    let mut n = m;
    let mut i: u64 = 0;
    proof {
        lemma_div_basics(m as int);
    }
    while i < p && n > 0
        invariant
            i <= p,
            n as int == m as int / pow10(i as nat) as int,
        decreases p - i,
    {
        proof {
            pow10_positive(i as nat);
            lemma_div_denominator(m as int, pow10(i as nat) as int, 10);
            assert(pow10(i as nat) * 10 == pow10((i + 1) as nat));
        }
        n = n / 10;
        i += 1;
    }
    proof {
        if i < p {
            pow10_positive(i as nat);
            pow10_adds(i as nat, (p - i) as nat);
            pow10_positive((p - i) as nat);
            lemma_div_denominator(
                m as int,
                pow10(i as nat) as int,
                pow10((p - i) as nat) as int,
            );
            lemma_div_basics(pow10((p - i) as nat) as int);
        }
    }
    (n % 10) as u8
}

/// The digit of weight `10^j` in `m * 10^shift`.
fn shifted_digit(m: u128, shift: u64, j: u64) -> (d: u8)
    ensures
        d as int == ((m * pow10(shift as nat)) / pow10(j as nat) as int) % 10,
        d < 10,
{
    if j < shift {
        proof {
            let k = (shift - j - 1) as nat;
            pow10_adds(j as nat, (k + 1) as nat);
            pow10_positive(j as nat);
            let pj = pow10(j as nat) as int;
            let pk = pow10(k) as int;
            assert(m * pow10(shift as nat) == (m * (10 * pk)) * pj) by (nonlinear_arith)
                requires
                    pow10(shift as nat) == pj * (10 * pk),
            ;
            lemma_div_by_multiple(m * (10 * pk), pj);
            assert(m * (10 * pk) == 10 * (m * pk)) by (nonlinear_arith);
            assert((10 * (m * pk)) % 10 == 0);
        }
        0
    } else {
        proof {
            let k = (j - shift) as nat;
            pow10_adds(shift as nat, k);
            pow10_positive(shift as nat);
            pow10_positive(k);
            let ps = pow10(shift as nat) as int;
            let pk = pow10(k) as int;
            lemma_div_denominator(m * ps, ps, pk);
            lemma_div_by_multiple(m as int, ps);
        }
        digit_at(m, j - shift)
    }
}

proof fn power_bound(m: u128)
    ensures
        m < pow10(39),
{
    reveal_with_fuel(pow10, 40);
    assert(pow10(39) == 1000000000000000000000000000000000000000);
}

/// A number of more digits than a machine word holds, in two parts.
struct Wide {
    hi: u128,
    /// The last eighteen digits.
    lo: u128,
}

impl Wide {
    spec fn value(self) -> int {
        self.hi * pow10(18) + self.lo
    }

    spec fn is_split(self) -> bool {
        self.lo < pow10(18)
    }
}

proof fn eighteen()
    ensures
        pow10(18) == 1_000_000_000_000_000_000,
{
    reveal_with_fuel(pow10, 19);
}

/// `m * f` in full.
fn wide_product(m: u128, f: u64) -> (r: Wide)
    requires
        f <= 1_000_000_000,
    ensures
        r.value() == m * f,
        r.is_split(),
{
    let base: u128 = 1_000_000_000_000_000_000;
    let mh: u128 = m / base;
    let ml: u128 = m % base;
    let n: u128 = f as u128;
    proof {
        eighteen();
        assert(mh < 400_000_000_000_000_000_000);
        assert(0 <= mh * n <= 400_000_000_000_000_000_000 * 1_000_000_000) by (nonlinear_arith)
            requires
                0 <= mh < 400_000_000_000_000_000_000,
                0 <= n <= 1_000_000_000,
        ;
        assert(0 <= ml * n <= 1_000_000_000_000_000_000 * 1_000_000_000) by (nonlinear_arith)
            requires
                0 <= ml < 1_000_000_000_000_000_000,
                0 <= n <= 1_000_000_000,
        ;
    }
    let low: u128 = ml * n;
    let r = Wide { hi: mh * n + low / base, lo: low % base };
    proof {
        let b = base as int;
        let q = (low / base) as int;
        let t = (low % base) as int;
        assert((mh * n + q) * b + t == (mh * b + ml) * n) by (nonlinear_arith)
            requires
                ml * n == q * b + t,
        ;
        assert(m == mh * b + ml);
    }
    r
}

/// The digit of weight `10^j` in `m * 10^shift`.
fn wide_digit(m: &Wide, shift: u64, j: u64) -> (d: u8)
    requires
        m.is_split(),
        shift <= 0x1_0000_0000,
    ensures
        d as int == ((m.value() * pow10(shift as nat)) / pow10(j as nat) as int) % 10,
        d < 10,
{
    let ghost s = shift as nat;
    let ghost p = pow10(s) as int;
    let ghost b = pow10(18) as int;
    let ghost top = pow10(s + 18) as int;
    let ghost x = m.value() * p;
    proof {
        pow10_adds(s, 18);
        pow10_positive(s);
        pow10_positive(s + 18);
        pow10_positive(j as nat);
        assert(x == m.hi * top + m.lo * p) by (nonlinear_arith)
            requires
                x == (m.hi * b + m.lo) * p,
                top == p * b,
        ;
        assert(0 <= m.lo * p < top) by (nonlinear_arith)
            requires
                0 <= m.lo < b,
                p > 0,
                top == p * b,
        ;
    }
    if j >= shift + 18 {
        proof {
            let k = (j - shift - 18) as nat;
            pow10_adds(s + 18, k);
            pow10_positive(k);
            let pk = pow10(k) as int;
            lemma_div_denominator(x, top, pk);
            lemma_fundamental_div_mod_converse(x, top, m.hi as int, m.lo * p);
            lemma_div_denominator(m.hi * top, top, pk);
            lemma_div_by_multiple(m.hi as int, top);
            assert(x / top == m.hi);
            assert((m.hi * top) / top == m.hi);
        }
        shifted_digit(m.hi, shift + 18, j)
    } else {
        proof {
            let k = (shift + 18 - j - 1) as nat;
            pow10_adds(j as nat, k + 1);
            let pj = pow10(j as nat) as int;
            let pk = pow10(k) as int;
            let r = m.lo * p;
            assert(x == pj * (10 * (m.hi * pk)) + r) by (nonlinear_arith)
                requires
                    x == m.hi * top + r,
                    top == pj * (10 * pk),
            ;
            lemma_hoist_over_denominator(r, 10 * (m.hi * pk), pj as nat);
            assert(x / pj == r / pj + 10 * (m.hi * pk));
            assert((r / pj + 10 * (m.hi * pk)) % 10 == (r / pj) % 10);
        }
        shifted_digit(m.lo, shift, j)
    }
}

/// Compares `a / 10^sa` with `b / 10^sb`, digit by digit.
fn compare_magnitudes(wa: &Wide, sa: u32, wb: &Wide, sb: u32) -> (o: Order)
    requires
        wa.is_split(),
        wb.is_split(),
    ensures
        o == decimal_order(
            DecimalModel { mantissa: wa.value(), scale: sa as nat },
            DecimalModel { mantissa: wb.value(), scale: sb as nat },
        ),
{
    let ghost a = wa.value();
    let ghost b = wb.value();
    let width: u64 = if sa > sb {
        sa as u64
    } else {
        sb as u64
    };
    let shift_a: u64 = width - sa as u64;
    let shift_b: u64 = width - sb as u64;
    let ghost x = a * pow10(shift_a as nat);
    let ghost y = b * pow10(shift_b as nat);
    let ghost low = (if sa > sb { sb } else { sa }) as nat;
    proof {
        // Both sides of the comparison are x and y over one factor.
        pow10_positive(low);
        pow10_adds(shift_a as nat, low);
        pow10_adds(shift_b as nat, low);
        assert(shift_a + low == sb);
        assert(shift_b + low == sa);
        let pl = pow10(low) as int;
        let pa = pow10(shift_a as nat) as int;
        let pb = pow10(shift_b as nat) as int;
        assert(a * (pa * pl) == x * pl) by (nonlinear_arith)
            requires
                x == a * pa,
        ;
        assert(b * (pb * pl) == y * pl) by (nonlinear_arith)
            requires
                y == b * pb,
        ;
        assert(x < y ==> x * pl < y * pl) by (nonlinear_arith)
            requires
                pl > 0,
        ;
        assert(x > y ==> x * pl > y * pl) by (nonlinear_arith)
            requires
                pl > 0,
        ;
    }
    let mut k: u64 = width + 57;
    proof {
        small_shifted(*wa, shift_a as nat, k as nat);
        small_shifted(*wb, shift_b as nat, k as nat);
        pow10_positive(k as nat);
        lemma_basic_div(x, pow10(k as nat) as int);
        lemma_basic_div(y, pow10(k as nat) as int);
    }
    while k > 0
        invariant
            wa.is_split(),
            wb.is_split(),
            a == wa.value(),
            b == wb.value(),
            a >= 0,
            b >= 0,
            shift_a <= 0x1_0000_0000,
            shift_b <= 0x1_0000_0000,
            x == a * pow10(shift_a as nat),
            y == b * pow10(shift_b as nat),
            x / pow10(k as nat) as int == y / pow10(k as nat) as int,
            x < y ==> decimal_order(
                DecimalModel { mantissa: a, scale: sa as nat },
                DecimalModel { mantissa: b, scale: sb as nat },
            ) == Order::Less,
            x > y ==> decimal_order(
                DecimalModel { mantissa: a, scale: sa as nat },
                DecimalModel { mantissa: b, scale: sb as nat },
            ) == Order::Greater,
        decreases k,
    {
        let da = wide_digit(wa, shift_a, k - 1);
        let db = wide_digit(wb, shift_b, k - 1);
        proof {
            let p = pow10((k - 1) as nat) as int;
            pow10_positive((k - 1) as nat);
            assert(x >= 0) by (nonlinear_arith)
                requires
                    a >= 0,
                    x == a * pow10(shift_a as nat),
            ;
            assert(y >= 0) by (nonlinear_arith)
                requires
                    b >= 0,
                    y == b * pow10(shift_b as nat),
            ;
            lemma_div_denominator(x, p, 10);
            lemma_div_denominator(y, p, 10);
            assert(p * 10 == pow10(k as nat));
            let xp = x / p;
            let yp = y / p;
            assert(xp / 10 == yp / 10);
            if da < db {
                assert(xp < yp);
                if x >= y {
                    lemma_div_is_ordered(y, x, p);
                }
            }
            if da > db {
                assert(xp > yp);
                if x <= y {
                    lemma_div_is_ordered(x, y, p);
                }
            }
        }
        if da < db {
            return Order::Less;
        }
        if da > db {
            return Order::Greater;
        }
        k -= 1;
    }
    proof {
        lemma_div_basics(x);
        lemma_div_basics(y);
        assert(x == y);
    }
    Order::Equal
}

proof fn small_shifted(m: Wide, shift: nat, k: nat)
    requires
        m.is_split(),
        k >= shift + 57,
    ensures
        m.value() >= 0,
        0 <= m.value() * pow10(shift) < pow10(k),
{
    power_bound(m.hi);
    pow10_adds(18, 39);
    pow10_adds(shift, 57);
    pow10_adds(shift + 57, (k - shift - 57) as nat);
    pow10_positive(18);
    pow10_positive(shift);
    pow10_positive((k - shift - 57) as nat);
    let b = pow10(18) as int;
    let t = pow10(39) as int;
    let p = pow10(shift) as int;
    let q = pow10(57) as int;
    let r = pow10((k - shift - 57) as nat) as int;
    let v = m.value();
    assert(0 <= v < q) by (nonlinear_arith)
        requires
            v == m.hi * b + m.lo,
            0 <= m.lo < b,
            0 <= m.hi < t,
            q == b * t,
    ;
    assert(0 <= v * p < p * q) by (nonlinear_arith)
        requires
            0 <= v < q,
            p > 0,
    ;
    assert(p * q <= (p * q) * r) by (nonlinear_arith)
        requires
            p * q > 0,
            r >= 1,
    ;
}

/// Appends `v[from..to]`.
pub fn append_chars(out: &mut Vec<char>, v: &Vec<char>, from: usize, to: usize)
    requires
        from <= to <= v@.len(),
    ensures
        final(out)@ == old(out)@ + v@.subrange(from as int, to as int),
{
    let ghost start = out@;
    let mut i: usize = from;
    while i < to
        invariant
            from <= i <= to <= v@.len(),
            out@ == start + v@.subrange(from as int, i as int),
        decreases to - i,
    {
        out.push(v[i]);
        i += 1;
        assert(v@.subrange(from as int, i as int) =~= v@.subrange(from as int, i - 1).push(
            v@[i - 1],
        ));
    }
}

} // verus!
