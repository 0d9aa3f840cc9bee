//! Exact rational numbers with `i64` numerator and positive `i64` denominator.
//!
//! Coordinates in this crate are exact rationals rather than floats, so the
//! stroke rebasing remap is exact and its algebraic laws (identity, round
//! trip) hold precisely. Specifications model a rational as a pair
//! `(int, int)` of unbounded numerator and denominator; executable operations
//! compute in `i128`, reduce by a common divisor, and report `None` when the
//! result has no `i64` representation.

use vstd::arithmetic::div_mod::{
    lemma_fundamental_div_mod, lemma_fundamental_div_mod_converse, lemma_mod_multiples_basic,
    lemma_mod_self_0, lemma_small_mod,
};
use vstd::prelude::*;

verus! {

/// An exact rational number `num / den`; well-formed when `den > 0`.
#[derive(Clone, Copy, Debug)]
pub struct Frac {
    pub num: i64,
    pub den: i64,
}

impl Frac {
    /// Well-formedness: the denominator is positive.
    pub open spec fn wf(self) -> bool {
        self.den > 0
    }

    /// The mathematical value as an unbounded (numerator, denominator) pair.
    pub open spec fn rv(self) -> (int, int) {
        (self.num as int, self.den as int)
    }

    /// The whole number `n`, as a rational.
    pub fn from_int(n: i64) -> (r: Frac)
        ensures
            r.wf(),
            r.rv() == (n as int, 1int),
    {
        Frac { num: n, den: 1 }
    }

    /// The rational `num / den`; requires a positive denominator.
    pub fn new(num: i64, den: i64) -> (r: Frac)
        requires
            den > 0,
        ensures
            r.wf(),
            r.rv() == (num as int, den as int),
    {
        Frac { num, den }
    }
}

/// Value equality of two rational pairs (cross multiplication).
pub open spec fn rat_eq(a: (int, int), b: (int, int)) -> bool {
    a.0 * b.1 == b.0 * a.1
}

/// `a <= b` on rational pairs with positive denominators.
pub open spec fn rat_le(a: (int, int), b: (int, int)) -> bool {
    a.0 * b.1 <= b.0 * a.1
}

/// Exact sum of two rational pairs.
pub open spec fn rat_add(a: (int, int), b: (int, int)) -> (int, int) {
    (a.0 * b.1 + b.0 * a.1, a.1 * b.1)
}

/// Exact difference of two rational pairs.
pub open spec fn rat_sub(a: (int, int), b: (int, int)) -> (int, int) {
    (a.0 * b.1 - b.0 * a.1, a.1 * b.1)
}

/// Exact product of two rational pairs.
pub open spec fn rat_mul(a: (int, int), b: (int, int)) -> (int, int) {
    (a.0 * b.0, a.1 * b.1)
}

/// Exact quotient of two rational pairs, sign-normalized so that a
/// well-formed quotient again has a positive denominator.
pub open spec fn rat_div(a: (int, int), b: (int, int)) -> (int, int) {
    if b.0 < 0 {
        (-(a.0 * b.1), -(a.1 * b.0))
    } else {
        (a.0 * b.1, a.1 * b.0)
    }
}

/// Whether a rational pair, as written, fits the `i64` representation that
/// the executable operations produce before any reduction.
pub open spec fn rat_fits(p: (int, int)) -> bool {
    -(i64::MAX as int) <= p.0 <= i64::MAX as int && 0 < p.1 <= i64::MAX as int
}

/// `f` lies between zero and `p`, componentwise: the reduced form an
/// operation returns never has larger magnitude than the exact, unreduced
/// result it stands for.
pub open spec fn rat_within(f: (int, int), p: (int, int)) -> bool {
    &&& if p.0 >= 0 {
        0 <= f.0 <= p.0
    } else {
        p.0 <= f.0 <= 0
    }
    &&& 0 < f.1 <= p.1
}

/// `a < b` on rational pairs with positive denominators.
pub open spec fn rat_lt(a: (int, int), b: (int, int)) -> bool {
    a.0 * b.1 < b.0 * a.1
}

/// Greatest common divisor, by Euclid's recursion.
pub open spec fn gcd(a: nat, b: nat) -> nat
    decreases b,
{
    if b == 0 {
        a
    } else {
        gcd(b, a % b)
    }
}

/// The gcd of two naturals, not both zero, is positive and divides both.
pub proof fn lemma_gcd_divides(a: nat, b: nat)
    requires
        a > 0 || b > 0,
    ensures
        gcd(a, b) > 0,
        a % gcd(a, b) == 0,
        b % gcd(a, b) == 0,
    decreases b,
{
    let g = gcd(a, b);
    if b == 0 {
        assert(g == a);
        lemma_mod_self_0(a as int);
        lemma_small_mod(0, a);
    } else {
        let r = (a % b) as nat;
        lemma_gcd_divides(b, r);
        assert(g == gcd(b, r));
        assert(b % g == 0 && r % g == 0);
        // a = (a / b) * b + r, and g divides both b and r, so g divides a.
        lemma_fundamental_div_mod(a as int, b as int);
        lemma_fundamental_div_mod(b as int, g as int);
        lemma_fundamental_div_mod(r as int, g as int);
        let q = a as int / b as int;
        let kb = b as int / g as int;
        let kr = r as int / g as int;
        assert(a as int == (q * kb + kr) * g) by (nonlinear_arith)
            requires
                a as int == q * (b as int) + r,
                b as int == g as int * kb,
                r as int == g as int * kr,
                g == g as int,
        ;
        lemma_mod_multiples_basic(q * kb + kr, g as int);
    }
}

/// Euclid's algorithm on `u128`, mirroring [`gcd`].
fn gcd_u128(a0: u128, b0: u128) -> (g: u128)
    requires
        a0 > 0 || b0 > 0,
    ensures
        g == gcd(a0 as nat, b0 as nat),
        g > 0,
        a0 as nat % g as nat == 0,
        b0 as nat % g as nat == 0,
{
    let mut a = a0;
    let mut b = b0;
    while b != 0
        invariant
            gcd(a as nat, b as nat) == gcd(a0 as nat, b0 as nat),
            a > 0 || b > 0,
        decreases b,
    {
        let t = a % b;
        a = b;
        b = t;
    }
    proof {
        lemma_gcd_divides(a0 as nat, b0 as nat);
    }
    a
}

/// Brings `n / d` to an `i64` representation, after dividing out the
/// greatest common divisor; `None` when even the reduced form does not fit.
fn reduce128(n: i128, d: i128) -> (r: Option<Frac>)
    requires
        d > 0,
        n > i128::MIN,
    ensures
        r matches Some(f) ==> f.wf() && rat_eq(f.rv(), (n as int, d as int)) && rat_within(
            f.rv(),
            (n as int, d as int),
        ),
        -(i64::MAX as int) <= n as int <= i64::MAX as int && d as int <= i64::MAX as int ==> r
            is Some,
{
    let neg = n < 0;
    let na: u128 = if neg {
        (-n) as u128
    } else {
        n as u128
    };
    let g = gcd_u128(na, d as u128);
    let nru = na / g;
    let dru = (d as u128) / g;
    proof {
        lemma_fundamental_div_mod(na as int, g as int);
        lemma_fundamental_div_mod(d as int, g as int);
        assert(na as int == g as int * nru as int);
        assert(d as int == g as int * dru as int);
        assert(dru >= 1 && nru <= na && dru <= d) by (nonlinear_arith)
            requires
                na as int == g as int * nru as int,
                d as int == g as int * dru as int,
                g >= 1,
                d > 0,
                nru >= 0,
                dru >= 0,
        ;
    }
    if nru <= i64::MAX as u128 && dru <= i64::MAX as u128 {
        let num: i64 = if neg {
            -(nru as i64)
        } else {
            nru as i64
        };
        let f = Frac { num, den: dru as i64 };
        proof {
            assert(f.num as int * d as int == n as int * f.den as int) by (nonlinear_arith)
                requires
                    na as int == g as int * nru as int,
                    d as int == g as int * dru as int,
                    f.num as int == if neg { -(nru as int) } else { nru as int },
                    n as int == if neg { -(na as int) } else { na as int },
                    f.den as int == dru as int,
            ;
        }
        Some(f)
    } else {
        None
    }
}

/// Exact sum; `None` when the result has no `i64` representation.
pub fn frac_add(a: &Frac, b: &Frac) -> (r: Option<Frac>)
    requires
        a.wf(),
        b.wf(),
    ensures
        r matches Some(f) ==> f.wf() && rat_eq(f.rv(), rat_add(a.rv(), b.rv())) && rat_within(
            f.rv(),
            rat_add(a.rv(), b.rv()),
        ),
        rat_fits(rat_add(a.rv(), b.rv())) ==> r is Some,
{
    proof {
        lemma_prod_bounds(a.num as int, a.den as int, b.num as int, b.den as int);
    }
    let n = a.num as i128 * b.den as i128 + b.num as i128 * a.den as i128;
    let d = a.den as i128 * b.den as i128;
    reduce128(n, d)
}

/// Exact difference; `None` when the result has no `i64` representation.
pub fn frac_sub(a: &Frac, b: &Frac) -> (r: Option<Frac>)
    requires
        a.wf(),
        b.wf(),
    ensures
        r matches Some(f) ==> f.wf() && rat_eq(f.rv(), rat_sub(a.rv(), b.rv())) && rat_within(
            f.rv(),
            rat_sub(a.rv(), b.rv()),
        ),
        rat_fits(rat_sub(a.rv(), b.rv())) ==> r is Some,
{
    proof {
        lemma_prod_bounds(a.num as int, a.den as int, b.num as int, b.den as int);
    }
    let n = a.num as i128 * b.den as i128 - b.num as i128 * a.den as i128;
    let d = a.den as i128 * b.den as i128;
    reduce128(n, d)
}

/// Exact product; `None` when the result has no `i64` representation.
pub fn frac_mul(a: &Frac, b: &Frac) -> (r: Option<Frac>)
    requires
        a.wf(),
        b.wf(),
    ensures
        r matches Some(f) ==> f.wf() && rat_eq(f.rv(), rat_mul(a.rv(), b.rv())) && rat_within(
            f.rv(),
            rat_mul(a.rv(), b.rv()),
        ),
        rat_fits(rat_mul(a.rv(), b.rv())) ==> r is Some,
{
    proof {
        lemma_prod_bounds(a.num as int, a.den as int, b.num as int, b.den as int);
    }
    let n = a.num as i128 * b.num as i128;
    let d = a.den as i128 * b.den as i128;
    reduce128(n, d)
}

/// Exact quotient by a nonzero rational; `None` when the result has no
/// `i64` representation.
pub fn frac_div(a: &Frac, b: &Frac) -> (r: Option<Frac>)
    requires
        a.wf(),
        b.wf(),
        b.num != 0,
    ensures
        r matches Some(f) ==> f.wf() && rat_eq(f.rv(), rat_div(a.rv(), b.rv())) && rat_within(
            f.rv(),
            rat_div(a.rv(), b.rv()),
        ),
        rat_fits(rat_div(a.rv(), b.rv())) ==> r is Some,
{
    proof {
        lemma_prod_bounds(a.num as int, a.den as int, b.num as int, b.den as int);
    }
    if b.num < 0 {
        let n = -(a.num as i128 * b.den as i128);
        let d = -(a.den as i128 * b.num as i128);
        proof {
            assert((a.den as int) * (b.num as int) < 0) by (nonlinear_arith)
                requires
                    a.den > 0,
                    b.num < 0,
            ;
        }
        reduce128(n, d)
    } else {
        let n = a.num as i128 * b.den as i128;
        let d = a.den as i128 * b.num as i128;
        proof {
            lemma_pos_product(a.den as int, b.num as int);
        }
        reduce128(n, d)
    }
}

/// Value comparison `a <= b`; total, by cross multiplication in `i128`.
pub fn frac_le(a: &Frac, b: &Frac) -> (r: bool)
    requires
        a.wf(),
        b.wf(),
    ensures
        r == rat_le(a.rv(), b.rv()),
{
    proof {
        lemma_prod_bounds(a.num as int, a.den as int, b.num as int, b.den as int);
    }
    a.num as i128 * b.den as i128 <= b.num as i128 * a.den as i128
}

/// Value equality `a == b`; total, by cross multiplication in `i128`.
pub fn frac_eq(a: &Frac, b: &Frac) -> (r: bool)
    requires
        a.wf(),
        b.wf(),
    ensures
        r == rat_eq(a.rv(), b.rv()),
{
    proof {
        lemma_prod_bounds(a.num as int, a.den as int, b.num as int, b.den as int);
    }
    a.num as i128 * b.den as i128 == b.num as i128 * a.den as i128
}

/// The saturation bound of the fixed-point form, far beyond any screen.
pub const FIXED_BOUND: i64 = 0x40000000;

/// The fixed-point form of a rational: its value scaled by 256, rounded
/// toward negative infinity, and saturated at plus or minus `FIXED_BOUND`.
pub open spec fn fixed_of(p: (int, int)) -> int {
    let q = (p.0 * 256) / p.1;
    if q > 0x40000000 {
        0x40000000int
    } else if q < -0x40000000 {
        -0x40000000int
    } else {
        q
    }
}

/// Quantizes a rational to its saturated fixed-point form; total.
pub fn frac_to_fixed(f: &Frac) -> (r: i64)
    requires
        f.wf(),
    ensures
        r == fixed_of(f.rv()),
{
    let d: u128 = f.den as u128;
    if f.num >= 0 {
        let a: u128 = f.num as u128 * 256;
        let q: u128 = a / d;
        proof {
            lemma_fundamental_div_mod(a as int, d as int);
            lemma_fundamental_div_mod_converse(a as int, d as int, q as int, (a % d) as int);
        }
        if q > FIXED_BOUND as u128 {
            FIXED_BOUND
        } else {
            q as i64
        }
    } else {
        // Round toward negative infinity: negate the ceiling of the
        // absolute value.
        let a: u128 = (-(f.num as i128)) as u128 * 256;
        let qc: u128 = (a + d - 1) / d;
        proof {
            let ai = a as int;
            let di = d as int;
            lemma_fundamental_div_mod(ai, di);
            let q0 = ai / di;
            let r0 = ai % di;
            assert(q0 >= 0 && qc >= 0);
            if r0 == 0 {
                assert(ai + di - 1 == q0 * di + (di - 1) && -ai == (-q0) * di + 0)
                    by (nonlinear_arith)
                    requires
                        ai == di * q0 + r0,
                        r0 == 0,
                ;
                lemma_fundamental_div_mod_converse(ai + di - 1, di, q0, di - 1);
                lemma_fundamental_div_mod_converse(-ai, di, -q0, 0);
            } else {
                assert(ai + di - 1 == (q0 + 1) * di + (r0 - 1) && -ai == (-q0 - 1) * di + (di
                    - r0)) by (nonlinear_arith)
                    requires
                        ai == di * q0 + r0,
                ;
                lemma_fundamental_div_mod_converse(ai + di - 1, di, q0 + 1, r0 - 1);
                lemma_fundamental_div_mod_converse(-ai, di, -q0 - 1, di - r0);
            }
        }
        if qc > FIXED_BOUND as u128 {
            -FIXED_BOUND
        } else {
            -(qc as i64)
        }
    }
}

/// Value comparison `a < b`; total, by cross multiplication in `i128`.
pub fn frac_lt(a: &Frac, b: &Frac) -> (r: bool)
    requires
        a.wf(),
        b.wf(),
    ensures
        r == rat_lt(a.rv(), b.rv()),
{
    proof {
        lemma_prod_bounds(a.num as int, a.den as int, b.num as int, b.den as int);
    }
    (a.num as i128 * b.den as i128) < (b.num as i128 * a.den as i128)
}

/// Value equality of rationals is transitive (for a middle value with a
/// nonzero denominator).
pub proof fn lemma_rat_eq_trans(a: (int, int), b: (int, int), c: (int, int))
    requires
        rat_eq(a, b),
        rat_eq(b, c),
        b.1 != 0,
    ensures
        rat_eq(a, c),
{
    assert(a.0 * c.1 == c.0 * a.1) by (nonlinear_arith)
        requires
            a.0 * b.1 == b.0 * a.1,
            b.0 * c.1 == c.0 * b.1,
            b.1 != 0,
    ;
}

/// Rearranging a product of four factors.
proof fn lemma_mul4(p: int, q: int, r: int, s: int)
    by (nonlinear_arith)
    ensures
        (p * q) * (r * s) == (p * r) * (q * s),
        (p * q) * (r * s) == (p * s) * (r * q),
{
}

/// Distributing a sum and a difference over a product.
proof fn lemma_distribute(x: int, y: int, z: int)
    by (nonlinear_arith)
    ensures
        (x + y) * z == x * z + y * z,
        (x - y) * z == x * z - y * z,
{
}

/// Replacing either addend by an equal-valued rational keeps the sum's
/// value.
pub proof fn lemma_rat_add_congr(a: (int, int), a2: (int, int), b: (int, int))
    requires
        rat_eq(a, a2),
    ensures
        rat_eq(rat_add(a, b), rat_add(a2, b)),
        rat_eq(rat_add(b, a), rat_add(b, a2)),
{
    lemma_distribute(a.0 * b.1, b.0 * a.1, a2.1 * b.1);
    lemma_distribute(a2.0 * b.1, b.0 * a2.1, a.1 * b.1);
    lemma_mul4(a.0, b.1, a2.1, b.1);
    lemma_mul4(a2.0, b.1, a.1, b.1);
    lemma_mul4(b.0, a.1, a2.1, b.1);
    lemma_mul4(b.0, a2.1, a.1, b.1);
    assert((a.0 * a2.1) * (b.1 * b.1) == (a2.0 * a.1) * (b.1 * b.1));
    lemma_distribute(b.0 * a.1, a.0 * b.1, b.1 * a2.1);
    lemma_distribute(b.0 * a2.1, a2.0 * b.1, b.1 * a.1);
    lemma_mul4(b.0, a.1, b.1, a2.1);
    lemma_mul4(b.0, a2.1, b.1, a.1);
    lemma_mul4(a.0, b.1, b.1, a2.1);
    lemma_mul4(a2.0, b.1, b.1, a.1);
    assert((a.0 * a2.1) * (b.1 * b.1) == (a.0 * b.1) * (b.1 * a2.1)) by {
        lemma_mul4(a.0, a2.1, b.1, b.1);
        lemma_mul4(a.0, b.1, b.1, a2.1);
    }
}

/// Replacing either side of a difference by an equal-valued rational keeps
/// the difference's value.
pub proof fn lemma_rat_sub_congr(a: (int, int), a2: (int, int), b: (int, int))
    requires
        rat_eq(a, a2),
    ensures
        rat_eq(rat_sub(a, b), rat_sub(a2, b)),
        rat_eq(rat_sub(b, a), rat_sub(b, a2)),
{
    lemma_distribute(a.0 * b.1, b.0 * a.1, a2.1 * b.1);
    lemma_distribute(a2.0 * b.1, b.0 * a2.1, a.1 * b.1);
    lemma_mul4(a.0, b.1, a2.1, b.1);
    lemma_mul4(a2.0, b.1, a.1, b.1);
    lemma_mul4(b.0, a.1, a2.1, b.1);
    lemma_mul4(b.0, a2.1, a.1, b.1);
    assert((a.0 * a2.1) * (b.1 * b.1) == (a2.0 * a.1) * (b.1 * b.1));
    lemma_distribute(b.0 * a.1, a.0 * b.1, b.1 * a2.1);
    lemma_distribute(b.0 * a2.1, a2.0 * b.1, b.1 * a.1);
    lemma_mul4(b.0, a.1, b.1, a2.1);
    lemma_mul4(b.0, a2.1, b.1, a.1);
    lemma_mul4(a.0, b.1, b.1, a2.1);
    lemma_mul4(a2.0, b.1, b.1, a.1);
}

/// Replacing either factor by an equal-valued rational keeps the product's
/// value.
pub proof fn lemma_rat_mul_congr(a: (int, int), a2: (int, int), b: (int, int))
    requires
        rat_eq(a, a2),
    ensures
        rat_eq(rat_mul(a, b), rat_mul(a2, b)),
        rat_eq(rat_mul(b, a), rat_mul(b, a2)),
{
    lemma_mul4(a.0, b.0, a2.1, b.1);
    lemma_mul4(a2.0, b.0, a.1, b.1);
    lemma_mul4(b.0, a.0, b.1, a2.1);
    lemma_mul4(b.0, a2.0, b.1, a.1);
    assert((a.0 * a2.1) * (b.0 * b.1) == (a2.0 * a.1) * (b.0 * b.1));
}

/// Adding and then subtracting the same rational gives back the original
/// value.
pub proof fn lemma_rat_add_sub_inverse(a: (int, int), b: (int, int))
    ensures
        rat_eq(rat_sub(rat_add(b, a), b), a),
{
    assert(((b.0 * a.1 + a.0 * b.1) * b.1 - b.0 * (b.1 * a.1)) * a.1 == a.0 * ((b.1 * a.1) * b.1))
        by (nonlinear_arith);
}

/// A value equal to the quotient `b / c`, multiplied back by `c`, is equal
/// to `b`.
pub proof fn lemma_rat_mul_div_cancel(a: (int, int), b: (int, int), c: (int, int))
    requires
        rat_eq(a, rat_div(b, c)),
        c.0 != 0,
        c.1 != 0,
    ensures
        rat_eq(rat_mul(a, c), b),
{
    if c.0 < 0 {
        assert((a.0 * c.0) * b.1 == b.0 * (a.1 * c.1)) by (nonlinear_arith)
            requires
                a.0 * (-(b.1 * c.0)) == (-(b.0 * c.1)) * a.1,
                c.0 < 0,
                c.1 != 0,
        ;
    } else {
        assert((a.0 * c.0) * b.1 == b.0 * (a.1 * c.1)) by (nonlinear_arith)
            requires
                a.0 * (b.1 * c.0) == (b.0 * c.1) * a.1,
                c.0 > 0,
                c.1 != 0,
        ;
    }
}

/// Cancelling a common nonzero factor on both sides of a rational
/// equality.
pub proof fn lemma_rat_mul_cancel(a: (int, int), b: (int, int), c: (int, int))
    requires
        rat_eq(rat_mul(a, c), rat_mul(b, c)),
        c.0 != 0,
        c.1 != 0,
    ensures
        rat_eq(a, b),
{
    assert((a.0 * c.0) * (b.1 * c.1) == (a.0 * b.1) * (c.0 * c.1)) by (nonlinear_arith);
    assert((b.0 * c.0) * (a.1 * c.1) == (b.0 * a.1) * (c.0 * c.1)) by (nonlinear_arith);
    assert(c.0 * c.1 != 0) by (nonlinear_arith)
        requires
            c.0 != 0,
            c.1 != 0,
    ;
    assert(a.0 * b.1 == b.0 * a.1) by (nonlinear_arith)
        requires
            (a.0 * b.1) * (c.0 * c.1) == (b.0 * a.1) * (c.0 * c.1),
            c.0 * c.1 != 0,
    ;
}

/// Two values with equal differences from the same rational are equal.
pub proof fn lemma_rat_sub_cancel(a: (int, int), b: (int, int), m: (int, int))
    requires
        rat_eq(rat_sub(a, m), rat_sub(b, m)),
        m.1 != 0,
    ensures
        rat_eq(a, b),
{
    assert((a.0 * m.1 - m.0 * a.1) * (b.1 * m.1) == (a.0 * b.1) * (m.1 * m.1) - (m.0 * a.1)
        * (b.1 * m.1)) by (nonlinear_arith);
    assert((b.0 * m.1 - m.0 * b.1) * (a.1 * m.1) == (b.0 * a.1) * (m.1 * m.1) - (m.0 * b.1)
        * (a.1 * m.1)) by (nonlinear_arith);
    assert((m.0 * a.1) * (b.1 * m.1) == (m.0 * b.1) * (a.1 * m.1)) by (nonlinear_arith);
    assert(m.1 * m.1 > 0) by (nonlinear_arith)
        requires
            m.1 != 0,
    ;
    assert(a.0 * b.1 == b.0 * a.1) by (nonlinear_arith)
        requires
            (a.0 * b.1) * (m.1 * m.1) == (b.0 * a.1) * (m.1 * m.1),
            m.1 * m.1 > 0,
    ;
}

/// Replacing the dividend by an equal-valued rational keeps the quotient's
/// value.
pub proof fn lemma_rat_div_congr(a: (int, int), a2: (int, int), b: (int, int))
    requires
        rat_eq(a, a2),
    ensures
        rat_eq(rat_div(a, b), rat_div(a2, b)),
{
    if b.0 < 0 {
        assert((-(a.0 * b.1)) * (-(a2.1 * b.0)) == (-(a2.0 * b.1)) * (-(a.1 * b.0)))
            by (nonlinear_arith)
            requires
                a.0 * a2.1 == a2.0 * a.1,
        ;
    } else {
        assert((a.0 * b.1) * (a2.1 * b.0) == (a2.0 * b.1) * (a.1 * b.0)) by (nonlinear_arith)
            requires
                a.0 * a2.1 == a2.0 * a.1,
        ;
    }
}

/// Sums of equal-valued rationals are equal in value.
pub proof fn lemma_rat_add_both(a: (int, int), a2: (int, int), b: (int, int), b2: (int, int))
    requires
        rat_eq(a, a2),
        rat_eq(b, b2),
        a2.1 != 0,
        b.1 != 0,
    ensures
        rat_eq(rat_add(a, b), rat_add(a2, b2)),
{
    lemma_rat_add_congr(a, a2, b);
    lemma_rat_add_congr(b, b2, a2);
    assert(a2.1 * b.1 != 0) by (nonlinear_arith)
        requires
            a2.1 != 0,
            b.1 != 0,
    ;
    lemma_rat_eq_trans(rat_add(a, b), rat_add(a2, b), rat_add(a2, b2));
}

/// Differences of equal-valued rationals are equal in value.
pub proof fn lemma_rat_sub_both(a: (int, int), a2: (int, int), b: (int, int), b2: (int, int))
    requires
        rat_eq(a, a2),
        rat_eq(b, b2),
        a2.1 != 0,
        b.1 != 0,
    ensures
        rat_eq(rat_sub(a, b), rat_sub(a2, b2)),
{
    lemma_rat_sub_congr(a, a2, b);
    lemma_rat_sub_congr(b, b2, a2);
    assert(a2.1 * b.1 != 0) by (nonlinear_arith)
        requires
            a2.1 != 0,
            b.1 != 0,
    ;
    lemma_rat_eq_trans(rat_sub(a, b), rat_sub(a2, b), rat_sub(a2, b2));
}

/// Products of equal-valued rationals are equal in value.
pub proof fn lemma_rat_mul_both(a: (int, int), a2: (int, int), b: (int, int), b2: (int, int))
    requires
        rat_eq(a, a2),
        rat_eq(b, b2),
        a2.1 != 0,
        b.1 != 0,
    ensures
        rat_eq(rat_mul(a, b), rat_mul(a2, b2)),
{
    lemma_rat_mul_congr(a, a2, b);
    lemma_rat_mul_congr(b, b2, a2);
    assert(a2.1 * b.1 != 0) by (nonlinear_arith)
        requires
            a2.1 != 0,
            b.1 != 0,
    ;
    lemma_rat_eq_trans(rat_mul(a, b), rat_mul(a2, b), rat_mul(a2, b2));
}

/// Splitting a sum into `(a - b) / 2` and `(a + b) / 2` halves: their
/// difference is `b` and their sum is `a`, exactly.
pub proof fn lemma_rat_halves(a: (int, int), b: (int, int))
    ensures
        rat_eq(
            rat_sub(rat_div(rat_add(a, b), (2int, 1int)), rat_div(rat_sub(a, b), (2int, 1int))),
            b,
        ),
        rat_eq(
            rat_add(rat_div(rat_sub(a, b), (2int, 1int)), rat_div(rat_add(a, b), (2int, 1int))),
            a,
        ),
{
    assert((((a.0 * b.1 + b.0 * a.1) * 1) * ((a.1 * b.1) * 2) - ((a.0 * b.1 - b.0 * a.1) * 1)
        * ((a.1 * b.1) * 2)) * b.1 == b.0 * (((a.1 * b.1) * 2) * ((a.1 * b.1) * 2)))
        by (nonlinear_arith);
    assert(((((a.0 * b.1 - b.0 * a.1) * 1) * ((a.1 * b.1) * 2) + ((a.0 * b.1 + b.0 * a.1) * 1)
        * ((a.1 * b.1) * 2)) * a.1) == a.0 * (((a.1 * b.1) * 2) * ((a.1 * b.1) * 2)))
        by (nonlinear_arith);
}

/// A well-formed rational pair equal in value to a positive pair has a
/// positive numerator.
pub proof fn lemma_rat_eq_pos(a: (int, int), b: (int, int))
    requires
        rat_eq(a, b),
        a.1 > 0,
        b.0 > 0,
        b.1 > 0,
    ensures
        a.0 > 0,
{
    assert(a.0 > 0) by (nonlinear_arith)
        requires
            a.0 * b.1 == b.0 * a.1,
            a.1 > 0,
            b.0 > 0,
            b.1 > 0,
    ;
}

/// Order between rationals depends only on their values: equal-valued
/// pairs with positive denominators compare the same way.
pub proof fn lemma_rat_le_congr(a: (int, int), a2: (int, int), b: (int, int), b2: (int, int))
    requires
        rat_eq(a, a2),
        rat_eq(b, b2),
        a.1 > 0,
        a2.1 > 0,
        b.1 > 0,
        b2.1 > 0,
    ensures
        rat_le(a, b) == rat_le(a2, b2),
{
    if rat_le(a, b) {
        assert(a2.0 * b2.1 <= b2.0 * a2.1) by (nonlinear_arith)
            requires
                a.0 * b.1 <= b.0 * a.1,
                a.0 * a2.1 == a2.0 * a.1,
                b.0 * b2.1 == b2.0 * b.1,
                a.1 > 0,
                a2.1 > 0,
                b.1 > 0,
                b2.1 > 0,
        ;
    }
    if rat_le(a2, b2) {
        assert(a.0 * b.1 <= b.0 * a.1) by (nonlinear_arith)
            requires
                a2.0 * b2.1 <= b2.0 * a2.1,
                a.0 * a2.1 == a2.0 * a.1,
                b.0 * b2.1 == b2.0 * b.1,
                a.1 > 0,
                a2.1 > 0,
                b.1 > 0,
                b2.1 > 0,
        ;
    }
}

/// A product of two positive integers is positive.
pub proof fn lemma_pos_product(x: int, y: int)
    by (nonlinear_arith)
    requires
        x > 0,
        y > 0,
    ensures
        x * y > 0,
{
}

/// Products of `i64` numerators and positive `i64` denominators, and the
/// sums and differences the rational operations form from them, all fit in
/// `i128`.
proof fn lemma_prod_bounds(n1: int, d1: int, n2: int, d2: int)
    by (nonlinear_arith)
    requires
        -0x8000000000000000 <= n1 <= 0x7fffffffffffffff,
        -0x8000000000000000 <= n2 <= 0x7fffffffffffffff,
        1 <= d1 <= 0x7fffffffffffffff,
        1 <= d2 <= 0x7fffffffffffffff,
    ensures
        i128::MIN < n1 * d2 + n2 * d1 <= i128::MAX,
        i128::MIN < n1 * d2 - n2 * d1 <= i128::MAX,
        i128::MIN < n1 * d2 <= i128::MAX,
        i128::MIN < n2 * d1 <= i128::MAX,
        i128::MIN < n1 * n2 <= i128::MAX,
        0 < d1 * d2 <= i128::MAX,
{
}

} // verus!
