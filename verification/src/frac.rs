//! Exact rational scalars.
//!
//! A coordinate is a fraction `num / den` of machine integers with a positive
//! denominator.  Both components are kept within [`COORD_LIMIT`] so that the
//! cross-product orientation test — a degree-eight polynomial in the
//! components of three points — always fits in `i128` and is therefore
//! decided exactly, with no rounding and no failure.

use vstd::prelude::*;

verus! {

/// Largest magnitude allowed for the numerator, and largest denominator, of a
/// well-formed coordinate.  With this bound every intermediate product of the
/// orientation and crossing tests stays below `2^123 < i128::MAX`.
pub const COORD_LIMIT: i128 = 32768;

/// Largest magnitude (`2^126`) accepted by [`Frac::build`] for a raw
/// numerator or denominator before reduction.
pub const RAW_LIMIT: i128 = 0x4000_0000_0000_0000_0000_0000_0000_0000;

/// An exact rational scalar.  Well-formed values ([`frac_wf`]) have
/// `1 <= den <= COORD_LIMIT` and `-COORD_LIMIT <= num <= COORD_LIMIT`.
#[derive(Clone, Copy, PartialEq, Eq, Structural, Debug)]
pub struct Frac {
    pub num: i128,
    pub den: i128,
}

/// A rational number at the specification level: an unbounded numerator and
/// denominator pair.  Contracts speak of coordinates through this type.
pub struct Rat {
    pub n: int,
    pub d: int,
}

/// A coordinate is well formed when its components are bounded and its
/// denominator is positive.
pub open spec fn frac_wf(f: Frac) -> bool {
    &&& 1 <= f.den <= COORD_LIMIT
    &&& -COORD_LIMIT <= f.num <= COORD_LIMIT
}

/// The rational value of a coordinate.
pub open spec fn rat(f: Frac) -> Rat {
    Rat { n: f.num as int, d: f.den as int }
}

/// The rational with value `i`.
pub open spec fn r_int(i: int) -> Rat {
    Rat { n: i, d: 1 }
}

pub open spec fn r_add(a: Rat, b: Rat) -> Rat {
    Rat { n: a.n * b.d + b.n * a.d, d: a.d * b.d }
}

pub open spec fn r_sub(a: Rat, b: Rat) -> Rat {
    Rat { n: a.n * b.d - b.n * a.d, d: a.d * b.d }
}

pub open spec fn r_mul(a: Rat, b: Rat) -> Rat {
    Rat { n: a.n * b.n, d: a.d * b.d }
}

pub open spec fn r_div(a: Rat, b: Rat) -> Rat {
    Rat { n: a.n * b.d, d: a.d * b.n }
}

pub open spec fn r_neg(a: Rat) -> Rat {
    Rat { n: -a.n, d: a.d }
}

/// Equality of rationals by cross-multiplication; sound for any two
/// rationals whose denominators are not zero.
pub open spec fn r_eq(a: Rat, b: Rat) -> bool {
    a.n * b.d == b.n * a.d
}

/// `a <= b`; sound when both denominators are positive.
pub open spec fn r_le(a: Rat, b: Rat) -> bool {
    a.n * b.d <= b.n * a.d
}

/// `a < b`; sound when both denominators are positive.
pub open spec fn r_lt(a: Rat, b: Rat) -> bool {
    a.n * b.d < b.n * a.d
}

/// Absolute value of an integer.
pub open spec fn int_abs(x: int) -> int {
    if x < 0 {
        -x
    } else {
        x
    }
}

/// The quotient of `a / b` truncated towards zero, for `b` of nonzero
/// value; the division semantics of machine floating point remainders.
pub open spec fn r_trunc_div(a: Rat, b: Rat) -> int {
    let p = a.n * b.d;
    let q = b.n * a.d;
    let m = int_abs(p) / int_abs(q);
    if (p >= 0) == (q > 0) {
        m
    } else {
        -m
    }
}

/// The truncated remainder `a - b * trunc(a / b)`.
pub open spec fn r_rem_trunc(a: Rat, b: Rat) -> Rat {
    r_sub(a, r_mul(b, r_int(r_trunc_div(a, b))))
}

/// Bound on a product from bounds on its factors.
pub proof fn lemma_mul_bounds(x: int, y: int, bx: int, by: int)
    by (nonlinear_arith)
    requires
        -bx <= x <= bx,
        -by <= y <= by,
        0 <= bx,
        0 <= by,
    ensures
        -(bx * by) <= x * y <= bx * by,
{
}

/// A product of positive factors is positive.
pub proof fn lemma_mul_pos(x: int, y: int)
    by (nonlinear_arith)
    requires
        x > 0,
        y > 0,
    ensures
        x * y > 0,
{
}

/// Transitivity of cross-multiplied equality, given a nonzero middle
/// denominator.
pub proof fn lemma_r_eq_trans(a: Rat, b: Rat, c: Rat)
    by (nonlinear_arith)
    requires
        r_eq(a, b),
        r_eq(b, c),
        b.d != 0,
    ensures
        r_eq(a, c),
{
}

/// Transitivity of `<=` on rationals with positive denominators.
pub proof fn lemma_r_le_trans(a: Rat, b: Rat, c: Rat)
    by (nonlinear_arith)
    requires
        r_le(a, b),
        r_le(b, c),
        a.d > 0,
        b.d > 0,
        c.d > 0,
    ensures
        r_le(a, c),
{
}

/// Equal rationals with positive denominators have numerators of the same
/// sign.
pub proof fn lemma_r_eq_sign(a: Rat, b: Rat)
    by (nonlinear_arith)
    requires
        r_eq(a, b),
        a.d > 0,
        b.d > 0,
    ensures
        (a.n > 0) == (b.n > 0),
        (a.n == 0) == (b.n == 0),
        (a.n < 0) == (b.n < 0),
{
}

/// Congruence of multiplication under cross-multiplied equality.
pub proof fn lemma_r_eq_mul(a1: Rat, a2: Rat, b1: Rat, b2: Rat)
    requires
        r_eq(a1, a2),
        r_eq(b1, b2),
    ensures
        r_eq(r_mul(a1, b1), r_mul(a2, b2)),
{
    assert((a1.n * b1.n) * (a2.d * b2.d) == (a1.n * a2.d) * (b1.n * b2.d)) by (nonlinear_arith);
    assert((a1.n * a2.d) * (b1.n * b2.d) == (a2.n * a1.d) * (b2.n * b1.d));
    assert((a2.n * a1.d) * (b2.n * b1.d) == (a2.n * b2.n) * (a1.d * b1.d)) by (nonlinear_arith);
}

/// Congruence of addition under cross-multiplied equality.
pub proof fn lemma_r_eq_add(a1: Rat, a2: Rat, b1: Rat, b2: Rat)
    requires
        r_eq(a1, a2),
        r_eq(b1, b2),
    ensures
        r_eq(r_add(a1, b1), r_add(a2, b2)),
{
    vstd::arithmetic::mul::lemma_mul_is_distributive_add_other_way(
        a2.d * b2.d, a1.n * b1.d, b1.n * a1.d);
    assert((a1.n * b1.d) * (a2.d * b2.d) == (a1.n * a2.d) * (b1.d * b2.d)) by (nonlinear_arith);
    assert((b1.n * a1.d) * (a2.d * b2.d) == (b1.n * b2.d) * (a1.d * a2.d)) by (nonlinear_arith);
    assert((a1.n * a2.d) * (b1.d * b2.d) == (a2.n * a1.d) * (b1.d * b2.d));
    assert((b1.n * b2.d) * (a1.d * a2.d) == (b2.n * b1.d) * (a1.d * a2.d));
    assert((a2.n * a1.d) * (b1.d * b2.d) == (a2.n * b2.d) * (a1.d * b1.d)) by (nonlinear_arith);
    assert((b2.n * b1.d) * (a1.d * a2.d) == (b2.n * a2.d) * (a1.d * b1.d)) by (nonlinear_arith);
    vstd::arithmetic::mul::lemma_mul_is_distributive_add_other_way(
        a1.d * b1.d, a2.n * b2.d, b2.n * a2.d);
}

/// Congruence of subtraction under cross-multiplied equality.
pub proof fn lemma_r_eq_sub(a1: Rat, a2: Rat, b1: Rat, b2: Rat)
    requires
        r_eq(a1, a2),
        r_eq(b1, b2),
    ensures
        r_eq(r_sub(a1, b1), r_sub(a2, b2)),
{
    vstd::arithmetic::mul::lemma_mul_is_distributive_sub_other_way(
        a2.d * b2.d, a1.n * b1.d, b1.n * a1.d);
    assert((a1.n * b1.d) * (a2.d * b2.d) == (a1.n * a2.d) * (b1.d * b2.d)) by (nonlinear_arith);
    assert((b1.n * a1.d) * (a2.d * b2.d) == (b1.n * b2.d) * (a1.d * a2.d)) by (nonlinear_arith);
    assert((a1.n * a2.d) * (b1.d * b2.d) == (a2.n * a1.d) * (b1.d * b2.d));
    assert((b1.n * b2.d) * (a1.d * a2.d) == (b2.n * b1.d) * (a1.d * a2.d));
    assert((a2.n * a1.d) * (b1.d * b2.d) == (a2.n * b2.d) * (a1.d * b1.d)) by (nonlinear_arith);
    assert((b2.n * b1.d) * (a1.d * a2.d) == (b2.n * a2.d) * (a1.d * b1.d)) by (nonlinear_arith);
    vstd::arithmetic::mul::lemma_mul_is_distributive_sub_other_way(
        a1.d * b1.d, a2.n * b2.d, b2.n * a2.d);
}

/// Congruence of division under cross-multiplied equality.
pub proof fn lemma_r_eq_div(a1: Rat, a2: Rat, b1: Rat, b2: Rat)
    requires
        r_eq(a1, a2),
        r_eq(b1, b2),
    ensures
        r_eq(r_div(a1, b1), r_div(a2, b2)),
{
    assert((a1.n * b1.d) * (a2.d * b2.n) == (a1.n * a2.d) * (b2.n * b1.d)) by (nonlinear_arith);
    assert((a1.n * a2.d) * (b2.n * b1.d) == (a2.n * a1.d) * (b1.n * b2.d));
    assert((a2.n * a1.d) * (b1.n * b2.d) == (a2.n * b2.d) * (a1.d * b1.n)) by (nonlinear_arith);
}

/// `<=` is carried over to value-equal rationals with positive denominators.
pub proof fn lemma_r_le_congr(a1: Rat, a2: Rat, b1: Rat, b2: Rat)
    by (nonlinear_arith)
    requires
        r_eq(a1, a2),
        r_eq(b1, b2),
        a1.d > 0,
        a2.d > 0,
        b1.d > 0,
        b2.d > 0,
    ensures
        r_le(a1, b1) == r_le(a2, b2),
{
}

/// Adding a non-negative rational does not decrease a value.
pub proof fn lemma_r_le_add_nonneg(x: Rat, w: Rat, s: Rat)
    by (nonlinear_arith)
    requires
        r_eq(s, r_add(x, w)),
        w.n >= 0,
        x.d > 0,
        w.d > 0,
        s.d > 0,
    ensures
        r_le(x, s),
{
}

/// `(x + m) - x` has the value `m`.
pub proof fn lemma_r_add_sub_cancel(x: Rat, m: Rat)
    ensures
        r_eq(r_sub(r_add(x, m), x), m),
{
    vstd::arithmetic::mul::lemma_mul_is_distributive_add_other_way(
        x.d, x.n * m.d, m.n * x.d);
    assert((x.n * m.d) * x.d == x.n * (x.d * m.d)) by (nonlinear_arith);
    assert(((m.n * x.d) * x.d) * m.d == m.n * ((x.d * m.d) * x.d)) by (nonlinear_arith);
    vstd::arithmetic::mul::lemma_mul_is_distributive_sub_other_way(
        m.d, (x.n * m.d) * x.d + (m.n * x.d) * x.d, x.n * (x.d * m.d));
}

/// `((a / b) * c) * b` has the value `a * c`.
pub proof fn lemma_r_mul_div_cancel(a: Rat, b: Rat, c: Rat)
    ensures
        r_eq(r_mul(r_mul(r_div(a, b), c), b), r_mul(a, c)),
{
    assert((((a.n * b.d) * c.n) * b.n) * (a.d * c.d) == (a.n * c.n) * (((a.d * b.n) * c.d) * b.d))
        by (nonlinear_arith);
}

/// Pins an affine combination: from `p == x + t*l` and `t == tn/den` it
/// follows that `(p - x) * den == tn * l`, all as rational values.
pub proof fn lemma_r_pin_affine(p: Rat, x: Rat, t: Rat, l: Rat, tn: Rat, den: Rat)
    requires
        r_eq(p, r_add(x, r_mul(t, l))),
        r_eq(t, r_div(tn, den)),
        p.d > 0,
        x.d > 0,
        t.d != 0,
        l.d > 0,
        tn.d > 0,
        den.d > 0,
        den.n != 0,
    ensures
        r_eq(r_mul(r_sub(p, x), den), r_mul(tn, l)),
{
    let m = r_mul(t, l);
    lemma_r_eq_sub(p, r_add(x, m), x, x);
    lemma_r_add_sub_cancel(x, m);
    assert(m.d != 0) by (nonlinear_arith)
        requires
            m.d == t.d * l.d,
            t.d != 0,
            l.d > 0,
    ;
    assert(r_sub(r_add(x, m), x).d != 0) by (nonlinear_arith)
        requires
            r_sub(r_add(x, m), x).d == (x.d * m.d) * x.d,
            x.d > 0,
            m.d != 0,
    ;
    lemma_r_eq_trans(r_sub(p, x), r_sub(r_add(x, m), x), m);
    lemma_r_eq_mul(r_sub(p, x), m, den, den);
    lemma_r_eq_mul(t, r_div(tn, den), l, l);
    lemma_r_eq_mul(m, r_mul(r_div(tn, den), l), den, den);
    lemma_r_mul_div_cancel(tn, den, l);
    assert(r_mul(m, den).d != 0) by (nonlinear_arith)
        requires
            r_mul(m, den).d == m.d * den.d,
            m.d != 0,
            den.d > 0,
    ;
    assert(r_mul(r_mul(r_div(tn, den), l), den).d != 0) by (nonlinear_arith)
        requires
            r_mul(r_mul(r_div(tn, den), l), den).d == ((tn.d * den.n) * l.d) * den.d,
            tn.d > 0,
            den.n != 0,
            l.d > 0,
            den.d > 0,
    ;
    lemma_r_eq_trans(r_mul(r_sub(p, x), den), r_mul(m, den), r_mul(r_mul(r_div(tn, den), l), den));
    lemma_r_eq_trans(
        r_mul(r_sub(p, x), den),
        r_mul(r_mul(r_div(tn, den), l), den),
        r_mul(tn, l),
    );
}

/// Greatest common divisor, used only to shrink fractions; callers verify
/// divisibility of the result at run time.
fn gcd_u128(a: u128, b: u128) -> (g: u128)
    requires
        a >= 1,
    ensures
        g >= 1,
{
    let mut x: u128 = a;
    let mut y: u128 = b;
    while y != 0
        invariant
            x >= 1,
        decreases y,
    {
        let r: u128 = x % y;
        x = y;
        y = r;
    }
    x
}

/// Shrinks the pair `(n, d)` by a common divisor without changing the
/// rational value `n / d`.
pub(crate) fn reduce_pair(n: i128, d: i128) -> (r: (i128, i128))
    requires
        -RAW_LIMIT <= n <= RAW_LIMIT,
        1 <= d <= RAW_LIMIT,
    ensures
        1 <= r.1 <= d,
        n >= 0 ==> 0 <= r.0 <= n,
        n <= 0 ==> n <= r.0 <= 0,
        r.0 * d == n * r.1,
{
    if n == 0 {
        return (0, 1);
    }
    let neg: bool = n < 0;
    let an: u128 = if neg { (-n) as u128 } else { n as u128 };
    let ad: u128 = d as u128;
    let g: u128 = gcd_u128(an, ad);
    if an % g == 0 && ad % g == 0 {
        let qn: u128 = an / g;
        let qd: u128 = ad / g;
        if qd >= 1 {
            proof {
                vstd::arithmetic::div_mod::lemma_fundamental_div_mod(an as int, g as int);
                vstd::arithmetic::div_mod::lemma_fundamental_div_mod(ad as int, g as int);
                assert(qn == an as int / g as int);
                assert(qd == ad as int / g as int);
                assert(an == g * qn);
                assert(ad == g * qd);
                assert(qn <= an) by (nonlinear_arith)
                    requires
                        g >= 1,
                        qn >= 0,
                        an == g * qn,
                ;
                assert(qd <= ad) by (nonlinear_arith)
                    requires
                        g >= 1,
                        qd >= 0,
                        ad == g * qd,
                ;
                assert(qn * ad == an * qd) by (nonlinear_arith)
                    requires
                        an == g * qn,
                        ad == g * qd,
                ;
                assert(neg ==> (-(qn as int)) * (d as int) == (n as int) * (qd as int))
                    by (nonlinear_arith)
                    requires
                        qn * ad == an * qd,
                        ad == d,
                        neg ==> an == -(n as int),
                ;
            }
            let rn: i128 = if neg { -(qn as i128) } else { qn as i128 };
            return (rn, qd as i128);
        }
    }
    (n, d)
}

impl Frac {
    /// Builds the reduced, bounds-checked coordinate with value `n / d`.
    /// Returns `None` only when the reduced fraction still falls outside the
    /// coordinate bounds; inputs already within them always succeed.
    pub fn build(n: i128, d: i128) -> (r: Option<Frac>)
        requires
            -RAW_LIMIT <= n <= RAW_LIMIT,
            -RAW_LIMIT <= d <= RAW_LIMIT,
            d != 0,
        ensures
            (r is Some) ==> frac_wf(r->0) && r_eq(rat(r->0), (Rat { n: n as int, d: d as int })),
            (-COORD_LIMIT <= n <= COORD_LIMIT && -COORD_LIMIT <= d <= COORD_LIMIT && d != 0)
                ==> (r is Some),
    {
        let n2: i128 = if d < 0 { -n } else { n };
        let d2: i128 = if d < 0 { -d } else { d };
        let (rn, rd): (i128, i128) = reduce_pair(n2, d2);
        proof {
            assert(rn as int * d as int == n as int * rd as int) by (nonlinear_arith)
                requires
                    rn as int * d2 as int == n2 as int * rd as int,
                    (d2 == d && n2 == n) || (d2 == -(d as int) && n2 == -(n as int)),
            ;
        }
        if -COORD_LIMIT <= rn && rn <= COORD_LIMIT && rd <= COORD_LIMIT {
            Some(Frac { num: rn, den: rd })
        } else {
            None
        }
    }

    /// The coordinate with integer value `n`.
    pub fn from_int(n: i128) -> (r: Frac)
        requires
            -COORD_LIMIT <= n <= COORD_LIMIT,
        ensures
            frac_wf(r),
            rat(r) == (Rat { n: n as int, d: 1 }),
    {
        Frac { num: n, den: 1 }
    }

    /// Exact value equality.
    pub fn equal(&self, other: &Frac) -> (r: bool)
        requires
            frac_wf(*self),
            frac_wf(*other),
        ensures
            r == r_eq(rat(*self), rat(*other)),
    {
        proof {
            lemma_mul_bounds(self.num as int, other.den as int, COORD_LIMIT as int, COORD_LIMIT as int);
            lemma_mul_bounds(other.num as int, self.den as int, COORD_LIMIT as int, COORD_LIMIT as int);
        }
        self.num * other.den == other.num * self.den
    }

    /// Exact `<=`.
    pub fn le(&self, other: &Frac) -> (r: bool)
        requires
            frac_wf(*self),
            frac_wf(*other),
        ensures
            r == r_le(rat(*self), rat(*other)),
    {
        proof {
            lemma_mul_bounds(self.num as int, other.den as int, COORD_LIMIT as int, COORD_LIMIT as int);
            lemma_mul_bounds(other.num as int, self.den as int, COORD_LIMIT as int, COORD_LIMIT as int);
        }
        self.num * other.den <= other.num * self.den
    }

    /// Exact `<`.
    pub fn lt(&self, other: &Frac) -> (r: bool)
        requires
            frac_wf(*self),
            frac_wf(*other),
        ensures
            r == r_lt(rat(*self), rat(*other)),
    {
        proof {
            lemma_mul_bounds(self.num as int, other.den as int, COORD_LIMIT as int, COORD_LIMIT as int);
            lemma_mul_bounds(other.num as int, self.den as int, COORD_LIMIT as int, COORD_LIMIT as int);
        }
        self.num * other.den < other.num * self.den
    }

    /// Exact negation; always representable.
    pub fn neg_frac(&self) -> (r: Frac)
        requires
            frac_wf(*self),
        ensures
            frac_wf(r),
            rat(r) == r_neg(rat(*self)),
    {
        Frac { num: -self.num, den: self.den }
    }

    /// Exact sum; `None` only when the reduced result exceeds the coordinate
    /// bounds.  Integer-valued inputs with an in-range sum always succeed.
    pub fn plus(&self, other: &Frac) -> (r: Option<Frac>)
        requires
            frac_wf(*self),
            frac_wf(*other),
        ensures
            (r is Some) ==> frac_wf(r->0) && r_eq(rat(r->0), r_add(rat(*self), rat(*other))),
            (self.den == 1 && other.den == 1 && -COORD_LIMIT <= self.num + other.num <= COORD_LIMIT)
                ==> (r is Some),
    {
        proof {
            lemma_mul_bounds(self.num as int, other.den as int, COORD_LIMIT as int, COORD_LIMIT as int);
            lemma_mul_bounds(other.num as int, self.den as int, COORD_LIMIT as int, COORD_LIMIT as int);
            lemma_mul_bounds(self.den as int, other.den as int, COORD_LIMIT as int, COORD_LIMIT as int);
            lemma_mul_pos(self.den as int, other.den as int);
        }
        let nn: i128 = self.num * other.den + other.num * self.den;
        let dd: i128 = self.den * other.den;
        proof {
            if self.den == 1 && other.den == 1 {
                assert(nn == self.num + other.num && dd == 1) by (nonlinear_arith)
                    requires
                        nn == self.num * other.den + other.num * self.den,
                        dd == self.den * other.den,
                        self.den == 1,
                        other.den == 1,
                ;
            }
        }
        Frac::build(nn, dd)
    }

    /// Exact difference; `None` only when the reduced result exceeds the
    /// coordinate bounds.
    pub fn minus(&self, other: &Frac) -> (r: Option<Frac>)
        requires
            frac_wf(*self),
            frac_wf(*other),
        ensures
            (r is Some) ==> frac_wf(r->0) && r_eq(rat(r->0), r_sub(rat(*self), rat(*other))),
            (self.den == 1 && other.den == 1 && -COORD_LIMIT <= self.num - other.num <= COORD_LIMIT)
                ==> (r is Some),
    {
        proof {
            lemma_mul_bounds(self.num as int, other.den as int, COORD_LIMIT as int, COORD_LIMIT as int);
            lemma_mul_bounds(other.num as int, self.den as int, COORD_LIMIT as int, COORD_LIMIT as int);
            lemma_mul_bounds(self.den as int, other.den as int, COORD_LIMIT as int, COORD_LIMIT as int);
            lemma_mul_pos(self.den as int, other.den as int);
        }
        let nn: i128 = self.num * other.den - other.num * self.den;
        let dd: i128 = self.den * other.den;
        proof {
            if self.den == 1 && other.den == 1 {
                assert(nn == self.num - other.num && dd == 1) by (nonlinear_arith)
                    requires
                        nn == self.num * other.den - other.num * self.den,
                        dd == self.den * other.den,
                        self.den == 1,
                        other.den == 1,
                ;
            }
        }
        Frac::build(nn, dd)
    }

    /// Exact product; `None` only when the reduced result exceeds the
    /// coordinate bounds.
    pub fn times(&self, other: &Frac) -> (r: Option<Frac>)
        requires
            frac_wf(*self),
            frac_wf(*other),
        ensures
            (r is Some) ==> frac_wf(r->0) && r_eq(rat(r->0), r_mul(rat(*self), rat(*other))),
            (self.den == 1 && other.den == 1 && -COORD_LIMIT <= self.num * other.num <= COORD_LIMIT)
                ==> (r is Some),
    {
        proof {
            lemma_mul_bounds(self.num as int, other.num as int, COORD_LIMIT as int, COORD_LIMIT as int);
            lemma_mul_bounds(self.den as int, other.den as int, COORD_LIMIT as int, COORD_LIMIT as int);
            lemma_mul_pos(self.den as int, other.den as int);
        }
        let nn: i128 = self.num * other.num;
        let dd: i128 = self.den * other.den;
        proof {
            if self.den == 1 && other.den == 1 {
                assert(dd == 1) by (nonlinear_arith)
                    requires
                        dd == self.den * other.den,
                        self.den == 1,
                        other.den == 1,
                ;
            }
        }
        Frac::build(nn, dd)
    }

    /// Exact truncated remainder, the machine semantics of `%`; `None` when
    /// taking the remainder by zero or when the reduced result exceeds the
    /// coordinate bounds.
    pub fn rem_trunc(&self, other: &Frac) -> (r: Option<Frac>)
        requires
            frac_wf(*self),
            frac_wf(*other),
        ensures
            (r is Some) ==> frac_wf(r->0) && r_eq(rat(r->0), r_rem_trunc(rat(*self), rat(*other))),
            other.num == 0 ==> (r is None),
            (self.den == 1 && other.den == 1 && other.num != 0) ==> (r is Some),
    {
        if other.num == 0 {
            return None;
        }
        proof {
            lemma_mul_bounds(self.num as int, other.den as int, COORD_LIMIT as int, COORD_LIMIT as int);
            lemma_mul_bounds(other.num as int, self.den as int, COORD_LIMIT as int, COORD_LIMIT as int);
        }
        let p: i128 = self.num * other.den;
        let q: i128 = other.num * self.den;
        proof {
            assert(q != 0) by (nonlinear_arith)
                requires
                    q == other.num * self.den,
                    other.num != 0,
                    self.den >= 1,
            ;
        }
        let ap: u128 = if p < 0 {
            (-p) as u128
        } else {
            p as u128
        };
        let aq: u128 = if q < 0 {
            (-q) as u128
        } else {
            q as u128
        };
        let m: u128 = ap / aq;
        proof {
            vstd::arithmetic::div_mod::lemma_fundamental_div_mod(ap as int, aq as int);
            assert(m <= ap) by (nonlinear_arith)
                requires
                    ap == aq * (ap as int / aq as int) + ap as int % aq as int,
                    m == ap as int / aq as int,
                    ap as int % aq as int >= 0,
                    aq >= 1,
                    m >= 0,
            ;
        }
        let mi: i128 = m as i128;
        let tq: i128 = if (p >= 0) == (q > 0) {
            mi
        } else {
            -mi
        };
        proof {
            assert(ap as int == int_abs(p as int));
            assert(aq as int == int_abs(q as int));
            assert(tq == r_trunc_div(rat(*self), rat(*other)));
            lemma_mul_bounds(other.num as int, tq as int, COORD_LIMIT as int, 0x4000_0000);
            lemma_mul_bounds(other.num as int * tq as int, self.den as int, 0x2_0000_0000_0000, COORD_LIMIT as int);
            lemma_mul_bounds(self.num as int, other.den as int * 1, COORD_LIMIT as int, COORD_LIMIT as int);
            lemma_mul_bounds(self.den as int, other.den as int * 1, COORD_LIMIT as int, COORD_LIMIT as int);
            lemma_mul_pos(self.den as int, other.den as int * 1);
        }
        let rn: i128 = self.num * (other.den * 1) - (other.num * tq) * self.den;
        let rd: i128 = self.den * (other.den * 1);
        proof {
            if self.den == 1 && other.den == 1 {
                assert(rd == 1 && rn == p - q * tq && p == self.num && q == other.num)
                    by (nonlinear_arith)
                    requires
                        rd == self.den * (other.den * 1),
                        rn == self.num * (other.den * 1) - (other.num * tq) * self.den,
                        p == self.num * other.den,
                        q == other.num * self.den,
                        self.den == 1,
                        other.den == 1,
                ;
                let rr = ap as int % aq as int;
                // the truncated remainder stays strictly below the
                // divisor's magnitude, one sign case at a time
                if p >= 0 && q > 0 {
                    assert(-COORD_LIMIT <= rn <= COORD_LIMIT) by (nonlinear_arith)
                        requires
                            rn == p - q * tq,
                            p >= 0,
                            q > 0,
                            ap == p,
                            aq == q,
                            tq == m,
                            ap == aq * m + rr,
                            0 <= rr < aq,
                            aq <= COORD_LIMIT,
                    ;
                } else if p >= 0 {
                    assert(-COORD_LIMIT <= rn <= COORD_LIMIT) by (nonlinear_arith)
                        requires
                            rn == p - q * tq,
                            p >= 0,
                            q < 0,
                            ap == p,
                            aq == -(q as int),
                            tq == -(m as int),
                            ap == aq * m + rr,
                            0 <= rr < aq,
                            aq <= COORD_LIMIT,
                    ;
                } else if q > 0 {
                    assert(-COORD_LIMIT <= rn <= COORD_LIMIT) by (nonlinear_arith)
                        requires
                            rn == p - q * tq,
                            p < 0,
                            q > 0,
                            ap == -(p as int),
                            aq == q,
                            tq == -(m as int),
                            ap == aq * m + rr,
                            0 <= rr < aq,
                            aq <= COORD_LIMIT,
                    ;
                } else {
                    assert(-COORD_LIMIT <= rn <= COORD_LIMIT) by (nonlinear_arith)
                        requires
                            rn == p - q * tq,
                            p < 0,
                            q < 0,
                            ap == -(p as int),
                            aq == -(q as int),
                            tq == m,
                            ap == aq * m + rr,
                            0 <= rr < aq,
                            aq <= COORD_LIMIT,
                    ;
                }
            }
        }
        Frac::build(rn, rd)
    }

    /// Exact quotient; `None` when dividing by zero or when the reduced
    /// result exceeds the coordinate bounds.
    pub fn over(&self, other: &Frac) -> (r: Option<Frac>)
        requires
            frac_wf(*self),
            frac_wf(*other),
        ensures
            (r is Some) ==> frac_wf(r->0) && r_eq(rat(r->0), r_div(rat(*self), rat(*other))),
            other.num == 0 ==> (r is None),
            (self.den == 1 && other.den == 1 && other.num != 0) ==> (r is Some),
    {
        if other.num == 0 {
            return None;
        }
        proof {
            lemma_mul_bounds(self.num as int, other.den as int, COORD_LIMIT as int, COORD_LIMIT as int);
            lemma_mul_bounds(self.den as int, other.num as int, COORD_LIMIT as int, COORD_LIMIT as int);
        }
        let nn: i128 = self.num * other.den;
        let dd: i128 = self.den * other.num;
        proof {
            if self.den == 1 && other.den == 1 {
                assert(nn == self.num && dd == other.num) by (nonlinear_arith)
                    requires
                        nn == self.num * other.den,
                        dd == self.den * other.num,
                        self.den == 1,
                        other.den == 1,
                ;
            }
        }
        proof {
            assert(dd != 0) by (nonlinear_arith)
                requires
                    dd == self.den * other.num,
                    self.den >= 1,
                    other.num != 0,
            ;
        }
        Frac::build(nn, dd)
    }
}

} // verus!
