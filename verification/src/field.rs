//! Prime-field scalars: residues in [0, P) with exact modular arithmetic.
use vstd::prelude::*;

verus! {

/// The field modulus. A toy prime, large enough to exercise the protocol;
/// production deployments would substitute a cryptographically sized prime.
pub const P: u64 = 101;

/// A residue in [0, P). All operations reduce their result mod P.
#[derive(Clone, Copy, Debug, PartialEq, Eq, Structural)]
pub struct FieldElem {
    pub val: u64,
}

/// Failure of an arithmetic operation with no defined result.
#[derive(Clone, Copy, Debug, PartialEq, Eq, Structural)]
pub enum FieldError {
    DivisionByZero,
}

impl FieldElem {
    /// A residue is well formed when it is already reduced.
    pub open spec fn wf(&self) -> bool {
        self.val < P
    }

    pub fn new(value: u64) -> (r: Self)
        ensures
            r.val == value as int % P as int,
            r.wf(),
    {
        FieldElem { val: value % P }
    }

    pub fn zero() -> (r: Self)
        ensures
            r == fe_zero(),
            r.wf(),
    {
        FieldElem { val: 0 }
    }

    pub fn one() -> (r: Self)
        ensures
            r == fe_one(),
            r.wf(),
    {
        FieldElem { val: 1 }
    }

    pub fn from_u64(value: u64) -> (r: Self)
        ensures
            r.val == value as int % P as int,
            r.wf(),
    {
        FieldElem { val: value % P }
    }

    /// The reduced value, for callers outside the library.
    pub fn value(&self) -> (v: u64)
        ensures
            v == self.val,
    {
        self.val
    }

    pub fn add(self, other: Self) -> (r: Self)
        requires
            self.wf(),
            other.wf(),
        ensures
            r == fe_add(self, other),
            r.wf(),
    {
        FieldElem { val: (self.val + other.val) % P }
    }

    pub fn mul(self, other: Self) -> (r: Self)
        requires
            self.wf(),
            other.wf(),
        ensures
            r == fe_mul(self, other),
            r.wf(),
    {
        proof {
            assert(self.val * other.val < P * P) by (nonlinear_arith)
                requires
                    self.val < P,
                    other.val < P,
            ;
        }
        FieldElem { val: (self.val * other.val) % P }
    }

    pub fn sub(self, other: Self) -> (r: Self)
        requires
            self.wf(),
            other.wf(),
        ensures
            r == fe_sub(self, other),
            r.wf(),
    {
        proof {
            vstd::arithmetic::div_mod::lemma_mod_add_multiples_vanish(
                self.val as int - other.val as int,
                P as int,
            );
        }
        FieldElem { val: (self.val + P - other.val) % P }
    }

    pub fn neg(self) -> (r: Self)
        requires
            self.wf(),
        ensures
            r == fe_neg(self),
            r.wf(),
    {
        proof {
            vstd::arithmetic::div_mod::lemma_mod_add_multiples_vanish(
                0 - self.val as int,
                P as int,
            );
        }
        FieldElem { val: (P - self.val) % P }
    }
}

/// The additive identity.
pub open spec fn fe_zero() -> FieldElem {
    FieldElem { val: 0 }
}

/// The multiplicative identity.
pub open spec fn fe_one() -> FieldElem {
    FieldElem { val: 1 }
}

/// Exact modular sum, stated over unbounded integers.
pub open spec fn fe_add(a: FieldElem, b: FieldElem) -> FieldElem {
    FieldElem { val: ((a.val + b.val) % P as int) as u64 }
}

/// Exact modular product, stated over unbounded integers.
pub open spec fn fe_mul(a: FieldElem, b: FieldElem) -> FieldElem {
    FieldElem { val: ((a.val * b.val) % P as int) as u64 }
}

/// Exact modular difference, stated over unbounded integers.
pub open spec fn fe_sub(a: FieldElem, b: FieldElem) -> FieldElem {
    FieldElem { val: ((a.val - b.val) % P as int) as u64 }
}

/// Exact modular negation, stated over unbounded integers.
pub open spec fn fe_neg(a: FieldElem) -> FieldElem {
    FieldElem { val: ((0 - a.val as int) % P as int) as u64 }
}

/// The affine combination `a + x * (b - a)`: the line through `a` at 0 and `b` at 1.
pub open spec fn fe_affine(a: FieldElem, b: FieldElem, x: FieldElem) -> FieldElem {
    fe_add(a, fe_mul(x, fe_sub(b, a)))
}

pub proof fn lemma_mul_comm(a: FieldElem, b: FieldElem)
    ensures
        fe_mul(a, b) == fe_mul(b, a),
{
}

pub proof fn lemma_add_zero(a: FieldElem)
    requires
        a.wf(),
    ensures
        fe_add(a, fe_zero()) == a,
        fe_add(fe_zero(), a) == a,
{
}

pub proof fn lemma_mul_zero(a: FieldElem)
    ensures
        fe_mul(a, fe_zero()) == fe_zero(),
        fe_mul(fe_zero(), a) == fe_zero(),
{
}

pub proof fn lemma_mul_one(a: FieldElem)
    requires
        a.wf(),
    ensures
        fe_mul(a, fe_one()) == a,
        fe_mul(fe_one(), a) == a,
{
}

pub proof fn lemma_add_assoc(a: FieldElem, b: FieldElem, c: FieldElem)
    ensures
        fe_add(fe_add(a, b), c) == fe_add(a, fe_add(b, c)),
{
    let q = P as int;
    vstd::arithmetic::div_mod::lemma_add_mod_noop_right(c.val as int, a.val + b.val, q);
    vstd::arithmetic::div_mod::lemma_add_mod_noop_right(a.val as int, b.val + c.val, q);
}

pub proof fn lemma_mul_assoc(a: FieldElem, b: FieldElem, c: FieldElem)
    ensures
        fe_mul(fe_mul(a, b), c) == fe_mul(a, fe_mul(b, c)),
{
    let q = P as int;
    vstd::arithmetic::div_mod::lemma_mul_mod_noop_left(a.val * b.val, c.val as int, q);
    vstd::arithmetic::div_mod::lemma_mul_mod_noop_right(a.val as int, b.val * c.val, q);
    vstd::arithmetic::mul::lemma_mul_is_associative(a.val as int, b.val as int, c.val as int);
}

pub proof fn lemma_mul_distrib(a: FieldElem, b: FieldElem, c: FieldElem)
    ensures
        fe_mul(a, fe_add(b, c)) == fe_add(fe_mul(a, b), fe_mul(a, c)),
{
    let q = P as int;
    vstd::arithmetic::div_mod::lemma_mul_mod_noop_right(a.val as int, b.val + c.val, q);
    vstd::arithmetic::mul::lemma_mul_is_distributive_add(a.val as int, b.val as int, c.val as int);
    vstd::arithmetic::div_mod::lemma_add_mod_noop(a.val * b.val, a.val * c.val, q);
}

/// Adding back a difference restores the minuend: `a + (b - a) == b`.
pub proof fn lemma_add_sub_cancel(a: FieldElem, b: FieldElem)
    requires
        b.wf(),
    ensures
        fe_add(a, fe_sub(b, a)) == b,
{
    let q = P as int;
    vstd::arithmetic::div_mod::lemma_add_mod_noop_right(a.val as int, b.val - a.val, q);
    vstd::arithmetic::div_mod::lemma_small_mod(b.val as nat, P as nat);
}

/// Affine combinations add pointwise: the line through `a0 + a1` and `b0 + b1`
/// is the sum of the lines through `a0`, `b0` and through `a1`, `b1`.
pub proof fn lemma_affine_add(a0: FieldElem, b0: FieldElem, a1: FieldElem, b1: FieldElem, x: FieldElem)
    ensures
        fe_add(fe_affine(a0, b0, x), fe_affine(a1, b1, x))
            == fe_affine(fe_add(a0, a1), fe_add(b0, b1), x),
{
    let q = P as int;
    let a0v = a0.val as int;
    let b0v = b0.val as int;
    let a1v = a1.val as int;
    let b1v = b1.val as int;
    let xv = x.val as int;
    // Flatten each side to one reduction of an integer expression.
    vstd::arithmetic::div_mod::lemma_mul_mod_noop_right(xv, b0v - a0v, q);
    vstd::arithmetic::div_mod::lemma_add_mod_noop_right(a0v, xv * (b0v - a0v), q);
    assert(fe_affine(a0, b0, x).val == (a0v + xv * (b0v - a0v)) % q);
    vstd::arithmetic::div_mod::lemma_mul_mod_noop_right(xv, b1v - a1v, q);
    vstd::arithmetic::div_mod::lemma_add_mod_noop_right(a1v, xv * (b1v - a1v), q);
    assert(fe_affine(a1, b1, x).val == (a1v + xv * (b1v - a1v)) % q);
    vstd::arithmetic::div_mod::lemma_add_mod_noop(
        a0v + xv * (b0v - a0v),
        a1v + xv * (b1v - a1v),
        q,
    );
    let sa = (a0v + a1v) % q;
    let sb = (b0v + b1v) % q;
    let e = (b0v + b1v) - (a0v + a1v);
    vstd::arithmetic::div_mod::lemma_sub_mod_noop(b0v + b1v, a0v + a1v, q);
    assert((sb - sa) % q == e % q);
    vstd::arithmetic::div_mod::lemma_mul_mod_noop_right(xv, sb - sa, q);
    vstd::arithmetic::div_mod::lemma_mul_mod_noop_right(xv, e, q);
    assert((xv * ((sb - sa) % q)) % q == (xv * e) % q);
    vstd::arithmetic::div_mod::lemma_add_mod_noop(a0v + a1v, xv * e, q);
    assert(fe_affine(fe_add(a0, a1), fe_add(b0, b1), x).val == (a0v + a1v + xv * e) % q);
    // Both sides reduce the same integer polynomial.
    assert((a0v + xv * (b0v - a0v)) + (a1v + xv * (b1v - a1v))
        == a0v + a1v + xv * ((b0v + b1v) - (a0v + a1v))) by (nonlinear_arith);
}

/// Four-term regrouping of sums: `(a + b) + (c + d) == (a + c) + (b + d)`.
pub proof fn lemma_add_shuffle(a: FieldElem, b: FieldElem, c: FieldElem, d: FieldElem)
    ensures
        fe_add(fe_add(a, b), fe_add(c, d)) == fe_add(fe_add(a, c), fe_add(b, d)),
{
    let q = P as int;
    vstd::arithmetic::div_mod::lemma_add_mod_noop(a.val + b.val, c.val + d.val, q);
    vstd::arithmetic::div_mod::lemma_add_mod_noop(a.val + c.val, b.val + d.val, q);
}

/// Affine combinations scale: `(a + x * (b - a)) * v` is the line through
/// `a * v` and `b * v`.
pub proof fn lemma_affine_scale(a: FieldElem, b: FieldElem, v: FieldElem, x: FieldElem)
    ensures
        fe_mul(fe_affine(a, b, x), v) == fe_affine(fe_mul(a, v), fe_mul(b, v), x),
{
    let q = P as int;
    let av = a.val as int;
    let bv = b.val as int;
    let vv = v.val as int;
    let xv = x.val as int;
    vstd::arithmetic::div_mod::lemma_mul_mod_noop_right(xv, bv - av, q);
    vstd::arithmetic::div_mod::lemma_add_mod_noop_right(av, xv * (bv - av), q);
    assert(fe_affine(a, b, x).val == (av + xv * (bv - av)) % q);
    vstd::arithmetic::div_mod::lemma_mul_mod_noop_left(av + xv * (bv - av), vv, q);
    assert(fe_mul(fe_affine(a, b, x), v).val == ((av + xv * (bv - av)) * vv) % q);
    let m0 = (av * vv) % q;
    let m1 = (bv * vv) % q;
    vstd::arithmetic::div_mod::lemma_sub_mod_noop(bv * vv, av * vv, q);
    assert((m1 - m0) % q == (bv * vv - av * vv) % q);
    vstd::arithmetic::div_mod::lemma_mul_mod_noop_right(xv, m1 - m0, q);
    vstd::arithmetic::div_mod::lemma_mul_mod_noop_right(xv, bv * vv - av * vv, q);
    assert((xv * ((m1 - m0) % q)) % q == (xv * (bv * vv - av * vv)) % q);
    vstd::arithmetic::div_mod::lemma_add_mod_noop(av * vv, xv * (bv * vv - av * vv), q);
    assert(fe_affine(fe_mul(a, v), fe_mul(b, v), x).val
        == (av * vv + xv * (bv * vv - av * vv)) % q);
    assert((av + xv * (bv - av)) * vv == av * vv + xv * (bv * vv - av * vv))
        by (nonlinear_arith);
}

/// Four-factor regrouping of products: `(a * b) * (c * d) == (a * c) * (b * d)`.
pub proof fn lemma_mul_shuffle(a: FieldElem, b: FieldElem, c: FieldElem, d: FieldElem)
    ensures
        fe_mul(fe_mul(a, b), fe_mul(c, d)) == fe_mul(fe_mul(a, c), fe_mul(b, d)),
{
    let q = P as int;
    let av = a.val as int;
    let bv = b.val as int;
    let cv = c.val as int;
    let dv = d.val as int;
    vstd::arithmetic::div_mod::lemma_mul_mod_noop(av * bv, cv * dv, q);
    vstd::arithmetic::div_mod::lemma_mul_mod_noop(av * cv, bv * dv, q);
    assert((av * bv) * (cv * dv) == (av * cv) * (bv * dv)) by (nonlinear_arith);
}

/// The value of an affine combination, flattened to one reduction.
pub proof fn lemma_affine_flat(a: FieldElem, b: FieldElem, x: FieldElem)
    ensures
        fe_affine(a, b, x).val == (a.val + x.val * (b.val - a.val)) % P as int,
{
    let q = P as int;
    vstd::arithmetic::div_mod::lemma_mul_mod_noop_right(x.val as int, b.val - a.val, q);
    vstd::arithmetic::div_mod::lemma_add_mod_noop_right(a.val as int, x.val * (b.val - a.val), q);
}

/// Taking lines in two coordinates commutes: the line at `y` through the lines
/// at `x` equals the line at `x` through the lines at `y`.
pub proof fn lemma_affine_exchange(
    a0: FieldElem,
    b0: FieldElem,
    a1: FieldElem,
    b1: FieldElem,
    x: FieldElem,
    y: FieldElem,
)
    ensures
        fe_affine(fe_affine(a0, b0, x), fe_affine(a1, b1, x), y) == fe_affine(
            fe_affine(a0, a1, y),
            fe_affine(b0, b1, y),
            x,
        ),
{
    let q = P as int;
    let a0v = a0.val as int;
    let b0v = b0.val as int;
    let a1v = a1.val as int;
    let b1v = b1.val as int;
    let xv = x.val as int;
    let yv = y.val as int;
    let u = fe_affine(a0, b0, x);
    let v = fe_affine(a1, b1, x);
    lemma_affine_flat(a0, b0, x);
    lemma_affine_flat(a1, b1, x);
    lemma_affine_flat(u, v, y);
    let av = a0v + xv * (b0v - a0v);
    let bv = a1v + xv * (b1v - a1v);
    vstd::arithmetic::div_mod::lemma_sub_mod_noop(bv, av, q);
    assert((v.val - u.val) % q == (bv - av) % q);
    vstd::arithmetic::div_mod::lemma_mul_mod_noop_right(yv, v.val - u.val, q);
    vstd::arithmetic::div_mod::lemma_mul_mod_noop_right(yv, bv - av, q);
    assert((yv * (v.val - u.val)) % q == (yv * (bv - av)) % q);
    vstd::arithmetic::div_mod::lemma_add_mod_noop_right(u.val as int, yv * (v.val - u.val), q);
    vstd::arithmetic::div_mod::lemma_add_mod_noop(av, yv * (bv - av), q);
    assert(fe_affine(u, v, y).val == (av + yv * (bv - av)) % q) by {
        assert((u.val + yv * (v.val - u.val)) % q == (u.val + (yv * (v.val - u.val)) % q) % q);
        assert((u.val + (yv * (bv - av)) % q) % q == (av + yv * (bv - av)) % q);
    }
    let p2 = fe_affine(a0, a1, y);
    let q2 = fe_affine(b0, b1, y);
    lemma_affine_flat(a0, a1, y);
    lemma_affine_flat(b0, b1, y);
    lemma_affine_flat(p2, q2, x);
    let pv = a0v + yv * (a1v - a0v);
    let qv = b0v + yv * (b1v - b0v);
    vstd::arithmetic::div_mod::lemma_sub_mod_noop(qv, pv, q);
    vstd::arithmetic::div_mod::lemma_mul_mod_noop_right(xv, q2.val - p2.val, q);
    vstd::arithmetic::div_mod::lemma_mul_mod_noop_right(xv, qv - pv, q);
    assert((xv * (q2.val - p2.val)) % q == (xv * (qv - pv)) % q);
    vstd::arithmetic::div_mod::lemma_add_mod_noop_right(p2.val as int, xv * (q2.val - p2.val), q);
    vstd::arithmetic::div_mod::lemma_add_mod_noop(pv, xv * (qv - pv), q);
    assert(fe_affine(p2, q2, x).val == (pv + xv * (qv - pv)) % q) by {
        assert((p2.val + xv * (q2.val - p2.val)) % q == (p2.val + (xv * (q2.val - p2.val)) % q)
            % q);
        assert((p2.val + (xv * (qv - pv)) % q) % q == (pv + xv * (qv - pv)) % q);
    }
    assert((a0v + xv * (b0v - a0v)) + yv * ((a1v + xv * (b1v - a1v)) - (a0v + xv * (b0v - a0v)))
        == (a0v + yv * (a1v - a0v)) + xv * ((b0v + yv * (b1v - b0v)) - (a0v + yv * (a1v - a0v))))
        by (nonlinear_arith);
}

/// A line through equal endpoints is constant.
pub proof fn lemma_affine_const(a: FieldElem, x: FieldElem)
    requires
        a.wf(),
    ensures
        fe_affine(a, a, x) == a,
{
    assert(fe_sub(a, a).val == 0);
    assert(fe_mul(x, fe_sub(a, a)).val == 0);
    vstd::arithmetic::div_mod::lemma_small_mod(a.val as nat, P as nat);
}

/// Whether some `x` in `[from, P)` is a multiplicative inverse of `a`.
pub open spec fn has_inv_from(a: int, from: int) -> bool
    decreases P as int - from when from <= P as int
{
    if from >= P as int {
        false
    } else {
        (a * from) % P as int == 1 || has_inv_from(a, from + 1)
    }
}

/// A search starting at or below a known inverse succeeds.
proof fn lemma_has_inv_at(a: int, from: int, w: int)
    requires
        1 <= from <= w < P,
        (a * w) % P as int == 1,
    ensures
        has_inv_from(a, from),
    decreases w - from,
{
    if from < w {
        lemma_has_inv_at(a, from + 1, w);
    }
}

/// Every nonzero residue has an inverse, shown by an explicit witness for
/// each residue of the fixed small prime modulus.
proof fn lemma_nonzero_has_inv(a: u64)
    requires
        1 <= a < P,
    ensures
        has_inv_from(a as int, 1),
{
    let a = a as int;
    if a == 1 { lemma_has_inv_at(1, 1, 1); }
    if a == 2 { lemma_has_inv_at(2, 1, 51); }
    if a == 3 { lemma_has_inv_at(3, 1, 34); }
    if a == 4 { lemma_has_inv_at(4, 1, 76); }
    if a == 5 { lemma_has_inv_at(5, 1, 81); }
    if a == 6 { lemma_has_inv_at(6, 1, 17); }
    if a == 7 { lemma_has_inv_at(7, 1, 29); }
    if a == 8 { lemma_has_inv_at(8, 1, 38); }
    if a == 9 { lemma_has_inv_at(9, 1, 45); }
    if a == 10 { lemma_has_inv_at(10, 1, 91); }
    if a == 11 { lemma_has_inv_at(11, 1, 46); }
    if a == 12 { lemma_has_inv_at(12, 1, 59); }
    if a == 13 { lemma_has_inv_at(13, 1, 70); }
    if a == 14 { lemma_has_inv_at(14, 1, 65); }
    if a == 15 { lemma_has_inv_at(15, 1, 27); }
    if a == 16 { lemma_has_inv_at(16, 1, 19); }
    if a == 17 { lemma_has_inv_at(17, 1, 6); }
    if a == 18 { lemma_has_inv_at(18, 1, 73); }
    if a == 19 { lemma_has_inv_at(19, 1, 16); }
    if a == 20 { lemma_has_inv_at(20, 1, 96); }
    if a == 21 { lemma_has_inv_at(21, 1, 77); }
    if a == 22 { lemma_has_inv_at(22, 1, 23); }
    if a == 23 { lemma_has_inv_at(23, 1, 22); }
    if a == 24 { lemma_has_inv_at(24, 1, 80); }
    if a == 25 { lemma_has_inv_at(25, 1, 97); }
    if a == 26 { lemma_has_inv_at(26, 1, 35); }
    if a == 27 { lemma_has_inv_at(27, 1, 15); }
    if a == 28 { lemma_has_inv_at(28, 1, 83); }
    if a == 29 { lemma_has_inv_at(29, 1, 7); }
    if a == 30 { lemma_has_inv_at(30, 1, 64); }
    if a == 31 { lemma_has_inv_at(31, 1, 88); }
    if a == 32 { lemma_has_inv_at(32, 1, 60); }
    if a == 33 { lemma_has_inv_at(33, 1, 49); }
    if a == 34 { lemma_has_inv_at(34, 1, 3); }
    if a == 35 { lemma_has_inv_at(35, 1, 26); }
    if a == 36 { lemma_has_inv_at(36, 1, 87); }
    if a == 37 { lemma_has_inv_at(37, 1, 71); }
    if a == 38 { lemma_has_inv_at(38, 1, 8); }
    if a == 39 { lemma_has_inv_at(39, 1, 57); }
    if a == 40 { lemma_has_inv_at(40, 1, 48); }
    if a == 41 { lemma_has_inv_at(41, 1, 69); }
    if a == 42 { lemma_has_inv_at(42, 1, 89); }
    if a == 43 { lemma_has_inv_at(43, 1, 47); }
    if a == 44 { lemma_has_inv_at(44, 1, 62); }
    if a == 45 { lemma_has_inv_at(45, 1, 9); }
    if a == 46 { lemma_has_inv_at(46, 1, 11); }
    if a == 47 { lemma_has_inv_at(47, 1, 43); }
    if a == 48 { lemma_has_inv_at(48, 1, 40); }
    if a == 49 { lemma_has_inv_at(49, 1, 33); }
    if a == 50 { lemma_has_inv_at(50, 1, 99); }
    if a == 51 { lemma_has_inv_at(51, 1, 2); }
    if a == 52 { lemma_has_inv_at(52, 1, 68); }
    if a == 53 { lemma_has_inv_at(53, 1, 61); }
    if a == 54 { lemma_has_inv_at(54, 1, 58); }
    if a == 55 { lemma_has_inv_at(55, 1, 90); }
    if a == 56 { lemma_has_inv_at(56, 1, 92); }
    if a == 57 { lemma_has_inv_at(57, 1, 39); }
    if a == 58 { lemma_has_inv_at(58, 1, 54); }
    if a == 59 { lemma_has_inv_at(59, 1, 12); }
    if a == 60 { lemma_has_inv_at(60, 1, 32); }
    if a == 61 { lemma_has_inv_at(61, 1, 53); }
    if a == 62 { lemma_has_inv_at(62, 1, 44); }
    if a == 63 { lemma_has_inv_at(63, 1, 93); }
    if a == 64 { lemma_has_inv_at(64, 1, 30); }
    if a == 65 { lemma_has_inv_at(65, 1, 14); }
    if a == 66 { lemma_has_inv_at(66, 1, 75); }
    if a == 67 { lemma_has_inv_at(67, 1, 98); }
    if a == 68 { lemma_has_inv_at(68, 1, 52); }
    if a == 69 { lemma_has_inv_at(69, 1, 41); }
    if a == 70 { lemma_has_inv_at(70, 1, 13); }
    if a == 71 { lemma_has_inv_at(71, 1, 37); }
    if a == 72 { lemma_has_inv_at(72, 1, 94); }
    if a == 73 { lemma_has_inv_at(73, 1, 18); }
    if a == 74 { lemma_has_inv_at(74, 1, 86); }
    if a == 75 { lemma_has_inv_at(75, 1, 66); }
    if a == 76 { lemma_has_inv_at(76, 1, 4); }
    if a == 77 { lemma_has_inv_at(77, 1, 21); }
    if a == 78 { lemma_has_inv_at(78, 1, 79); }
    if a == 79 { lemma_has_inv_at(79, 1, 78); }
    if a == 80 { lemma_has_inv_at(80, 1, 24); }
    if a == 81 { lemma_has_inv_at(81, 1, 5); }
    if a == 82 { lemma_has_inv_at(82, 1, 85); }
    if a == 83 { lemma_has_inv_at(83, 1, 28); }
    if a == 84 { lemma_has_inv_at(84, 1, 95); }
    if a == 85 { lemma_has_inv_at(85, 1, 82); }
    if a == 86 { lemma_has_inv_at(86, 1, 74); }
    if a == 87 { lemma_has_inv_at(87, 1, 36); }
    if a == 88 { lemma_has_inv_at(88, 1, 31); }
    if a == 89 { lemma_has_inv_at(89, 1, 42); }
    if a == 90 { lemma_has_inv_at(90, 1, 55); }
    if a == 91 { lemma_has_inv_at(91, 1, 10); }
    if a == 92 { lemma_has_inv_at(92, 1, 56); }
    if a == 93 { lemma_has_inv_at(93, 1, 63); }
    if a == 94 { lemma_has_inv_at(94, 1, 72); }
    if a == 95 { lemma_has_inv_at(95, 1, 84); }
    if a == 96 { lemma_has_inv_at(96, 1, 20); }
    if a == 97 { lemma_has_inv_at(97, 1, 25); }
    if a == 98 { lemma_has_inv_at(98, 1, 67); }
    if a == 99 { lemma_has_inv_at(99, 1, 50); }
    if a == 100 { lemma_has_inv_at(100, 1, 100); }
}

/// Inverses are unique: two residues that both invert `a` are equal.
pub proof fn lemma_inverse_unique(a: FieldElem, x: FieldElem, y: FieldElem)
    requires
        x.wf(),
        y.wf(),
        fe_mul(x, a) == fe_one(),
        fe_mul(y, a) == fe_one(),
    ensures
        x == y,
{
    // y == y * (a * x) == (y * a) * x == x
    lemma_mul_comm(x, a);
    lemma_mul_comm(y, a);
    lemma_mul_assoc(y, a, x);
    lemma_mul_one(x);
    lemma_mul_one(y);
}

impl FieldElem {
    /// The unique multiplicative inverse; fails on zero, which has none.
    pub fn inv(&self) -> (r: Result<FieldElem, FieldError>)
        requires
            self.wf(),
        ensures
            self.val == 0 <==> r is Err,
            r is Err ==> r == Result::<FieldElem, FieldError>::Err(FieldError::DivisionByZero),
            r is Ok ==> r->Ok_0.wf() && fe_mul(r->Ok_0, *self) == fe_one()
                && fe_mul(*self, r->Ok_0) == fe_one(),
    {
        if self.val == 0 {
            return Err(FieldError::DivisionByZero);
        }
        proof {
            lemma_nonzero_has_inv(self.val);
        }
        let mut x: u64 = 1;
        loop
            invariant
                self.wf(),
                self.val != 0,
                1 <= x <= P,
                has_inv_from(self.val as int, x as int),
            decreases P - x,
        {
            assert(x < P);
            proof {
                assert(self.val * x < P * P) by (nonlinear_arith)
                    requires
                        self.val < P,
                        x < P,
                ;
            }
            if (self.val * x) % P == 1 {
                return Ok(FieldElem { val: x });
            }
            x = x + 1;
        }
    }
}

} // verus!

