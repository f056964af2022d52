//! The sum-check round engine, specialized to one circuit layer: the claim
//! `C = sum of the layer's gate values` is reduced, one variable per round, to
//! a single weighted evaluation that the verifier checks against the witness.
use crate::circuit::{all_wf, eval_gates, gate_in_bounds, gate_value, Gate};
use crate::field::{
    fe_add, fe_affine, fe_mul, fe_one, fe_sub, fe_zero, lemma_add_sub_cancel, lemma_add_zero,
    lemma_affine_add, lemma_affine_const, lemma_affine_scale, lemma_add_shuffle, lemma_mul_comm,
    lemma_mul_distrib, lemma_mul_one, lemma_mul_zero, FieldElem,
};
use crate::prover::Prover;
use crate::verfier::Verifier;
use vstd::arithmetic::power2::pow2;
use vstd::prelude::*;

verus! {

/// Failures of a sum-check run. The first two are structural; the last two are
/// the verifier's rejections of a claim and are ordinary protocol outcomes.
#[derive(Clone, Copy, Debug, PartialEq, Eq, Structural)]
pub enum SumCheckError {
    /// A layer's gate count is not a power of two.
    LayerSizeNotPowerOfTwo,
    /// A derived index lies outside its range.
    IndexOutOfBounds,
    /// Round number, the claim the verifier carried, and the sum the round
    /// polynomial actually has.
    InvalidSum(usize, FieldElem, FieldElem),
    /// The reduced claim does not match the final oracle evaluation.
    FinalCheckFailed,
}

/// Univariate polynomial evaluation, lowest coefficient first.
pub open spec fn poly_eval(coeffs: Seq<FieldElem>, x: FieldElem) -> FieldElem
    decreases coeffs.len(),
{
    if coeffs.len() == 0 {
        fe_zero()
    } else {
        fe_add(coeffs[0], fe_mul(x, poly_eval(coeffs.drop_first(), x)))
    }
}

/// Big-endian bit `j` of gate index `g` under `n` variables: coordinate 0 is
/// the highest bit, so reading the coordinates in order gives the position.
pub open spec fn bit_be(g: int, n: int, j: int) -> bool {
    (g / pow2((n - 1 - j) as nat) as int) % 2 == 1
}

/// The eq-weight of one coordinate against one selector bit: `x` where the bit
/// is set, `1 - x` where it is clear.
pub open spec fn w_factor(x: FieldElem, b: bool) -> FieldElem {
    if b {
        x
    } else {
        fe_sub(fe_one(), x)
    }
}

/// Product of the eq-weights of `point` against the leading big-endian bits of
/// position `g`: the selector value of a partially fixed point.
pub open spec fn sel_weight(point: Seq<FieldElem>, g: int, n: int) -> FieldElem
    decreases point.len(),
{
    if point.len() == 0 {
        fe_one()
    } else {
        fe_mul(
            sel_weight(point.drop_last(), g, n),
            w_factor(point.last(), bit_be(g, n, point.len() - 1)),
        )
    }
}

/// The layer polynomial, partially fixed at `point`:
/// the sum over all gates of `sel_weight(point, g) * value(gate g)`.
pub open spec fn wsum(gates: Seq<Gate>, prev: Seq<FieldElem>, point: Seq<FieldElem>, n: int) -> FieldElem
    decreases gates.len(),
{
    if gates.len() == 0 {
        fe_zero()
    } else {
        fe_add(
            wsum(gates.drop_last(), prev, point, n),
            fe_mul(sel_weight(point, gates.len() - 1, n), gate_value(gates.last(), prev)),
        )
    }
}

/// The sum of a vector of residues.
pub open spec fn fe_seq_sum(s: Seq<FieldElem>) -> FieldElem
    decreases s.len(),
{
    if s.len() == 0 {
        fe_zero()
    } else {
        fe_add(fe_seq_sum(s.drop_last()), s.last())
    }
}

/// The layer widths that sum-check addressing accepts.
pub open spec fn power_of_two(m: nat) -> bool {
    exists|k: nat| pow2(k) == m
}

/// The number of hypercube variables of a power-of-two layer.
pub open spec fn log2_spec(m: nat) -> nat {
    choose|k: nat| pow2(k) == m
}

pub proof fn lemma_log2_unique(k: nat, m: nat)
    requires
        pow2(k) == m,
    ensures
        log2_spec(m) == k,
{
    assert(power_of_two(m));
    let k2 = log2_spec(m);
    assert(pow2(k2) == m);
    if k2 < k {
        vstd::arithmetic::power2::lemma_pow2_strictly_increases(k2, k);
    } else if k < k2 {
        vstd::arithmetic::power2::lemma_pow2_strictly_increases(k, k2);
    }
}

/// Partial weights are reduced residues.
pub proof fn lemma_sel_weight_wf(point: Seq<FieldElem>, g: int, n: int)
    ensures
        sel_weight(point, g, n).wf(),
    decreases point.len(),
{
    if point.len() > 0 {
        lemma_sel_weight_wf(point.drop_last(), g, n);
    }
}

/// Partially fixed layer sums are reduced residues.
pub proof fn lemma_wsum_wf(gates: Seq<Gate>, prev: Seq<FieldElem>, point: Seq<FieldElem>, n: int)
    ensures
        wsum(gates, prev, point, n).wf(),
    decreases gates.len(),
{
    if gates.len() > 0 {
        lemma_wsum_wf(gates.drop_last(), prev, point, n);
    }
}

/// Vector sums are reduced residues.
pub proof fn lemma_fe_seq_sum_wf(s: Seq<FieldElem>)
    ensures
        fe_seq_sum(s).wf(),
    decreases s.len(),
{
    if s.len() > 0 {
        lemma_fe_seq_sum_wf(s.drop_last());
    }
}

/// Fixing the next coordinate to 0 and to 1 and adding gives back the weight
/// of the shorter point: the two boolean branches of one selector bit add to 1.
pub proof fn lemma_sel_weight_split(point: Seq<FieldElem>, g: int, n: int)
    ensures
        fe_add(sel_weight(point.push(fe_zero()), g, n), sel_weight(point.push(fe_one()), g, n))
            == sel_weight(point, g, n),
{
    let s = sel_weight(point, g, n);
    let b = bit_be(g, n, point.len() as int);
    assert(point.push(fe_zero()).drop_last() =~= point);
    assert(point.push(fe_one()).drop_last() =~= point);
    lemma_sel_weight_wf(point, g, n);
    assert(w_factor(fe_zero(), b) == if b { fe_zero() } else { fe_one() });
    assert(w_factor(fe_one(), b) == if b { fe_one() } else { fe_zero() });
    lemma_mul_zero(s);
    lemma_mul_one(s);
    lemma_add_zero(s);
}

/// The weight of a point extended by a field element is the line through its
/// two boolean extensions: selectors are multilinear coordinate by coordinate.
pub proof fn lemma_sel_weight_affine(point: Seq<FieldElem>, g: int, n: int, x: FieldElem)
    requires
        x.wf(),
    ensures
        sel_weight(point.push(x), g, n) == fe_affine(
            sel_weight(point.push(fe_zero()), g, n),
            sel_weight(point.push(fe_one()), g, n),
            x,
        ),
{
    let s = sel_weight(point, g, n);
    let b = bit_be(g, n, point.len() as int);
    assert(point.push(x).drop_last() =~= point);
    assert(point.push(fe_zero()).drop_last() =~= point);
    assert(point.push(fe_one()).drop_last() =~= point);
    lemma_sel_weight_wf(point, g, n);
    lemma_mul_zero(s);
    lemma_mul_one(s);
    let q = crate::field::P as int;
    let sv = s.val as int;
    let xv = x.val as int;
    if b {
        // s * x == 0 + x * (s - 0)
        assert(sel_weight(point.push(x), g, n) == fe_mul(s, x));
        assert(fe_sub(s, fe_zero()) == s) by {
            vstd::arithmetic::div_mod::lemma_small_mod(s.val as nat, crate::field::P as nat);
        }
        assert(fe_affine(fe_zero(), s, x) == fe_add(fe_zero(), fe_mul(x, s)));
        lemma_add_zero(fe_mul(x, s));
        lemma_mul_comm(s, x);
    } else {
        // s * (1 - x) == s + x * (0 - s)
        assert(sel_weight(point.push(x), g, n) == fe_mul(s, fe_sub(fe_one(), x)));
        vstd::arithmetic::div_mod::lemma_mul_mod_noop_right(sv, 1 - xv, q);
        assert(fe_mul(s, fe_sub(fe_one(), x)).val == (sv * (1 - xv)) % q);
        assert(fe_sub(fe_zero(), s).val == (0 - sv) % q);
        vstd::arithmetic::div_mod::lemma_mul_mod_noop_right(xv, 0 - sv, q);
        vstd::arithmetic::div_mod::lemma_add_mod_noop_right(sv, xv * (0 - sv), q);
        vstd::arithmetic::div_mod::lemma_small_mod(s.val as nat, crate::field::P as nat);
        assert(fe_affine(s, fe_zero(), x).val == (sv + xv * (0 - sv)) % q);
        assert(sv * (1 - xv) == sv + xv * (0 - sv)) by (nonlinear_arith);
    }
}

/// One round's soundness identity for an honest prover: the layer sum at a
/// point equals the sum of its two boolean extensions.
pub proof fn lemma_wsum_split(gates: Seq<Gate>, prev: Seq<FieldElem>, point: Seq<FieldElem>, n: int)
    ensures
        fe_add(
            wsum(gates, prev, point.push(fe_zero()), n),
            wsum(gates, prev, point.push(fe_one()), n),
        ) == wsum(gates, prev, point, n),
    decreases gates.len(),
{
    if gates.len() == 0 {
        assert(fe_add(fe_zero(), fe_zero()) == fe_zero());
    } else {
        let rest = gates.drop_last();
        let g = gates.len() - 1;
        let v = gate_value(gates.last(), prev);
        lemma_wsum_split(rest, prev, point, n);
        lemma_add_shuffle(
            wsum(rest, prev, point.push(fe_zero()), n),
            fe_mul(sel_weight(point.push(fe_zero()), g, n), v),
            wsum(rest, prev, point.push(fe_one()), n),
            fe_mul(sel_weight(point.push(fe_one()), g, n), v),
        );
        lemma_mul_comm(sel_weight(point.push(fe_zero()), g, n), v);
        lemma_mul_comm(sel_weight(point.push(fe_one()), g, n), v);
        lemma_mul_distrib(
            v,
            sel_weight(point.push(fe_zero()), g, n),
            sel_weight(point.push(fe_one()), g, n),
        );
        lemma_sel_weight_split(point, g, n);
        lemma_mul_comm(v, sel_weight(point, g, n));
    }
}

/// The layer sum is multilinear in the coordinate being fixed: its value at a
/// field element is the line through its two boolean values.
pub proof fn lemma_wsum_affine(
    gates: Seq<Gate>,
    prev: Seq<FieldElem>,
    point: Seq<FieldElem>,
    n: int,
    x: FieldElem,
)
    requires
        x.wf(),
    ensures
        wsum(gates, prev, point.push(x), n) == fe_affine(
            wsum(gates, prev, point.push(fe_zero()), n),
            wsum(gates, prev, point.push(fe_one()), n),
            x,
        ),
    decreases gates.len(),
{
    if gates.len() == 0 {
        lemma_affine_const(fe_zero(), x);
    } else {
        let rest = gates.drop_last();
        let g = gates.len() - 1;
        let v = gate_value(gates.last(), prev);
        lemma_wsum_affine(rest, prev, point, n, x);
        lemma_sel_weight_affine(point, g, n, x);
        lemma_affine_scale(
            sel_weight(point.push(fe_zero()), g, n),
            sel_weight(point.push(fe_one()), g, n),
            v,
            x,
        );
        lemma_affine_add(
            wsum(rest, prev, point.push(fe_zero()), n),
            wsum(rest, prev, point.push(fe_one()), n),
            fe_mul(sel_weight(point.push(fe_zero()), g, n), v),
            fe_mul(sel_weight(point.push(fe_one()), g, n), v),
            x,
        );
    }
}

/// With nothing fixed, every selector weight is 1, so the layer sum is the
/// plain sum of the layer's gate values.
pub proof fn lemma_wsum_empty(
    gates: Seq<Gate>,
    prev: Seq<FieldElem>,
    vals: Seq<FieldElem>,
    n: int,
)
    requires
        eval_gates(gates, prev) == Ok::<Seq<FieldElem>, (usize, usize)>(vals),
    ensures
        wsum(gates, prev, Seq::<FieldElem>::empty(), n) == fe_seq_sum(vals),
    decreases gates.len(),
{
    if gates.len() > 0 {
        let rest = gates.drop_last();
        let prefix_vals = eval_gates(rest, prev)->Ok_0;
        lemma_wsum_empty(rest, prev, prefix_vals, n);
        assert(vals == prefix_vals.push(gate_value(gates.last(), prev)));
        assert(vals.drop_last() =~= prefix_vals);
        let v = gate_value(gates.last(), prev);
        assert(v.wf());
        lemma_mul_one(v);
    }
}

/// The two-coefficient round polynomial `[g0, g1 - g0]` evaluates to `g0` at
/// 0, to `g1` at 1, and to the line through them elsewhere.
pub proof fn lemma_round_poly(g0: FieldElem, g1: FieldElem, x: FieldElem)
    requires
        g0.wf(),
        g1.wf(),
        x.wf(),
    ensures
        poly_eval(seq![g0, fe_sub(g1, g0)], x) == fe_affine(g0, g1, x),
        poly_eval(seq![g0, fe_sub(g1, g0)], fe_zero()) == g0,
        poly_eval(seq![g0, fe_sub(g1, g0)], fe_one()) == g1,
{
    let d = fe_sub(g1, g0);
    let c = seq![g0, d];
    assert(c.len() == 2 && c[0] == g0 && c[1] == d);
    lemma_poly_eval_pair(g0, d, x);
    lemma_poly_eval_pair(g0, d, fe_zero());
    lemma_poly_eval_pair(g0, d, fe_one());
    lemma_mul_zero(d);
    lemma_add_zero(g0);
    lemma_mul_one(d);
    lemma_add_sub_cancel(g0, g1);
}

/// Evaluation of a two-coefficient polynomial, unfolded.
proof fn lemma_poly_eval_pair(c0: FieldElem, c1: FieldElem, x: FieldElem)
    requires
        c1.wf(),
    ensures
        poly_eval(seq![c0, c1], x) == fe_add(c0, fe_mul(x, c1)),
{
    let c = seq![c0, c1];
    assert(c.len() == 2 && c[0] == c0);
    assert(c.drop_first() =~= seq![c1]);
    let t = seq![c1];
    assert(t.len() == 1 && t[0] == c1);
    assert(t.drop_first() =~= Seq::<FieldElem>::empty());
    reveal_with_fuel(poly_eval, 3);
    assert(poly_eval(t, x) == fe_add(c1, fe_mul(x, fe_zero())));
    lemma_mul_zero(x);
    lemma_add_zero(c1);
}

/// A nonempty round polynomial's value at 0 is its constant coefficient.
proof fn lemma_poly_eval_at_zero(p: Seq<FieldElem>)
    requires
        p.len() > 0,
        all_wf(p),
    ensures
        poly_eval(p, fe_zero()) == p[0],
{
    lemma_mul_zero(poly_eval(p.drop_first(), fe_zero()));
    lemma_add_zero(p[0]);
}

/// Adding `delta` to coefficient `j` adds `delta` to the value at 1.
proof fn lemma_poly_eval_one_update(p: Seq<FieldElem>, j: int, delta: FieldElem)
    requires
        all_wf(p),
        0 <= j < p.len(),
    ensures
        poly_eval(p.update(j, fe_add(p[j], delta)), fe_one()) == fe_add(
            poly_eval(p, fe_one()),
            delta,
        ),
    decreases p.len(),
{
    let c = p.update(j, fe_add(p[j], delta));
    let e = poly_eval(p.drop_first(), fe_one());
    lemma_poly_eval_wf(p.drop_first(), fe_one());
    if j == 0 {
        assert(c.drop_first() =~= p.drop_first());
        lemma_mul_one(e);
        crate::field::lemma_add_assoc(p[0], delta, e);
        assert(fe_add(delta, e) == fe_add(e, delta));
        crate::field::lemma_add_assoc(p[0], e, delta);
    } else {
        lemma_poly_eval_one_update(p.drop_first(), j - 1, delta);
        assert(c.drop_first() =~= p.drop_first().update(j - 1, fe_add(p[j], delta)));
        assert(p.drop_first()[j - 1] == p[j]);
        assert(c[0] == p[0]);
        let eu = poly_eval(c.drop_first(), fe_one());
        assert(eu == fe_add(e, delta));
        lemma_mul_one(e);
        lemma_mul_one(eu);
        assert(eu.wf()) by {
            lemma_poly_eval_wf(c.drop_first(), fe_one());
        }
        crate::field::lemma_add_assoc(p[0], e, delta);
    }
}

/// A corrupted round polynomial is rejected: adding a nonzero `delta` to any
/// one coefficient of a round polynomial whose values at 0 and 1 add to the
/// carried claim breaks that identity, so the round check answers `InvalidSum`.
pub proof fn lemma_corrupted_round_rejected(
    p: Seq<FieldElem>,
    j: int,
    delta: FieldElem,
    claim: FieldElem,
)
    requires
        all_wf(p),
        0 <= j < p.len(),
        delta.wf(),
        delta.val != 0,
        fe_add(poly_eval(p, fe_zero()), poly_eval(p, fe_one())) == claim,
    ensures
        ({
            let c = p.update(j, fe_add(p[j], delta));
            fe_add(poly_eval(c, fe_zero()), poly_eval(c, fe_one())) != claim
        }),
{
    let q = crate::field::P as int;
    let c = p.update(j, fe_add(p[j], delta));
    assert(all_wf(c)) by {
        assert forall|i: int| 0 <= i < c.len() implies c[i].wf() by {
            if i != j {
                assert(c[i] == p[i]);
            }
        }
    }
    lemma_poly_eval_at_zero(p);
    lemma_poly_eval_at_zero(c);
    lemma_poly_eval_one_update(p, j, delta);
    lemma_poly_eval_wf(p, fe_one());
    let p0 = p[0].val as int;
    let e1 = poly_eval(p, fe_one()).val as int;
    let dv = delta.val as int;
    if j == 0 {
        assert(c[0] == fe_add(p[0], delta));
        vstd::arithmetic::div_mod::lemma_add_mod_noop(p0 + dv, e1 + dv, q);
        assert(fe_add(poly_eval(c, fe_zero()), poly_eval(c, fe_one())).val == (p0 + e1 + dv + dv)
            % q);
        assert((p0 + e1 + dv + dv) % q != (p0 + e1) % q) by (nonlinear_arith)
            requires
                q == 101,
                0 <= p0 < q,
                0 <= e1 < q,
                1 <= dv < q,
        ;
    } else {
        assert(c[0] == p[0]);
        vstd::arithmetic::div_mod::lemma_add_mod_noop_right(p0, e1 + dv, q);
        assert(fe_add(poly_eval(c, fe_zero()), poly_eval(c, fe_one())).val == (p0 + e1 + dv) % q);
        assert((p0 + e1 + dv) % q != (p0 + e1) % q) by (nonlinear_arith)
            requires
                q == 101,
                0 <= p0 < q,
                0 <= e1 < q,
                1 <= dv < q,
        ;
    }
    assert(fe_add(poly_eval(p, fe_zero()), poly_eval(p, fe_one())).val == (p0 + e1) % q) by {
        vstd::arithmetic::div_mod::lemma_small_mod(p[0].val as nat, crate::field::P as nat);
        vstd::arithmetic::div_mod::lemma_add_mod_noop(
            p[0].val as int,
            poly_eval(p, fe_one()).val as int,
            q,
        );
    }
}

/// Horner evaluation of a round polynomial.
pub fn evaluate_polynomial(poly: &Vec<FieldElem>, x: FieldElem) -> (r: FieldElem)
    requires
        all_wf(poly@),
        x.wf(),
    ensures
        r == poly_eval(poly@, x),
        r.wf(),
{
    let mut acc = FieldElem::zero();
    let mut i: usize = poly.len();
    proof {
        assert(poly@.skip(poly@.len() as int) =~= Seq::<FieldElem>::empty());
    }
    while i > 0
        invariant
            0 <= i <= poly@.len(),
            all_wf(poly@),
            x.wf(),
            acc.wf(),
            acc == poly_eval(poly@.skip(i as int), x),
        decreases i,
    {
        i = i - 1;
        proof {
            assert(poly@.skip(i as int).drop_first() =~= poly@.skip(i as int + 1));
            assert(poly@.skip(i as int)[0] == poly@[i as int]);
        }
        let t = acc.mul(x);
        proof {
            lemma_mul_comm(acc, x);
        }
        acc = poly[i].add(t);
        proof {
            lemma_mul_comm(x, poly_eval(poly@.skip(i as int + 1), x));
        }
    }
    proof {
        assert(poly@.skip(0) =~= poly@);
    }
    acc
}

/// The exact power-of-two logarithm of `m`, where one exists.
fn log2_exact(m: usize) -> (r: Option<usize>)
    ensures
        r is Some ==> pow2(r->0 as nat) == m as nat,
        r is None ==> !power_of_two(m as nat),
{
    if m == 0 {
        proof {
            assert forall|k: nat| pow2(k) != 0nat by {
                vstd::arithmetic::power2::lemma_pow2_pos(k);
            }
        }
        return None;
    }
    let mut k: usize = 0;
    let mut c: usize = 1;
    proof {
        vstd::arithmetic::power2::lemma2_to64();
    }
    while c < m
        invariant
            1 <= c,
            c as nat == pow2(k as nat),
            forall|j: nat| j < k ==> pow2(j) < m as nat,
        decreases 2 * m - c,
    {
        proof {
            if k >= 64 {
                vstd::arithmetic::power2::lemma2_to64();
                if k > 64 {
                    vstd::arithmetic::power2::lemma_pow2_strictly_increases(64, k as nat);
                }
                assert(false);
            }
        }
        if c > usize::MAX / 2 {
            proof {
                vstd::arithmetic::power2::lemma_pow2_unfold(k as nat + 1);
                assert forall|j: nat| pow2(j) != m as nat by {
                    if j < k as nat {
                    } else if j == k as nat {
                    } else {
                        if j > k as nat + 1 {
                            vstd::arithmetic::power2::lemma_pow2_strictly_increases(
                                k as nat + 1,
                                j,
                            );
                        }
                        assert(pow2(k as nat + 1) == 2 * pow2(k as nat));
                    }
                }
            }
            return None;
        }
        proof {
            vstd::arithmetic::power2::lemma_pow2_unfold(k as nat + 1);
        }
        c = c * 2;
        k = k + 1;
    }
    if c == m {
        Some(k)
    } else {
        proof {
            assert forall|j: nat| pow2(j) != m as nat by {
                if j > k as nat {
                    vstd::arithmetic::power2::lemma_pow2_strictly_increases(k as nat, j);
                }
            }
        }
        None
    }
}


/// The partially fixed layer sum, computed gate by gate: each gate's value is
/// weighted by the eq-product of the point against the leading bits of its position.
fn layer_weighted_sum(
    gates: &Vec<Gate>,
    prev: &Vec<FieldElem>,
    point: &Vec<FieldElem>,
    n: usize,
) -> (r: FieldElem)
    requires
        pow2(n as nat) == gates@.len(),
        point@.len() <= n,
        all_wf(prev@),
        all_wf(point@),
        forall|g: int| 0 <= g < gates@.len() ==> gate_in_bounds(#[trigger] gates@[g], prev@.len()),
    ensures
        r == wsum(gates@, prev@, point@, n as int),
        r.wf(),
{
    let mut sum = FieldElem::zero();
    let mut g: usize = 0;
    proof {
        assert(gates@.take(0) =~= Seq::<Gate>::empty());
    }
    while g < gates.len()
        invariant
            pow2(n as nat) == gates@.len(),
            point@.len() <= n,
            all_wf(prev@),
            all_wf(point@),
            forall|gi: int|
                0 <= gi < gates@.len() ==> gate_in_bounds(#[trigger] gates@[gi], prev@.len()),
            0 <= g <= gates@.len(),
            sum.wf(),
            sum == wsum(gates@.take(g as int), prev@, point@, n as int),
        decreases gates@.len() - g,
    {
        let mut wgt = FieldElem::one();
        let mut d: usize = gates.len() / 2;
        let mut j: usize = 0;
        proof {
            assert(point@.take(0) =~= Seq::<FieldElem>::empty());
            if point@.len() > 0 {
                vstd::arithmetic::power2::lemma_pow2_unfold(n as nat);
            }
        }
        while j < point.len()
            invariant
                point@.len() <= n,
                all_wf(point@),
                g < gates@.len(),
                0 <= j <= point@.len(),
                wgt.wf(),
                wgt == sel_weight(point@.take(j as int), g as int, n as int),
                j < point@.len() ==> d as nat == pow2((n - 1 - j) as nat),
            decreases point@.len() - j,
        {
            proof {
                vstd::arithmetic::power2::lemma_pow2_pos((n - 1 - j) as nat);
                assert(point@.take(j as int + 1).drop_last() =~= point@.take(j as int));
                assert(point@.take(j as int + 1).last() == point@[j as int]);
            }
            let b = (g / d) % 2 == 1;
            let x = point[j];
            let f = if b {
                x
            } else {
                FieldElem::one().sub(x)
            };
            proof {
                assert(b == bit_be(g as int, n as int, j as int));
                assert(f == w_factor(point@[j as int], bit_be(g as int, n as int, j as int)));
            }
            wgt = wgt.mul(f);
            proof {
                if j + 1 < point@.len() {
                    vstd::arithmetic::power2::lemma_pow2_unfold((n - 1 - j) as nat);
                }
            }
            d = d / 2;
            j = j + 1;
        }
        proof {
            assert(point@.take(point@.len() as int) =~= point@);
        }
        let gate = gates[g];
        let (i1, i2, is_add) = match gate {
            Gate::Add(a, b) => (a, b, true),
            Gate::Mul(a, b) => (a, b, false),
        };
        let v = if is_add {
            prev[i1].add(prev[i2])
        } else {
            prev[i1].mul(prev[i2])
        };
        proof {
            assert(gates@.take(g as int + 1).drop_last() =~= gates@.take(g as int));
            assert(gates@.take(g as int + 1).last() == gates@[g as int]);
            assert(v == gate_value(gates@[g as int], prev@));
        }
        sum = sum.add(wgt.mul(v));
        g = g + 1;
    }
    proof {
        assert(gates@.take(gates@.len() as int) =~= gates@);
    }
    sum
}

/// The prover's round value `g_i(x)`: the layer polynomial with the sampled
/// prefix fixed, the current variable set to `x`, and the remaining variables
/// summed over the boolean hypercube.
pub fn compute_layer_polynomial(
    prover: &Prover,
    layer_index: usize,
    fixed_vars: &Vec<FieldElem>,
    x: FieldElem,
) -> (r: Result<FieldElem, SumCheckError>)
    requires
        prover.wf(),
        layer_index < prover.circuit.layers@.len(),
        all_wf(fixed_vars@),
        x.wf(),
    ensures
        ({
            let gates = prover.circuit.layers@[layer_index as int].gates@;
            let prev = prover.witness@[layer_index as int]@;
            let n = log2_spec(gates.len());
            &&& !power_of_two(gates.len()) ==> r == Err::<FieldElem, SumCheckError>(
                SumCheckError::LayerSizeNotPowerOfTwo,
            )
            &&& power_of_two(gates.len()) && fixed_vars@.len() >= n ==> r == Err::<
                FieldElem,
                SumCheckError,
            >(SumCheckError::IndexOutOfBounds)
            &&& power_of_two(gates.len()) && fixed_vars@.len() < n ==> r == Ok::<
                FieldElem,
                SumCheckError,
            >(wsum(gates, prev, fixed_vars@.push(x), n as int)) && r->Ok_0.wf()
        }),
{
    let gates = &prover.circuit.layers[layer_index].gates;
    let n = match log2_exact(gates.len()) {
        Some(n) => n,
        None => {
            return Err(SumCheckError::LayerSizeNotPowerOfTwo);
        },
    };
    proof {
        lemma_log2_unique(n as nat, gates@.len());
    }
    if fixed_vars.len() >= n {
        return Err(SumCheckError::IndexOutOfBounds);
    }
    let mut point = fixed_vars.clone();
    point.push(x);
    let prev = &prover.witness[layer_index];
    proof {
        let gates_s = prover.circuit.layers@[layer_index as int].gates@;
        let prev_s = prover.witness@[layer_index as int]@;
        let out_s = prover.witness@[layer_index as int + 1]@;
        assert(eval_gates(gates_s, prev_s) == Ok::<Seq<FieldElem>, (usize, usize)>(out_s));
        crate::circuit::lemma_eval_gates_ok(gates_s, prev_s, out_s);
        assert(all_wf(prover.witness@[layer_index as int]@));
    }
    let v = layer_weighted_sum(gates, prev, &point, n);
    proof {
        lemma_wsum_wf(gates@, prev@, point@, n as int);
    }
    Ok(v)
}

/// The prover's explicit round polynomial `[g_i(0), g_i(1) - g_i(0)]`: the
/// degree-one polynomial through the round value at 0 and at 1.
pub fn generate_sum_check_polynomial(
    prover: &Prover,
    layer_index: usize,
    fixed_vars: &Vec<FieldElem>,
) -> (r: Result<Vec<FieldElem>, SumCheckError>)
    requires
        prover.wf(),
        layer_index < prover.circuit.layers@.len(),
        all_wf(fixed_vars@),
    ensures
        ({
            let gates = prover.circuit.layers@[layer_index as int].gates@;
            let prev = prover.witness@[layer_index as int]@;
            let n = log2_spec(gates.len());
            &&& !power_of_two(gates.len()) ==> r == Err::<Vec<FieldElem>, SumCheckError>(
                SumCheckError::LayerSizeNotPowerOfTwo,
            )
            &&& power_of_two(gates.len()) && fixed_vars@.len() >= n ==> r == Err::<
                Vec<FieldElem>,
                SumCheckError,
            >(SumCheckError::IndexOutOfBounds)
            &&& power_of_two(gates.len()) && fixed_vars@.len() < n ==> r is Ok && all_wf(r->Ok_0@)
                && r->Ok_0@ == seq![
                wsum(gates, prev, fixed_vars@.push(fe_zero()), n as int),
                fe_sub(
                    wsum(gates, prev, fixed_vars@.push(fe_one()), n as int),
                    wsum(gates, prev, fixed_vars@.push(fe_zero()), n as int),
                ),
            ]
        }),
{
    let g0 = match compute_layer_polynomial(prover, layer_index, fixed_vars, FieldElem::zero()) {
        Ok(v) => v,
        Err(e) => {
            return Err(e);
        },
    };
    let g1 = match compute_layer_polynomial(prover, layer_index, fixed_vars, FieldElem::one()) {
        Ok(v) => v,
        Err(e) => {
            return Err(e);
        },
    };
    let d = g1.sub(g0);
    let mut poly: Vec<FieldElem> = Vec::new();
    poly.push(g0);
    poly.push(d);
    proof {
        assert(poly@ =~= seq![g0, d]);
        assert(poly@[0] == g0 && poly@[1] == d);
    }
    Ok(poly)
}

/// One verifier round: rejects unless the round polynomial's values at 0 and 1
/// add to the carried claim, then reduces the claim to the polynomial's value
/// at the sampled challenge.
pub fn verify_round(
    current_claim: FieldElem,
    round_poly: &Vec<FieldElem>,
    round: usize,
    challenge: FieldElem,
) -> (r: Result<FieldElem, SumCheckError>)
    requires
        all_wf(round_poly@),
        challenge.wf(),
    ensures
        ({
            let s = fe_add(poly_eval(round_poly@, fe_zero()), poly_eval(round_poly@, fe_one()));
            &&& s == current_claim ==> r == Ok::<FieldElem, SumCheckError>(
                poly_eval(round_poly@, challenge),
            ) && r->Ok_0.wf()
            &&& s != current_claim ==> r == Err::<FieldElem, SumCheckError>(
                SumCheckError::InvalidSum(round, current_claim, s),
            )
        }),
{
    let s0 = evaluate_polynomial(round_poly, FieldElem::zero());
    let s1 = evaluate_polynomial(round_poly, FieldElem::one());
    let s = s0.add(s1);
    if s == current_claim {
        Ok(evaluate_polynomial(round_poly, challenge))
    } else {
        Err(SumCheckError::InvalidSum(round, current_claim, s))
    }
}

/// The verifier's last step: the fully reduced claim must equal the oracle's
/// evaluation of the layer polynomial at the sampled point.
pub fn final_check(current_claim: FieldElem, oracle_value: FieldElem) -> (r: Result<
    bool,
    SumCheckError,
>)
    ensures
        current_claim == oracle_value ==> r == Ok::<bool, SumCheckError>(true),
        current_claim != oracle_value ==> r == Err::<bool, SumCheckError>(
            SumCheckError::FinalCheckFailed,
        ),
{
    if current_claim == oracle_value {
        Ok(true)
    } else {
        Err(SumCheckError::FinalCheckFailed)
    }
}

/// The sum of a vector of layer values.
pub fn sum_values(values: &Vec<FieldElem>) -> (r: FieldElem)
    requires
        all_wf(values@),
    ensures
        r == fe_seq_sum(values@),
        r.wf(),
{
    let mut acc = FieldElem::zero();
    let mut i: usize = 0;
    proof {
        assert(values@.take(0) =~= Seq::<FieldElem>::empty());
    }
    while i < values.len()
        invariant
            all_wf(values@),
            0 <= i <= values@.len(),
            acc.wf(),
            acc == fe_seq_sum(values@.take(i as int)),
        decreases values@.len() - i,
    {
        proof {
            assert(values@.take(i as int + 1).drop_last() =~= values@.take(i as int));
            assert(values@.take(i as int + 1).last() == values@[i as int]);
        }
        acc = acc.add(values[i]);
        i = i + 1;
    }
    proof {
        assert(values@.take(values@.len() as int) =~= values@);
    }
    acc
}

/// One layer's full sum-check run, prover and verifier interleaved: one round
/// per hypercube variable, each sending a degree-one round polynomial and
/// drawing a fresh challenge, then the final oracle check against the witness.
/// Accepts a claim exactly when it is the true sum of the layer's values.
pub fn sum_check_protocol(
    prover: &Prover,
    verifier: &Verifier,
    layer_index: usize,
    claimed_sum: FieldElem,
    rng: &mut rand::rngs::StdRng,
) -> (r: Result<bool, SumCheckError>)
    requires
        prover.wf(),
        verifier.circuit == prover.circuit,
        layer_index < prover.circuit.layers@.len(),
        claimed_sum.wf(),
    ensures
        ({
            let gates = prover.circuit.layers@[layer_index as int].gates@;
            let truth = fe_seq_sum(prover.witness@[layer_index as int + 1]@);
            &&& !power_of_two(gates.len()) ==> r == Err::<bool, SumCheckError>(
                SumCheckError::LayerSizeNotPowerOfTwo,
            )
            &&& power_of_two(gates.len()) && claimed_sum == truth ==> r == Ok::<
                bool,
                SumCheckError,
            >(true)
            &&& power_of_two(gates.len()) && claimed_sum != truth && gates.len() == 1 ==> r
                == Err::<bool, SumCheckError>(SumCheckError::FinalCheckFailed)
            &&& power_of_two(gates.len()) && claimed_sum != truth && gates.len() != 1 ==> r
                == Err::<bool, SumCheckError>(SumCheckError::InvalidSum(0, claimed_sum, truth))
        }),
{
    let num_gates = verifier.circuit.layers[layer_index].gates.len();
    let n = match log2_exact(num_gates) {
        Some(n) => n,
        None => {
            return Err(SumCheckError::LayerSizeNotPowerOfTwo);
        },
    };
    let ghost gates_s = prover.circuit.layers@[layer_index as int].gates@;
    let ghost prev_s = prover.witness@[layer_index as int]@;
    let ghost out_s = prover.witness@[layer_index as int + 1]@;
    proof {
        lemma_log2_unique(n as nat, gates_s.len());
        assert(eval_gates(gates_s, prev_s) == Ok::<Seq<FieldElem>, (usize, usize)>(out_s));
        lemma_wsum_empty(gates_s, prev_s, out_s, n as int);
        lemma_fe_seq_sum_wf(out_s);
    }
    let mut fixed: Vec<FieldElem> = Vec::new();
    let mut current_claim = claimed_sum;
    let mut round: usize = 0;
    while round < n
        invariant
            prover.wf(),
            verifier.circuit == prover.circuit,
            layer_index < prover.circuit.layers@.len(),
            gates_s == prover.circuit.layers@[layer_index as int].gates@,
            prev_s == prover.witness@[layer_index as int]@,
            out_s == prover.witness@[layer_index as int + 1]@,
            pow2(n as nat) == gates_s.len(),
            wsum(gates_s, prev_s, Seq::<FieldElem>::empty(), n as int) == fe_seq_sum(out_s),
            fe_seq_sum(out_s).wf(),
            round <= n,
            fixed@.len() == round,
            all_wf(fixed@),
            current_claim.wf(),
            claimed_sum.wf(),
            round == 0 ==> current_claim == claimed_sum,
            round > 0 ==> current_claim == wsum(gates_s, prev_s, fixed@, n as int) && claimed_sum
                == fe_seq_sum(out_s),
        decreases n - round,
    {
        proof {
            lemma_log2_unique(n as nat, gates_s.len());
        }
        let poly = match generate_sum_check_polynomial(prover, layer_index, &fixed) {
            Ok(p) => p,
            Err(e) => {
                return Err(e);
            },
        };
        let ghost w0 = wsum(gates_s, prev_s, fixed@.push(fe_zero()), n as int);
        let ghost w1 = wsum(gates_s, prev_s, fixed@.push(fe_one()), n as int);
        proof {
            lemma_wsum_wf(gates_s, prev_s, fixed@.push(fe_zero()), n as int);
            lemma_wsum_wf(gates_s, prev_s, fixed@.push(fe_one()), n as int);
            lemma_round_poly(w0, w1, fe_zero());
            lemma_wsum_split(gates_s, prev_s, fixed@, n as int);
            if round == 0 {
                assert(fixed@ =~= Seq::<FieldElem>::empty());
                vstd::arithmetic::power2::lemma2_to64();
                vstd::arithmetic::power2::lemma_pow2_strictly_increases(0, n as nat);
            }
        }
        let challenge = crate::random::next_challenge(rng);
        proof {
            lemma_round_poly(w0, w1, challenge);
            lemma_wsum_affine(gates_s, prev_s, fixed@, n as int, challenge);
        }
        let next_claim = match verify_round(current_claim, &poly, round, challenge) {
            Ok(c) => c,
            Err(e) => {
                return Err(e);
            },
        };
        fixed.push(challenge);
        current_claim = next_claim;
        round = round + 1;
    }
    let gates_v = &prover.circuit.layers[layer_index].gates;
    let prev_v = &prover.witness[layer_index];
    proof {
        crate::circuit::lemma_eval_gates_ok(gates_s, prev_s, out_s);
        assert(all_wf(prover.witness@[layer_index as int]@));
        if n == 0 {
            assert(fixed@ =~= Seq::<FieldElem>::empty());
            vstd::arithmetic::power2::lemma2_to64();
        }
    }
    let final_value = layer_weighted_sum(gates_v, prev_v, &fixed, n);
    final_check(current_claim, final_value)
}


/// Polynomial values are reduced residues.
pub proof fn lemma_poly_eval_wf(p: Seq<FieldElem>, x: FieldElem)
    ensures
        poly_eval(p, x).wf(),
    decreases p.len(),
{
    if p.len() > 0 {
        lemma_poly_eval_wf(p.drop_first(), x);
    }
}

/// Coefficient `i` of a polynomial, zero past its end.
pub open spec fn coeff_at(p: Seq<FieldElem>, i: int) -> FieldElem {
    if 0 <= i < p.len() {
        p[i]
    } else {
        fe_zero()
    }
}

/// Coefficient-wise sum of two polynomials.
pub open spec fn poly_add_spec(a: Seq<FieldElem>, b: Seq<FieldElem>) -> Seq<FieldElem> {
    Seq::new(
        if a.len() >= b.len() {
            a.len()
        } else {
            b.len()
        },
        |i: int| fe_add(coeff_at(a, i), coeff_at(b, i)),
    )
}

/// A polynomial scaled by a constant.
pub open spec fn poly_scale_spec(c: FieldElem, p: Seq<FieldElem>) -> Seq<FieldElem> {
    Seq::new(p.len(), |i: int| fe_mul(c, p[i]))
}

/// A polynomial multiplied by the line `c0 + c1 * x`.
pub open spec fn poly_mul_affine_spec(p: Seq<FieldElem>, c0: FieldElem, c1: FieldElem) -> Seq<
    FieldElem,
> {
    poly_add_spec(poly_scale_spec(c0, p), seq![fe_zero()] + poly_scale_spec(c1, p))
}

/// Scaling multiplies the value.
pub proof fn lemma_poly_eval_scale(c: FieldElem, p: Seq<FieldElem>, x: FieldElem)
    ensures
        poly_eval(poly_scale_spec(c, p), x) == fe_mul(c, poly_eval(p, x)),
    decreases p.len(),
{
    if p.len() == 0 {
        lemma_mul_zero(c);
    } else {
        lemma_poly_eval_scale(c, p.drop_first(), x);
        assert(poly_scale_spec(c, p).drop_first() =~= poly_scale_spec(c, p.drop_first()));
        let e = poly_eval(p.drop_first(), x);
        crate::field::lemma_mul_assoc(x, c, e);
        lemma_mul_comm(x, c);
        crate::field::lemma_mul_assoc(c, x, e);
        lemma_mul_distrib(c, p[0], fe_mul(x, e));
    }
}

/// Prepending a zero coefficient multiplies the value by `x`.
pub proof fn lemma_poly_eval_shift(p: Seq<FieldElem>, x: FieldElem)
    ensures
        poly_eval(seq![fe_zero()] + p, x) == fe_mul(x, poly_eval(p, x)),
{
    let sp = seq![fe_zero()] + p;
    assert(sp.len() == p.len() + 1 && sp[0] == fe_zero());
    assert(sp.drop_first() =~= p);
    let m = fe_mul(x, poly_eval(p, x));
    assert(m.wf());
    lemma_add_zero(m);
}

/// Coefficient-wise addition adds the values.
pub proof fn lemma_poly_eval_add(a: Seq<FieldElem>, b: Seq<FieldElem>, x: FieldElem)
    requires
        all_wf(a),
        all_wf(b),
    ensures
        poly_eval(poly_add_spec(a, b), x) == fe_add(poly_eval(a, x), poly_eval(b, x)),
    decreases a.len() + b.len(),
{
    let p = poly_add_spec(a, b);
    if a.len() == 0 && b.len() == 0 {
        assert(p =~= Seq::<FieldElem>::empty());
    } else if a.len() == 0 {
        assert forall|i: int| 0 <= i < p.len() implies p[i] == b[i] by {
            lemma_add_zero(b[i]);
        }
        assert(p =~= b);
        lemma_poly_eval_wf(b, x);
        lemma_add_zero(poly_eval(b, x));
    } else if b.len() == 0 {
        assert forall|i: int| 0 <= i < p.len() implies p[i] == a[i] by {
            lemma_add_zero(a[i]);
        }
        assert(p =~= a);
        lemma_poly_eval_wf(a, x);
        lemma_add_zero(poly_eval(a, x));
    } else {
        lemma_poly_eval_add(a.drop_first(), b.drop_first(), x);
        assert(p.drop_first() =~= poly_add_spec(a.drop_first(), b.drop_first()));
        assert(p[0] == fe_add(a[0], b[0]));
        let ea = poly_eval(a.drop_first(), x);
        let eb = poly_eval(b.drop_first(), x);
        lemma_mul_distrib(x, ea, eb);
        crate::field::lemma_add_shuffle(a[0], fe_mul(x, ea), b[0], fe_mul(x, eb));
    }
}

/// Multiplying by a line multiplies the value by that line's value.
pub proof fn lemma_poly_eval_mul_affine(
    p: Seq<FieldElem>,
    c0: FieldElem,
    c1: FieldElem,
    x: FieldElem,
)
    ensures
        poly_eval(poly_mul_affine_spec(p, c0, c1), x) == fe_mul(
            poly_eval(p, x),
            fe_add(c0, fe_mul(x, c1)),
        ),
{
    let s0 = poly_scale_spec(c0, p);
    let s1 = poly_scale_spec(c1, p);
    assert(all_wf(s0));
    assert(all_wf(seq![fe_zero()] + s1)) by {
        assert forall|i: int| 0 <= i < (seq![fe_zero()] + s1).len() implies (seq![fe_zero()]
            + s1)[i].wf() by {
            if i > 0 {
                assert((seq![fe_zero()] + s1)[i] == s1[i - 1]);
            }
        }
    }
    lemma_poly_eval_add(s0, seq![fe_zero()] + s1, x);
    lemma_poly_eval_scale(c0, p, x);
    lemma_poly_eval_shift(s1, x);
    lemma_poly_eval_scale(c1, p, x);
    let e = poly_eval(p, x);
    // c0 * e + x * (c1 * e) == e * (c0 + x * c1)
    lemma_mul_comm(c0, e);
    crate::field::lemma_mul_assoc(x, c1, e);
    lemma_mul_comm(fe_mul(x, c1), e);
    lemma_mul_distrib(e, c0, fe_mul(x, c1));
}

/// Coefficient-wise sum, executable.
pub fn poly_add_vec(a: &Vec<FieldElem>, b: &Vec<FieldElem>) -> (r: Vec<FieldElem>)
    requires
        all_wf(a@),
        all_wf(b@),
    ensures
        r@ == poly_add_spec(a@, b@),
        all_wf(r@),
{
    let n = if a.len() >= b.len() {
        a.len()
    } else {
        b.len()
    };
    let mut r: Vec<FieldElem> = Vec::new();
    let mut i: usize = 0;
    while i < n
        invariant
            all_wf(a@),
            all_wf(b@),
            n == if a@.len() >= b@.len() {
                a@.len()
            } else {
                b@.len()
            },
            0 <= i <= n,
            r@.len() == i,
            forall|j: int| 0 <= j < i ==> (#[trigger] r@[j]) == fe_add(coeff_at(a@, j), coeff_at(b@, j)),
        decreases n - i,
    {
        let ca = if i < a.len() {
            a[i]
        } else {
            FieldElem::zero()
        };
        let cb = if i < b.len() {
            b[i]
        } else {
            FieldElem::zero()
        };
        r.push(ca.add(cb));
        i = i + 1;
    }
    proof {
        assert(r@ =~= poly_add_spec(a@, b@));
    }
    r
}

/// Multiplication by the line `c0 + c1 * x`, executable.
pub fn poly_mul_affine_vec(p: &Vec<FieldElem>, c0: FieldElem, c1: FieldElem) -> (r: Vec<FieldElem>)
    requires
        all_wf(p@),
        p@.len() < usize::MAX,
        c0.wf(),
        c1.wf(),
    ensures
        r@ == poly_mul_affine_spec(p@, c0, c1),
        all_wf(r@),
{
    let mut r: Vec<FieldElem> = Vec::new();
    let n = p.len() + 1;
    let mut i: usize = 0;
    while i < n
        invariant
            all_wf(p@),
            c0.wf(),
            c1.wf(),
            n == p@.len() + 1,
            0 <= i <= n,
            r@.len() == i,
            forall|j: int|
                0 <= j < i ==> (#[trigger] r@[j]) == fe_add(
                    coeff_at(poly_scale_spec(c0, p@), j),
                    coeff_at(seq![fe_zero()] + poly_scale_spec(c1, p@), j),
                ),
        decreases n - i,
    {
        let lo = if i < p.len() {
            p[i].mul(c0)
        } else {
            FieldElem::zero()
        };
        let hi = if i >= 1 {
            p[i - 1].mul(c1)
        } else {
            FieldElem::zero()
        };
        proof {
            lemma_mul_comm(c0, coeff_at(p@, i as int));
            if i >= 1 {
                lemma_mul_comm(c1, p@[i as int - 1]);
                assert((seq![fe_zero()] + poly_scale_spec(c1, p@))[i as int] == poly_scale_spec(
                    c1,
                    p@,
                )[i as int - 1]);
            }
        }
        r.push(lo.add(hi));
        i = i + 1;
    }
    proof {
        assert(poly_mul_affine_spec(p@, c0, c1).len() == n);
        assert(r@ =~= poly_mul_affine_spec(p@, c0, c1));
    }
    r
}


/// A one-coefficient polynomial is constant.
proof fn lemma_poly_eval_single(c: FieldElem, x: FieldElem)
    requires
        c.wf(),
    ensures
        poly_eval(seq![c], x) == c,
{
    let p = seq![c];
    assert(p.len() == 1 && p[0] == c);
    assert(p.drop_first() =~= Seq::<FieldElem>::empty());
    reveal_with_fuel(poly_eval, 3);
    lemma_mul_zero(x);
    lemma_add_zero(c);
}

/// The point `prefix`, one middle coordinate, then `suffix`, as one vector.
fn append_point(prefix: &Vec<FieldElem>, mid: FieldElem, suffix: &Vec<FieldElem>) -> (r: Vec<
    FieldElem,
>)
    requires
        all_wf(prefix@),
        mid.wf(),
        all_wf(suffix@),
    ensures
        r@ == prefix@ + seq![mid] + suffix@,
        all_wf(r@),
{
    let mut r = prefix.clone();
    r.push(mid);
    proof {
        assert(r@ =~= (prefix@ + seq![mid]) + suffix@.take(0));
    }
    let mut i: usize = 0;
    while i < suffix.len()
        invariant
            0 <= i <= suffix@.len(),
            r@ == (prefix@ + seq![mid]) + suffix@.take(i as int),
        decreases suffix@.len() - i,
    {
        r.push(suffix[i]);
        proof {
            assert(((prefix@ + seq![mid]) + suffix@.take(i as int)).push(suffix@[i as int]) =~= (
            prefix@ + seq![mid]) + suffix@.take(i as int + 1));
        }
        i = i + 1;
    }
    proof {
        assert(suffix@.take(suffix@.len() as int) =~= suffix@);
        assert((prefix@ + seq![mid]) + suffix@ =~= prefix@ + seq![mid] + suffix@);
        assert forall|j: int| 0 <= j < r@.len() implies r@[j].wf() by {
            if j < prefix@.len() {
                assert(r@[j] == prefix@[j]);
            } else if j == prefix@.len() {
                assert(r@[j] == mid);
            } else {
                assert(r@[j] == suffix@[j - prefix@.len() - 1]);
            }
        }
    }
    r
}

/// The honest prover's round polynomial for a virtual polynomial, as explicit
/// coefficients: its value at every `x` is the sum of the polynomial over all
/// boolean completions of `prefix + [x] + suffix`.
fn virtual_round_polynomial(
    poly: &crate::virtual_poly::VirtualPolynomial,
    prefix: &Vec<FieldElem>,
    suffix: &Vec<FieldElem>,
    rem: usize,
) -> (r: Vec<FieldElem>)
    requires
        poly.wf(),
        poly.max_degree < usize::MAX,
        all_wf(prefix@),
        all_wf(suffix@),
        prefix@.len() + 1 + suffix@.len() + rem == poly.num_vars,
    ensures
        all_wf(r@),
        forall|x: FieldElem|
            x.wf() ==> #[trigger] poly_eval(r@, x) == crate::virtual_poly::vp_hypercube_sum(
                poly.products@,
                poly.flattened_ml_extensions@,
                prefix@ + seq![x] + suffix@,
                rem as nat,
            ),
    decreases rem,
{
    let ghost ps = poly.products@;
    let ghost ms = poly.flattened_ml_extensions@;
    if rem == 0 {
        let pt0 = append_point(prefix, FieldElem::zero(), suffix);
        let pt1 = append_point(prefix, FieldElem::one(), suffix);
        let mut acc: Vec<FieldElem> = Vec::new();
        let mut t: usize = 0;
        proof {
            assert(ps.take(0) =~= Seq::<(FieldElem, Vec<usize>)>::empty());
        }
        while t < poly.products.len()
            invariant
                poly.wf(),
                poly.max_degree < usize::MAX,
                ps == poly.products@,
                ms == poly.flattened_ml_extensions@,
                all_wf(prefix@),
                all_wf(suffix@),
                prefix@.len() + 1 + suffix@.len() == poly.num_vars,
                pt0@ == prefix@ + seq![fe_zero()] + suffix@,
                pt1@ == prefix@ + seq![fe_one()] + suffix@,
                all_wf(pt0@),
                all_wf(pt1@),
                0 <= t <= ps.len(),
                all_wf(acc@),
                forall|x: FieldElem|
                    x.wf() ==> #[trigger] poly_eval(acc@, x) == crate::virtual_poly::vp_eval(
                        ps.take(t as int),
                        ms,
                        prefix@ + seq![x] + suffix@,
                    ),
            decreases ps.len() - t,
        {
            proof {
                assert(crate::virtual_poly::prod_wf(
                    ps[t as int],
                    ms.len() as int,
                    poly.max_degree as int,
                ));
            }
            let coeff = poly.products[t].0;
            let mut tp: Vec<FieldElem> = Vec::new();
            tp.push(coeff);
            let ghost fs = ps[t as int].1@;
            proof {
                assert(fs.take(0) =~= Seq::<usize>::empty());
                assert(tp@ =~= seq![coeff]);
                assert forall|x: FieldElem| x.wf() implies #[trigger] poly_eval(tp@, x) == fe_mul(
                    coeff,
                    crate::virtual_poly::prod_eval(
                        fs.take(0),
                        ms,
                        prefix@ + seq![x] + suffix@,
                    ),
                ) by {
                    lemma_poly_eval_single(coeff, x);
                    lemma_mul_one(coeff);
                }
            }
            let mut f: usize = 0;
            while f < poly.products[t].1.len()
                invariant
                    poly.wf(),
                    poly.max_degree < usize::MAX,
                    ps == poly.products@,
                    ms == poly.flattened_ml_extensions@,
                    all_wf(prefix@),
                    all_wf(suffix@),
                    prefix@.len() + 1 + suffix@.len() == poly.num_vars,
                    pt0@ == prefix@ + seq![fe_zero()] + suffix@,
                    pt1@ == prefix@ + seq![fe_one()] + suffix@,
                    all_wf(pt0@),
                    all_wf(pt1@),
                    t < ps.len(),
                    fs == ps[t as int].1@,
                    coeff == ps[t as int].0,
                    crate::virtual_poly::prod_wf(
                        ps[t as int],
                        ms.len() as int,
                        poly.max_degree as int,
                    ),
                    0 <= f <= fs.len(),
                    tp@.len() == f + 1,
                    all_wf(tp@),
                    forall|x: FieldElem|
                        x.wf() ==> #[trigger] poly_eval(tp@, x) == fe_mul(
                            coeff,
                            crate::virtual_poly::prod_eval(
                                fs.take(f as int),
                                ms,
                                prefix@ + seq![x] + suffix@,
                            ),
                        ),
                decreases fs.len() - f,
            {
                let idx = poly.products[t].1[f];
                proof {
                    assert(fs[f as int] < ms.len());
                    assert(ms[fs[f as int] as int].wf());
                }
                let e0 = match poly.flattened_ml_extensions[idx].evaluate(&pt0) {
                    Ok(v) => v,
                    Err(_) => FieldElem::zero(),
                };
                let e1 = match poly.flattened_ml_extensions[idx].evaluate(&pt1) {
                    Ok(v) => v,
                    Err(_) => FieldElem::zero(),
                };
                let d = e1.sub(e0);
                let tp2 = poly_mul_affine_vec(&tp, e0, d);
                proof {
                    let tbl = ms[fs[f as int] as int].evaluations@;
                    assert forall|x: FieldElem| x.wf() implies #[trigger] poly_eval(tp2@, x)
                        == fe_mul(
                        coeff,
                        crate::virtual_poly::prod_eval(
                            fs.take(f as int + 1),
                            ms,
                            prefix@ + seq![x] + suffix@,
                        ),
                    ) by {
                        let ptx = prefix@ + seq![x] + suffix@;
                        lemma_poly_eval_mul_affine(tp@, e0, d, x);
                        crate::mle::lemma_eval_mle_affine(
                            tbl,
                            prefix@,
                            x,
                            suffix@,
                            ms[fs[f as int] as int].num_vars as nat,
                        );
                        assert(fe_add(e0, fe_mul(x, fe_sub(e1, e0))) == crate::field::fe_affine(
                            e0,
                            e1,
                            x,
                        ));
                        assert(fs.take(f as int + 1).drop_last() =~= fs.take(f as int));
                        assert(fs.take(f as int + 1).last() == fs[f as int]);
                        crate::field::lemma_mul_assoc(
                            coeff,
                            crate::virtual_poly::prod_eval(fs.take(f as int), ms, ptx),
                            crate::mle::eval_mle(tbl, ptx),
                        );
                    }
                }
                tp = tp2;
                f = f + 1;
            }
            proof {
                assert(fs.take(fs.len() as int) =~= fs);
                assert(ps.take(t as int + 1).drop_last() =~= ps.take(t as int));
                assert(ps.take(t as int + 1).last() == ps[t as int]);
            }
            let acc2 = poly_add_vec(&acc, &tp);
            proof {
                assert forall|x: FieldElem| x.wf() implies #[trigger] poly_eval(acc2@, x)
                    == crate::virtual_poly::vp_eval(
                    ps.take(t as int + 1),
                    ms,
                    prefix@ + seq![x] + suffix@,
                ) by {
                    lemma_poly_eval_add(acc@, tp@, x);
                }
            }
            acc = acc2;
            t = t + 1;
        }
        proof {
            assert(ps.take(ps.len() as int) =~= ps);
        }
        acc
    } else {
        let mut s0 = suffix.clone();
        s0.push(FieldElem::zero());
        let a = virtual_round_polynomial(poly, prefix, &s0, rem - 1);
        let mut s1 = suffix.clone();
        s1.push(FieldElem::one());
        let b = virtual_round_polynomial(poly, prefix, &s1, rem - 1);
        let r = poly_add_vec(&a, &b);
        proof {
            assert forall|x: FieldElem| x.wf() implies #[trigger] poly_eval(r@, x)
                == crate::virtual_poly::vp_hypercube_sum(
                ps,
                ms,
                prefix@ + seq![x] + suffix@,
                rem as nat,
            ) by {
                lemma_poly_eval_add(a@, b@, x);
                assert(prefix@ + seq![x] + s0@ =~= (prefix@ + seq![x] + suffix@).push(fe_zero()));
                assert(prefix@ + seq![x] + s1@ =~= (prefix@ + seq![x] + suffix@).push(fe_one()));
            }
        }
        r
    }
}

/// A full sum-check run over a virtual polynomial, prover and verifier
/// interleaved: one round per variable, each sending the round polynomial's
/// coefficients and drawing a fresh challenge, then the final check against
/// the polynomial's own evaluation at the sampled point. Accepts a claim
/// exactly when it is the polynomial's true sum over the boolean hypercube.
pub fn sum_check_virtual(
    poly: &crate::virtual_poly::VirtualPolynomial,
    claimed_sum: FieldElem,
    rng: &mut rand::rngs::StdRng,
) -> (r: Result<bool, SumCheckError>)
    requires
        poly.wf(),
        poly.max_degree < usize::MAX,
        claimed_sum.wf(),
    ensures
        ({
            let truth = crate::virtual_poly::vp_hypercube_sum(
                poly.products@,
                poly.flattened_ml_extensions@,
                Seq::<FieldElem>::empty(),
                poly.num_vars as nat,
            );
            &&& claimed_sum == truth ==> r == Ok::<bool, SumCheckError>(true)
            &&& claimed_sum != truth && poly.num_vars == 0 ==> r == Err::<bool, SumCheckError>(
                SumCheckError::FinalCheckFailed,
            )
            &&& claimed_sum != truth && poly.num_vars != 0 ==> r == Err::<bool, SumCheckError>(
                SumCheckError::InvalidSum(0, claimed_sum, truth),
            )
        }),
{
    let ghost ps = poly.products@;
    let ghost ms = poly.flattened_ml_extensions@;
    let nv = poly.num_vars;
    let ghost truth = crate::virtual_poly::vp_hypercube_sum(
        ps,
        ms,
        Seq::<FieldElem>::empty(),
        nv as nat,
    );
    proof {
        crate::virtual_poly::lemma_vp_hypercube_sum_wf(ps, ms, Seq::<FieldElem>::empty(), nv as nat);
    }
    let none: Vec<FieldElem> = Vec::new();
    let mut fixed: Vec<FieldElem> = Vec::new();
    let mut current_claim = claimed_sum;
    let mut round: usize = 0;
    while round < nv
        invariant
            poly.wf(),
            poly.max_degree < usize::MAX,
            ps == poly.products@,
            ms == poly.flattened_ml_extensions@,
            nv == poly.num_vars,
            truth == crate::virtual_poly::vp_hypercube_sum(
                ps,
                ms,
                Seq::<FieldElem>::empty(),
                nv as nat,
            ),
            truth.wf(),
            none@.len() == 0,
            0 <= round <= nv,
            fixed@.len() == round,
            all_wf(fixed@),
            current_claim.wf(),
            claimed_sum.wf(),
            round == 0 ==> current_claim == claimed_sum,
            round > 0 ==> current_claim == crate::virtual_poly::vp_hypercube_sum(
                ps,
                ms,
                fixed@,
                (nv - round) as nat,
            ) && claimed_sum == truth,
        decreases nv - round,
    {
        let rem = nv - round - 1;
        let coeffs = virtual_round_polynomial(poly, &fixed, &none, rem);
        let challenge = crate::random::next_challenge(rng);
        proof {
            assert(fixed@ + seq![fe_zero()] + none@ =~= fixed@.push(fe_zero()));
            assert(fixed@ + seq![fe_one()] + none@ =~= fixed@.push(fe_one()));
            assert(fixed@ + seq![challenge] + none@ =~= fixed@.push(challenge));
            if round == 0 {
                assert(fixed@ =~= Seq::<FieldElem>::empty());
            }
        }
        let next_claim = match verify_round(current_claim, &coeffs, round, challenge) {
            Ok(c) => c,
            Err(e) => {
                return Err(e);
            },
        };
        fixed.push(challenge);
        current_claim = next_claim;
        round = round + 1;
    }
    proof {
        if nv == 0 {
            assert(fixed@ =~= Seq::<FieldElem>::empty());
        }
    }
    let final_value = match poly.evaluate(&fixed) {
        Ok(v) => v,
        Err(_) => FieldElem::zero(),
    };
    final_check(current_claim, final_value)
}

} // verus!
