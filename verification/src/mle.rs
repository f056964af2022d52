//! Dense multilinear extensions: the unique multilinear polynomial agreeing
//! with a table of `2^n` values on the boolean hypercube, with entry `i`
//! indexed by the binary representation of the point (bit `k` of `i` is the
//! value of variable `k`).
use crate::circuit::all_wf;
use crate::field::{
    fe_add, fe_mul, fe_one, fe_sub, fe_zero, lemma_add_sub_cancel, lemma_add_zero, lemma_mul_one,
    lemma_mul_zero, FieldElem,
};
use vstd::arithmetic::power2::pow2;
use vstd::prelude::*;

verus! {

/// Structural failures of polynomial construction and evaluation.
#[derive(Clone, Copy, Debug, PartialEq, Eq, Structural)]
pub enum PolyError {
    /// The table length is not `2^num_vars`.
    SizeMismatch,
    /// Two polynomials, or a polynomial and a point, disagree on `num_vars`.
    DimensionMismatch,
}

/// An evaluation table of length `2^num_vars` over the field.
#[derive(Clone, Debug)]
pub struct DenseMultilinearExtension {
    pub num_vars: usize,
    pub evaluations: Vec<FieldElem>,
}

/// One halving pass: fixes the current first variable to `x`, pairing entry
/// `2i` (variable 0) with entry `2i + 1` (variable 1) as `v0 + x * (v1 - v0)`.
pub open spec fn fix_first(t: Seq<FieldElem>, x: FieldElem) -> Seq<FieldElem> {
    Seq::new((t.len() / 2) as nat, |i: int| fe_add(t[2 * i], fe_mul(x, fe_sub(t[2 * i + 1], t[2 * i]))))
}

/// The table after fixing the leading variables to `point`, one pass each, in order.
pub open spec fn fix_seq(t: Seq<FieldElem>, point: Seq<FieldElem>) -> Seq<FieldElem>
    decreases point.len(),
{
    if point.len() == 0 {
        t
    } else {
        fix_first(fix_seq(t, point.drop_last()), point.last())
    }
}

/// Multilinear interpolation of the table at `point`: all variables fixed, one
/// value left.
pub open spec fn eval_mle(t: Seq<FieldElem>, point: Seq<FieldElem>) -> FieldElem {
    fix_seq(t, point)[0]
}

/// The hypercube index of a boolean point: bit `k` is the value of variable `k`.
pub open spec fn point_index(point: Seq<FieldElem>) -> int
    decreases point.len(),
{
    if point.len() == 0 {
        0
    } else {
        point[0].val + 2 * point_index(point.drop_first())
    }
}

/// Every coordinate is 0 or 1.
pub open spec fn boolean_point(point: Seq<FieldElem>) -> bool {
    forall|i: int| 0 <= i < point.len() ==> point[i].val == 0 || point[i].val == 1
}

/// The fixing passes can also be taken front first.
pub proof fn lemma_fix_seq_front(t: Seq<FieldElem>, point: Seq<FieldElem>)
    requires
        point.len() > 0,
    ensures
        fix_seq(t, point) == fix_seq(fix_first(t, point[0]), point.drop_first()),
    decreases point.len(),
{
    if point.len() == 1 {
        assert(point.drop_last() =~= Seq::<FieldElem>::empty());
        assert(point.drop_first() =~= Seq::<FieldElem>::empty());
        assert(point.last() == point[0]);
    } else {
        let t2 = fix_first(t, point[0]);
        lemma_fix_seq_front(t, point.drop_last());
        assert(point.drop_last()[0] == point[0]);
        assert(fix_seq(t, point.drop_last()) == fix_seq(t2, point.drop_last().drop_first()));
        assert(fix_seq(t, point) == fix_first(fix_seq(t, point.drop_last()), point.last()));
        assert(point.drop_first().drop_last() =~= point.drop_last().drop_first());
        assert(point.drop_first().last() == point.last());
        assert(point.drop_first().len() > 0);
        assert(fix_seq(t2, point.drop_first()) == fix_first(
            fix_seq(t2, point.drop_first().drop_last()),
            point.drop_first().last(),
        ));
    }
}

/// Each pass halves the table: after `k` of `n` passes, `2^(n - k)` entries remain.
pub proof fn lemma_fix_seq_len(t: Seq<FieldElem>, point: Seq<FieldElem>, n: nat)
    requires
        t.len() == pow2(n),
        point.len() <= n,
    ensures
        fix_seq(t, point).len() == pow2((n - point.len()) as nat),
    decreases point.len(),
{
    if point.len() == 0 {
    } else {
        lemma_fix_seq_len(t, point.drop_last(), n);
        vstd::arithmetic::power2::lemma_pow2_unfold((n - point.len() + 1) as nat);
    }
}

/// Passes preserve reduced residues.
pub proof fn lemma_fix_seq_wf(t: Seq<FieldElem>, point: Seq<FieldElem>)
    requires
        all_wf(t),
    ensures
        all_wf(fix_seq(t, point)),
    decreases point.len(),
{
    if point.len() > 0 {
        lemma_fix_seq_wf(t, point.drop_last());
    }
}

/// Interpolation at a full point of a well-formed table gives a reduced residue.
pub proof fn lemma_eval_mle_wf(t: Seq<FieldElem>, point: Seq<FieldElem>, n: nat)
    requires
        t.len() == pow2(n),
        point.len() == n,
        all_wf(t),
    ensures
        eval_mle(t, point).wf(),
{
    lemma_fix_seq_len(t, point, n);
    lemma_fix_seq_wf(t, point);
    vstd::arithmetic::power2::lemma_pow2_pos(0);
    assert(fix_seq(t, point).len() == pow2(0));
    vstd::arithmetic::power2::lemma2_to64();
}

/// On a boolean point, interpolation reproduces the table entry at the point's
/// index exactly.
pub proof fn lemma_eval_boolean_point(t: Seq<FieldElem>, point: Seq<FieldElem>, n: nat)
    requires
        t.len() == pow2(n),
        point.len() == n,
        all_wf(t),
        boolean_point(point),
    ensures
        0 <= point_index(point) < t.len(),
        eval_mle(t, point) == t[point_index(point)],
    decreases n,
{
    vstd::arithmetic::power2::lemma2_to64();
    if n == 0 {
        assert(point.len() == 0);
        assert(fix_seq(t, point) == t);
    } else {
        let x = point[0];
        let rest = point.drop_first();
        let t2 = fix_first(t, x);
        lemma_fix_seq_front(t, point);
        vstd::arithmetic::power2::lemma_pow2_unfold(n);
        assert(t2.len() == pow2((n - 1) as nat));
        assert forall|i: int| 0 <= i < t2.len() implies #[trigger] t2[i] == if x.val == 0 {
            t[2 * i]
        } else {
            t[2 * i + 1]
        } by {
            let d = fe_sub(t[2 * i + 1], t[2 * i]);
            if x.val == 0 {
                assert(x == fe_zero());
                lemma_mul_zero(d);
                lemma_add_zero(t[2 * i]);
            } else {
                assert(x == fe_one());
                lemma_mul_one(d);
                lemma_add_sub_cancel(t[2 * i], t[2 * i + 1]);
            }
        }
        assert(all_wf(t2)) by {
            assert forall|i: int| 0 <= i < t2.len() implies t2[i].wf() by {
                assert(t2[i] == if x.val == 0 {
                    t[2 * i]
                } else {
                    t[2 * i + 1]
                });
            }
        }
        lemma_eval_boolean_point(t2, rest, (n - 1) as nat);
        let ri = point_index(rest);
        assert(t2[ri] == if x.val == 0 {
            t[2 * ri]
        } else {
            t[2 * ri + 1]
        });
        assert(point_index(point) == x.val + 2 * ri);
    }
}

/// Fixing variables in two stages equals fixing them in one pass.
pub proof fn lemma_fix_seq_concat(t: Seq<FieldElem>, p: Seq<FieldElem>, q: Seq<FieldElem>)
    ensures
        fix_seq(t, p + q) == fix_seq(fix_seq(t, p), q),
    decreases q.len(),
{
    if q.len() == 0 {
        assert(p + q =~= p);
    } else {
        lemma_fix_seq_concat(t, p, q.drop_last());
        assert((p + q).drop_last() =~= p + q.drop_last());
        assert((p + q).last() == q.last());
    }
}

/// `c` is, entry by entry, the line through `a` and `b` at `x`.
pub open spec fn pointwise_affine(
    a: Seq<FieldElem>,
    b: Seq<FieldElem>,
    c: Seq<FieldElem>,
    x: FieldElem,
) -> bool {
    &&& b.len() == a.len()
    &&& c.len() == a.len()
    &&& forall|i: int| 0 <= i < a.len() ==> #[trigger] c[i] == crate::field::fe_affine(a[i], b[i], x)
}

/// One halving pass keeps tables on a line on a line: fixing the next variable
/// commutes with taking the pointwise line through two tables.
pub proof fn lemma_fix_first_affine(
    a: Seq<FieldElem>,
    b: Seq<FieldElem>,
    c: Seq<FieldElem>,
    x: FieldElem,
    y: FieldElem,
)
    requires
        pointwise_affine(a, b, c, x),
    ensures
        pointwise_affine(fix_first(a, y), fix_first(b, y), fix_first(c, y), x),
{
    assert forall|i: int| 0 <= i < fix_first(a, y).len() implies #[trigger] fix_first(c, y)[i]
        == crate::field::fe_affine(fix_first(a, y)[i], fix_first(b, y)[i], x) by {
        assert(c[2 * i] == crate::field::fe_affine(a[2 * i], b[2 * i], x));
        assert(c[2 * i + 1] == crate::field::fe_affine(a[2 * i + 1], b[2 * i + 1], x));
        crate::field::lemma_affine_exchange(a[2 * i], b[2 * i], a[2 * i + 1], b[2 * i + 1], x, y);
    }
}

/// All halving passes keep tables on a line.
pub proof fn lemma_fix_seq_affine(
    a: Seq<FieldElem>,
    b: Seq<FieldElem>,
    c: Seq<FieldElem>,
    pts: Seq<FieldElem>,
    x: FieldElem,
)
    requires
        pointwise_affine(a, b, c, x),
    ensures
        pointwise_affine(fix_seq(a, pts), fix_seq(b, pts), fix_seq(c, pts), x),
    decreases pts.len(),
{
    if pts.len() > 0 {
        lemma_fix_seq_affine(a, b, c, pts.drop_last(), x);
        lemma_fix_first_affine(
            fix_seq(a, pts.drop_last()),
            fix_seq(b, pts.drop_last()),
            fix_seq(c, pts.drop_last()),
            x,
            pts.last(),
        );
    }
}

/// Multilinearity of interpolation: in any one coordinate, the value at a
/// field element is the line through the values at 0 and at 1.
pub proof fn lemma_eval_mle_affine(
    t: Seq<FieldElem>,
    p1: Seq<FieldElem>,
    x: FieldElem,
    p2: Seq<FieldElem>,
    n: nat,
)
    requires
        t.len() == pow2(n),
        all_wf(t),
        p1.len() + 1 + p2.len() == n,
    ensures
        eval_mle(t, p1 + seq![x] + p2) == crate::field::fe_affine(
            eval_mle(t, p1 + seq![fe_zero()] + p2),
            eval_mle(t, p1 + seq![fe_one()] + p2),
            x,
        ),
{
    let tp = fix_seq(t, p1);
    lemma_fix_seq_wf(t, p1);
    lemma_fix_seq_len(t, p1, n);
    vstd::arithmetic::power2::lemma_pow2_unfold((n - p1.len()) as nat);
    let sx = seq![x] + p2;
    let s0 = seq![fe_zero()] + p2;
    let s1 = seq![fe_one()] + p2;
    assert(p1 + seq![x] + p2 =~= p1 + sx);
    assert(p1 + seq![fe_zero()] + p2 =~= p1 + s0);
    assert(p1 + seq![fe_one()] + p2 =~= p1 + s1);
    lemma_fix_seq_concat(t, p1, sx);
    lemma_fix_seq_concat(t, p1, s0);
    lemma_fix_seq_concat(t, p1, s1);
    assert(sx[0] == x && s0[0] == fe_zero() && s1[0] == fe_one());
    assert(sx.drop_first() =~= p2);
    assert(s0.drop_first() =~= p2);
    assert(s1.drop_first() =~= p2);
    lemma_fix_seq_front(tp, sx);
    lemma_fix_seq_front(tp, s0);
    lemma_fix_seq_front(tp, s1);
    let a = fix_first(tp, fe_zero());
    let b = fix_first(tp, fe_one());
    let c = fix_first(tp, x);
    assert(pointwise_affine(a, b, c, x)) by {
        assert forall|i: int| 0 <= i < a.len() implies #[trigger] c[i] == crate::field::fe_affine(
            a[i],
            b[i],
            x,
        ) by {
            let d = fe_sub(tp[2 * i + 1], tp[2 * i]);
            lemma_mul_zero(d);
            lemma_add_zero(tp[2 * i]);
            lemma_mul_one(d);
            lemma_add_sub_cancel(tp[2 * i], tp[2 * i + 1]);
            assert(a[i] == tp[2 * i]);
            assert(b[i] == tp[2 * i + 1]);
        }
    }
    lemma_fix_seq_affine(a, b, c, p2, x);
    assert(a.len() == pow2((n - p1.len() - 1) as nat));
    lemma_fix_seq_len(a, p2, (n - p1.len() - 1) as nat);
    vstd::arithmetic::power2::lemma2_to64();
    assert(fix_seq(a, p2).len() == 1);
    assert(fix_seq(c, p2)[0] == crate::field::fe_affine(fix_seq(a, p2)[0], fix_seq(b, p2)[0], x));
}

/// A checked power of two: `Some(2^e)` where it fits the machine, `None` where
/// it does not.
pub(crate) fn pow2_checked(e: usize) -> (r: Option<usize>)
    ensures
        r is Some ==> r->0 as nat == pow2(e as nat),
        r is None ==> pow2(e as nat) > usize::MAX,
{
    let mut k: usize = 0;
    let mut c: usize = 1;
    proof {
        vstd::arithmetic::power2::lemma2_to64();
    }
    while k < e
        invariant
            k <= e,
            c as nat == pow2(k as nat),
        decreases e - k,
    {
        if c > usize::MAX / 2 {
            proof {
                vstd::arithmetic::power2::lemma_pow2_unfold(k as nat + 1);
                if e > k + 1 {
                    vstd::arithmetic::power2::lemma_pow2_strictly_increases(k as nat + 1, e as nat);
                }
            }
            return None;
        }
        proof {
            vstd::arithmetic::power2::lemma_pow2_unfold(k as nat + 1);
        }
        c = c * 2;
        k = k + 1;
    }
    Some(c)
}

impl DenseMultilinearExtension {
    /// The table has exactly `2^num_vars` reduced entries.
    pub open spec fn wf(&self) -> bool {
        &&& self.evaluations@.len() == pow2(self.num_vars as nat)
        &&& all_wf(self.evaluations@)
    }

    /// Builds the extension of a table of `2^num_vars` values; any other
    /// length is rejected.
    pub fn from_evaluations(num_vars: usize, evaluations: Vec<FieldElem>) -> (r: Result<
        Self,
        PolyError,
    >)
        requires
            all_wf(evaluations@),
        ensures
            evaluations@.len() == pow2(num_vars as nat) ==> r is Ok,
            r is Ok ==> r->Ok_0.wf() && r->Ok_0.num_vars == num_vars && r->Ok_0.evaluations@
                == evaluations@,
            evaluations@.len() != pow2(num_vars as nat) ==> r == Err::<Self, PolyError>(
                PolyError::SizeMismatch,
            ),
    {
        let len = evaluations.len();
        let expected = match pow2_checked(num_vars) {
            Some(c) => c,
            None => {
                return Err(PolyError::SizeMismatch);
            },
        };
        if len != expected {
            return Err(PolyError::SizeMismatch);
        }
        Ok(DenseMultilinearExtension { num_vars, evaluations })
    }

    /// A copy with the same table.
    pub fn duplicate(&self) -> (r: Self)
        ensures
            r.num_vars == self.num_vars,
            r.evaluations@ == self.evaluations@,
    {
        DenseMultilinearExtension { num_vars: self.num_vars, evaluations: self.evaluations.clone() }
    }

    /// Multilinear interpolation at `point`, by `num_vars` successive halving
    /// passes; fails on a point of the wrong length.
    pub fn evaluate(&self, point: &Vec<FieldElem>) -> (r: Result<FieldElem, PolyError>)
        requires
            self.wf(),
            all_wf(point@),
        ensures
            point@.len() != self.num_vars ==> r == Err::<FieldElem, PolyError>(
                PolyError::DimensionMismatch,
            ),
            point@.len() == self.num_vars ==> r == Ok::<FieldElem, PolyError>(
                eval_mle(self.evaluations@, point@),
            ) && r->Ok_0.wf(),
    {
        if point.len() != self.num_vars {
            return Err(PolyError::DimensionMismatch);
        }
        let ghost orig = self.evaluations@;
        let mut table = self.evaluations.clone();
        let mut k: usize = 0;
        proof {
            assert(point@.take(0) =~= Seq::<FieldElem>::empty());
        }
        while k < point.len()
            invariant
                self.wf(),
                all_wf(point@),
                point@.len() == self.num_vars,
                orig == self.evaluations@,
                0 <= k <= point@.len(),
                table@ == fix_seq(orig, point@.take(k as int)),
                table@.len() == pow2((self.num_vars - k) as nat),
                all_wf(table@),
            decreases point@.len() - k,
        {
            proof {
                lemma_fix_seq_len(orig, point@.take(k as int + 1), self.num_vars as nat);
                lemma_fix_seq_wf(orig, point@.take(k as int + 1));
                assert(point@.take(k as int + 1).drop_last() =~= point@.take(k as int));
                assert(point@.take(k as int + 1).last() == point@[k as int]);
                vstd::arithmetic::power2::lemma_pow2_unfold((self.num_vars - k) as nat);
            }
            let x = point[k];
            let half = table.len() / 2;
            let mut next: Vec<FieldElem> = Vec::new();
            let mut i: usize = 0;
            while i < half
                invariant
                    0 <= i <= half,
                    half <= usize::MAX / 2,
                    all_wf(table@),
                    x.wf(),
                    2 * half == table@.len(),
                    next@.len() == i,
                    forall|j: int|
                        0 <= j < i ==> next@[j] == fe_add(
                            #[trigger] table@[2 * j],
                            fe_mul(x, fe_sub(table@[2 * j + 1], table@[2 * j])),
                        ),
                decreases half - i,
            {
                proof {
                    assert(2 * i + 1 < table@.len());
                }
                let v = table[2 * i].add(x.mul(table[2 * i + 1].sub(table[2 * i])));
                next.push(v);
                i = i + 1;
            }
            proof {
                assert(next@ =~= fix_first(table@, x));
            }
            table = next;
            k = k + 1;
        }
        proof {
            assert(point@.take(point@.len() as int) =~= point@);
            vstd::arithmetic::power2::lemma2_to64();
        }
        Ok(table[0])
    }
}

} // verus!
