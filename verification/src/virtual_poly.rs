//! Virtual polynomials: scaled sums of products of multilinear extensions,
//! with the factors held once in a shared arena and referenced by index, so
//! that one extension can appear in many products without copying its table.
use crate::circuit::all_wf;
use crate::field::{
    fe_add, fe_mul, fe_one, fe_sub, fe_zero, lemma_add_assoc, lemma_add_zero, lemma_mul_comm,
    lemma_mul_distrib, lemma_mul_one, lemma_mul_shuffle, lemma_mul_zero, FieldElem,
};
use crate::mle::{eval_mle, lemma_eval_mle_wf, DenseMultilinearExtension, PolyError};
use vstd::arithmetic::power2::pow2;
use vstd::prelude::*;

verus! {

/// A sum of products: each product is a coefficient and a list of indices into
/// the arena of shared multilinear extensions.
#[derive(Clone, Debug)]
pub struct VirtualPolynomial {
    pub num_vars: usize,
    /// An upper bound on the number of factors of any product.
    pub max_degree: usize,
    pub products: Vec<(FieldElem, Vec<usize>)>,
    pub flattened_ml_extensions: Vec<DenseMultilinearExtension>,
}

/// One product is well formed against an arena of `m` extensions and a degree
/// bound `d`.
pub open spec fn prod_wf(p: (FieldElem, Vec<usize>), m: int, d: int) -> bool {
    &&& p.0.wf()
    &&& p.1@.len() <= d
    &&& forall|f: int| 0 <= f < p.1@.len() ==> (#[trigger] p.1@[f]) < m
}

/// The value of one product's factor list at `point`.
pub open spec fn prod_eval(
    factors: Seq<usize>,
    mles: Seq<DenseMultilinearExtension>,
    point: Seq<FieldElem>,
) -> FieldElem
    decreases factors.len(),
{
    if factors.len() == 0 {
        fe_one()
    } else {
        fe_mul(
            prod_eval(factors.drop_last(), mles, point),
            eval_mle(mles[factors.last() as int].evaluations@, point),
        )
    }
}

/// The value of the whole polynomial at `point`: the sum over products of
/// coefficient times factor product.
pub open spec fn vp_eval(
    products: Seq<(FieldElem, Vec<usize>)>,
    mles: Seq<DenseMultilinearExtension>,
    point: Seq<FieldElem>,
) -> FieldElem
    decreases products.len(),
{
    if products.len() == 0 {
        fe_zero()
    } else {
        fe_add(
            vp_eval(products.drop_last(), mles, point),
            fe_mul(products.last().0, prod_eval(products.last().1@, mles, point)),
        )
    }
}

/// Polynomial values are reduced residues.
pub proof fn lemma_vp_eval_wf(
    products: Seq<(FieldElem, Vec<usize>)>,
    mles: Seq<DenseMultilinearExtension>,
    point: Seq<FieldElem>,
)
    ensures
        vp_eval(products, mles, point).wf(),
    decreases products.len(),
{
    if products.len() > 0 {
        lemma_vp_eval_wf(products.drop_last(), mles, point);
    }
}

/// A factor list reads only the tables it references: two lists whose
/// referenced tables coincide entry by entry evaluate alike.
pub proof fn lemma_prod_eval_agree(
    fs1: Seq<usize>,
    mles1: Seq<DenseMultilinearExtension>,
    fs2: Seq<usize>,
    mles2: Seq<DenseMultilinearExtension>,
    point: Seq<FieldElem>,
)
    requires
        fs2.len() == fs1.len(),
        forall|f: int| 0 <= f < fs1.len() ==> (#[trigger] fs1[f]) < mles1.len(),
        forall|f: int| 0 <= f < fs2.len() ==> (#[trigger] fs2[f]) < mles2.len(),
        forall|f: int|
            0 <= f < fs1.len() ==> mles1[#[trigger] fs1[f] as int].evaluations@
                == mles2[fs2[f] as int].evaluations@,
    ensures
        prod_eval(fs1, mles1, point) == prod_eval(fs2, mles2, point),
    decreases fs1.len(),
{
    if fs1.len() > 0 {
        lemma_prod_eval_agree(fs1.drop_last(), mles1, fs2.drop_last(), mles2, point);
        assert(fs1.last() == fs1[fs1.len() - 1]);
        assert(fs2.last() == fs2[fs2.len() - 1]);
    }
}

/// A sum of products reads only what its factor lists reference: products with
/// equal coefficients and agreeing factor tables evaluate alike.
pub proof fn lemma_vp_eval_agree(
    p1: Seq<(FieldElem, Vec<usize>)>,
    mles1: Seq<DenseMultilinearExtension>,
    p2: Seq<(FieldElem, Vec<usize>)>,
    mles2: Seq<DenseMultilinearExtension>,
    point: Seq<FieldElem>,
)
    requires
        p2.len() == p1.len(),
        forall|t: int| 0 <= t < p1.len() ==> (#[trigger] p1[t]).0 == p2[t].0,
        forall|t: int| 0 <= t < p1.len() ==> (#[trigger] p1[t]).1@.len() == p2[t].1@.len(),
        forall|t: int, f: int|
            #![trigger p1[t].1@[f]]
            0 <= t < p1.len() && 0 <= f < p1[t].1@.len() ==> p1[t].1@[f] < mles1.len()
                && p2[t].1@[f] < mles2.len() && mles1[p1[t].1@[f] as int].evaluations@
                == mles2[p2[t].1@[f] as int].evaluations@,
    ensures
        vp_eval(p1, mles1, point) == vp_eval(p2, mles2, point),
    decreases p1.len(),
{
    if p1.len() > 0 {
        let t = p1.len() - 1;
        lemma_vp_eval_agree(p1.drop_last(), mles1, p2.drop_last(), mles2, point);
        assert(p1.last() == p1[t] && p2.last() == p2[t]);
        assert forall|f: int| 0 <= f < p1[t].1@.len() implies (#[trigger] p1[t].1@[f]) < mles1.len()
            && p2[t].1@[f] < mles2.len() && mles1[p1[t].1@[f] as int].evaluations@
            == mles2[p2[t].1@[f] as int].evaluations@ by {
            assert(0 <= t < p1.len() && 0 <= f < p1[t].1@.len());
        }
        assert forall|f: int| 0 <= f < p2[t].1@.len() implies (#[trigger] p2[t].1@[f])
            < mles2.len() by {
            assert(p1[t].1@[f] < mles1.len());
        }
        lemma_prod_eval_agree(p1[t].1@, mles1, p2[t].1@, mles2, point);
    }
}

/// Concatenating product lists adds the values.
pub proof fn lemma_vp_eval_concat(
    p1: Seq<(FieldElem, Vec<usize>)>,
    p2: Seq<(FieldElem, Vec<usize>)>,
    mles: Seq<DenseMultilinearExtension>,
    point: Seq<FieldElem>,
)
    ensures
        vp_eval(p1 + p2, mles, point) == fe_add(
            vp_eval(p1, mles, point),
            vp_eval(p2, mles, point),
        ),
    decreases p2.len(),
{
    if p2.len() == 0 {
        assert(p1 + p2 =~= p1);
        lemma_vp_eval_wf(p1, mles, point);
        lemma_add_zero(vp_eval(p1, mles, point));
    } else {
        lemma_vp_eval_concat(p1, p2.drop_last(), mles, point);
        assert((p1 + p2).drop_last() =~= p1 + p2.drop_last());
        assert((p1 + p2).last() == p2.last());
        lemma_add_assoc(
            vp_eval(p1, mles, point),
            vp_eval(p2.drop_last(), mles, point),
            fe_mul(p2.last().0, prod_eval(p2.last().1@, mles, point)),
        );
    }
}

impl VirtualPolynomial {
    /// Every referenced extension exists, has this polynomial's `num_vars`,
    /// and every product respects the degree bound.
    pub open spec fn wf(&self) -> bool {
        &&& forall|k: int|
            0 <= k < self.flattened_ml_extensions@.len() ==> (
            #[trigger] self.flattened_ml_extensions@[k]).wf()
                && self.flattened_ml_extensions@[k].num_vars == self.num_vars
        &&& forall|t: int|
            0 <= t < self.products@.len() ==> prod_wf(
                #[trigger] self.products@[t],
                self.flattened_ml_extensions@.len() as int,
                self.max_degree as int,
            )
    }

    /// The value of the polynomial at `point`, as a spec-level function.
    pub open spec fn spec_eval(&self, point: Seq<FieldElem>) -> FieldElem {
        vp_eval(self.products@, self.flattened_ml_extensions@, point)
    }

    /// A single-term polynomial: `coeff` times the given extension.
    pub fn new_from_mle(mle: &DenseMultilinearExtension, coeff: FieldElem) -> (r: Self)
        requires
            mle.wf(),
            coeff.wf(),
        ensures
            r.wf(),
            r.num_vars == mle.num_vars,
            r.max_degree == 1,
            forall|pt: Seq<FieldElem>|
                pt.len() == mle.num_vars ==> #[trigger] r.spec_eval(pt) == fe_mul(
                    coeff,
                    eval_mle(mle.evaluations@, pt),
                ),
    {
        let mut factors: Vec<usize> = Vec::new();
        factors.push(0);
        let mut products: Vec<(FieldElem, Vec<usize>)> = Vec::new();
        products.push((coeff, factors));
        let mut arena: Vec<DenseMultilinearExtension> = Vec::new();
        arena.push(mle.duplicate());
        let r = VirtualPolynomial {
            num_vars: mle.num_vars,
            max_degree: 1,
            products,
            flattened_ml_extensions: arena,
        };
        proof {
            assert forall|pt: Seq<FieldElem>| pt.len() == mle.num_vars implies #[trigger] r.spec_eval(
                pt,
            ) == fe_mul(coeff, eval_mle(mle.evaluations@, pt)) by {
                reveal_with_fuel(vp_eval, 3);
                reveal_with_fuel(prod_eval, 3);
                let ps = r.products@;
                let ms = r.flattened_ml_extensions@;
                assert(ps.len() == 1);
                assert(ps.last() == ps[0]);
                assert(ps[0].0 == coeff);
                let fs = ps.last().1@;
                assert(fs.len() == 1 && fs.last() == 0);
                assert(fs.drop_last() =~= Seq::<usize>::empty());
                assert(ps.drop_last() =~= Seq::<(FieldElem, Vec<usize>)>::empty());
                let e = eval_mle(mle.evaluations@, pt);
                assert(ms[0].evaluations@ == mle.evaluations@);
                let e2 = eval_mle(ms[0].evaluations@, pt);
                assert(e2 == e);
                lemma_eval_mle_wf(mle.evaluations@, pt, mle.num_vars as nat);
                assert(prod_eval(fs, ms, pt) == fe_mul(fe_one(), e2));
                lemma_mul_one(e);
                assert(prod_eval(fs, ms, pt) == e);
                assert(vp_eval(ps, ms, pt) == fe_add(fe_zero(), fe_mul(coeff, e)));
                assert(fe_mul(coeff, e).wf());
                lemma_add_zero(fe_mul(coeff, e));
            }
        }
        r
    }

    /// The value at `point`: the sum over products of coefficient times the
    /// product of the referenced extensions' interpolations. Fails on a point
    /// of the wrong length.
    pub fn evaluate(&self, point: &Vec<FieldElem>) -> (r: Result<FieldElem, PolyError>)
        requires
            self.wf(),
            all_wf(point@),
        ensures
            point@.len() != self.num_vars ==> r == Err::<FieldElem, PolyError>(
                PolyError::DimensionMismatch,
            ),
            point@.len() == self.num_vars ==> r == Ok::<FieldElem, PolyError>(
                self.spec_eval(point@),
            ) && r->Ok_0.wf(),
    {
        if point.len() != self.num_vars {
            return Err(PolyError::DimensionMismatch);
        }
        let mut sum = FieldElem::zero();
        let mut t: usize = 0;
        proof {
            assert(self.products@.take(0) =~= Seq::<(FieldElem, Vec<usize>)>::empty());
        }
        while t < self.products.len()
            invariant
                self.wf(),
                all_wf(point@),
                point@.len() == self.num_vars,
                0 <= t <= self.products@.len(),
                sum.wf(),
                sum == vp_eval(self.products@.take(t as int), self.flattened_ml_extensions@, point@),
            decreases self.products@.len() - t,
        {
            let coeff = self.products[t].0;
            let mut acc = FieldElem::one();
            let mut f: usize = 0;
            let ghost fs = self.products@[t as int].1@;
            proof {
                assert(prod_wf(
                    self.products@[t as int],
                    self.flattened_ml_extensions@.len() as int,
                    self.max_degree as int,
                ));
                assert(fs.take(0) =~= Seq::<usize>::empty());
            }
            while f < self.products[t].1.len()
                invariant
                    self.wf(),
                    all_wf(point@),
                    point@.len() == self.num_vars,
                    t < self.products@.len(),
                    fs == self.products@[t as int].1@,
                    prod_wf(
                        self.products@[t as int],
                        self.flattened_ml_extensions@.len() as int,
                        self.max_degree as int,
                    ),
                    0 <= f <= fs.len(),
                    acc.wf(),
                    acc == prod_eval(fs.take(f as int), self.flattened_ml_extensions@, point@),
                decreases fs.len() - f,
            {
                let idx = self.products[t].1[f];
                proof {
                    assert(fs.take(f as int + 1).drop_last() =~= fs.take(f as int));
                    assert(fs.take(f as int + 1).last() == fs[f as int]);
                    assert(self.flattened_ml_extensions@[fs[f as int] as int].wf());
                }
                let e = match self.flattened_ml_extensions[idx].evaluate(point) {
                    Ok(e) => e,
                    Err(e) => {
                        return Err(e);
                    },
                };
                acc = acc.mul(e);
                f = f + 1;
            }
            proof {
                assert(fs.take(fs.len() as int) =~= fs);
                assert(self.products@.take(t as int + 1).drop_last() =~= self.products@.take(
                    t as int,
                ));
                assert(self.products@.take(t as int + 1).last() == self.products@[t as int]);
            }
            sum = sum.add(coeff.mul(acc));
            t = t + 1;
        }
        proof {
            assert(self.products@.take(self.products@.len() as int) =~= self.products@);
        }
        Ok(sum)
    }

    /// The sum of two polynomials of equal `num_vars`: the product lists are
    /// concatenated (no merging), the arenas shared side by side.
    pub fn add(&self, other: &Self) -> (r: Result<Self, PolyError>)
        requires
            self.wf(),
            other.wf(),
        ensures
            self.num_vars != other.num_vars ==> r == Err::<Self, PolyError>(
                PolyError::DimensionMismatch,
            ),
            self.num_vars == other.num_vars ==> r is Ok && ({
                let s = r->Ok_0;
                &&& s.wf()
                &&& s.num_vars == self.num_vars
                &&& s.max_degree == if self.max_degree >= other.max_degree {
                    self.max_degree
                } else {
                    other.max_degree
                }
                &&& forall|pt: Seq<FieldElem>|
                    pt.len() == self.num_vars ==> #[trigger] s.spec_eval(pt) == fe_add(
                        self.spec_eval(pt),
                        other.spec_eval(pt),
                    )
            }),
    {
        if self.num_vars != other.num_vars {
            return Err(PolyError::DimensionMismatch);
        }
        let off = self.flattened_ml_extensions.len();
        let mut arena: Vec<DenseMultilinearExtension> = Vec::new();
        let mut k: usize = 0;
        while k < self.flattened_ml_extensions.len()
            invariant
                self.wf(),
                0 <= k <= self.flattened_ml_extensions@.len(),
                arena@.len() == k,
                forall|j: int|
                    0 <= j < k ==> (#[trigger] arena@[j]).evaluations@
                        == self.flattened_ml_extensions@[j].evaluations@ && arena@[j].num_vars
                        == self.flattened_ml_extensions@[j].num_vars,
            decreases self.flattened_ml_extensions@.len() - k,
        {
            arena.push(self.flattened_ml_extensions[k].duplicate());
            k = k + 1;
        }
        let mut k2: usize = 0;
        while k2 < other.flattened_ml_extensions.len()
            invariant
                self.wf(),
                other.wf(),
                off == self.flattened_ml_extensions@.len(),
                0 <= k2 <= other.flattened_ml_extensions@.len(),
                arena@.len() == off + k2,
                forall|j: int|
                    0 <= j < off ==> (#[trigger] arena@[j]).evaluations@
                        == self.flattened_ml_extensions@[j].evaluations@ && arena@[j].num_vars
                        == self.flattened_ml_extensions@[j].num_vars,
                forall|j: int|
                    0 <= j < k2 ==> (#[trigger] arena@[off + j]).evaluations@
                        == other.flattened_ml_extensions@[j].evaluations@ && arena@[off
                        + j].num_vars == other.flattened_ml_extensions@[j].num_vars,
            decreases other.flattened_ml_extensions@.len() - k2,
        {
            arena.push(other.flattened_ml_extensions[k2].duplicate());
            k2 = k2 + 1;
        }
        let total = arena.len();
        let mut products: Vec<(FieldElem, Vec<usize>)> = Vec::new();
        let mut t: usize = 0;
        while t < self.products.len()
            invariant
                self.wf(),
                0 <= t <= self.products@.len(),
                products@.len() == t,
                forall|j: int|
                    0 <= j < t ==> (#[trigger] products@[j]).0 == self.products@[j].0
                        && products@[j].1@ == self.products@[j].1@,
            decreases self.products@.len() - t,
        {
            let coeff = self.products[t].0;
            let fs = self.products[t].1.clone();
            products.push((coeff, fs));
            t = t + 1;
        }
        let ghost self_part = products@;
        let mut t2: usize = 0;
        while t2 < other.products.len()
            invariant
                self.wf(),
                other.wf(),
                off == self.flattened_ml_extensions@.len(),
                arena@.len() == off + other.flattened_ml_extensions@.len(),
                total == arena@.len(),
                0 <= t2 <= other.products@.len(),
                products@.len() == self_part.len() + t2,
                self_part.len() == self.products@.len(),
                products@.take(self_part.len() as int) == self_part,
                forall|j: int|
                    0 <= j < t2 ==> (#[trigger] products@[self_part.len() + j]).0
                        == other.products@[j].0 && products@[self_part.len() + j].1@.len()
                        == other.products@[j].1@.len(),
                forall|j: int, f: int|
                    #![trigger products@[self_part.len() + j].1@[f]]
                    0 <= j < t2 && 0 <= f < other.products@[j].1@.len() ==> products@[self_part.len()
                        + j].1@[f] == other.products@[j].1@[f] + off,
            decreases other.products@.len() - t2,
        {
            let coeff = other.products[t2].0;
            let ghost ofs = other.products@[t2 as int].1@;
            proof {
                assert(prod_wf(
                    other.products@[t2 as int],
                    other.flattened_ml_extensions@.len() as int,
                    other.max_degree as int,
                ));
            }
            let mut fs: Vec<usize> = Vec::new();
            let mut f: usize = 0;
            while f < other.products[t2].1.len()
                invariant
                    other.wf(),
                    t2 < other.products@.len(),
                    ofs == other.products@[t2 as int].1@,
                    prod_wf(
                        other.products@[t2 as int],
                        other.flattened_ml_extensions@.len() as int,
                        other.max_degree as int,
                    ),
                    off + other.flattened_ml_extensions@.len() == total,
                    0 <= f <= ofs.len(),
                    fs@.len() == f,
                    forall|j: int| 0 <= j < f ==> (#[trigger] fs@[j]) == ofs[j] + off,
                decreases ofs.len() - f,
            {
                let idx = other.products[t2].1[f];
                proof {
                    assert(ofs[f as int] < other.flattened_ml_extensions@.len());
                    assert(off + idx < total);
                }
                fs.push(off + idx);
                f = f + 1;
            }
            products.push((coeff, fs));
            t2 = t2 + 1;
        }
        let md = if self.max_degree >= other.max_degree {
            self.max_degree
        } else {
            other.max_degree
        };
        proof {
            let ps = products@;
            let ms = arena@;
            let np = self_part.len() as int;
            let shifted = ps.skip(np);
            assert(ps.take(np) + shifted =~= ps);
            assert(ps.take(np) == self_part);
            assert forall|k3: int| 0 <= k3 < ms.len() implies (#[trigger] ms[k3]).wf()
                && ms[k3].num_vars == self.num_vars by {
                if k3 < off {
                    assert(arena@[k3].evaluations@
                        == self.flattened_ml_extensions@[k3].evaluations@);
                    assert(self.flattened_ml_extensions@[k3].wf());
                } else {
                    let j = k3 - off;
                    assert(arena@[off + j].evaluations@
                        == other.flattened_ml_extensions@[j].evaluations@);
                    assert(arena@[off + j].num_vars
                        == other.flattened_ml_extensions@[j].num_vars);
                    assert(other.flattened_ml_extensions@[j].wf());
                    assert(ms[k3] == arena@[off + j]);
                }
            }
            assert forall|t3: int| 0 <= t3 < ps.len() implies prod_wf(
                #[trigger] ps[t3],
                ms.len() as int,
                md as int,
            ) by {
                if t3 < np {
                    assert(ps[t3].0 == self.products@[t3].0 && ps[t3].1@
                        == self.products@[t3].1@);
                    assert(prod_wf(
                        self.products@[t3],
                        self.flattened_ml_extensions@.len() as int,
                        self.max_degree as int,
                    ));
                } else {
                    let j = t3 - np;
                    assert(ps[t3] == products@[np + j]);
                    assert(prod_wf(
                        other.products@[j],
                        other.flattened_ml_extensions@.len() as int,
                        other.max_degree as int,
                    ));
                    assert(ps[t3].0 == other.products@[j].0);
                    assert(ps[t3].1@.len() == other.products@[j].1@.len());
                    assert(ps[t3].0.wf());
                    assert forall|f2: int| 0 <= f2 < ps[t3].1@.len() implies (#[trigger] ps[t3].1@[f2])
                        < ms.len() by {
                        assert(products@[np + j].1@[f2] == other.products@[j].1@[f2] + off);
                        assert(other.products@[j].1@[f2] < other.flattened_ml_extensions@.len());
                    }
                }
            }
            assert forall|pt: Seq<FieldElem>| pt.len() == self.num_vars implies vp_eval(ps, ms, pt)
                == fe_add(
                vp_eval(self.products@, self.flattened_ml_extensions@, pt),
                vp_eval(other.products@, other.flattened_ml_extensions@, pt),
            ) by {
                lemma_vp_eval_concat(ps.take(np), shifted, ms, pt);
                assert forall|t3: int| 0 <= t3 < self_part.len() implies (#[trigger] self_part[t3]).0
                    == self.products@[t3].0 && self_part[t3].1@.len()
                    == self.products@[t3].1@.len() by {}
                assert forall|t3: int, f2: int|
                    #![trigger self_part[t3].1@[f2]]
                    0 <= t3 < self_part.len() && 0 <= f2 < self_part[t3].1@.len() implies self_part[t3].1@[f2]
                    < ms.len() && self.products@[t3].1@[f2]
                    < self.flattened_ml_extensions@.len() && ms[self_part[t3].1@[f2] as int].evaluations@
                    == self.flattened_ml_extensions@[self.products@[t3].1@[f2] as int].evaluations@ by {
                    assert(prod_wf(
                        self.products@[t3],
                        self.flattened_ml_extensions@.len() as int,
                        self.max_degree as int,
                    ));
                    assert(self_part[t3].1@ == self.products@[t3].1@);
                    assert(self.products@[t3].1@[f2] < self.flattened_ml_extensions@.len());
                }
                lemma_vp_eval_agree(
                    self_part,
                    ms,
                    self.products@,
                    self.flattened_ml_extensions@,
                    pt,
                );
                assert forall|t3: int| 0 <= t3 < shifted.len() implies (#[trigger] shifted[t3]).0
                    == other.products@[t3].0 && shifted[t3].1@.len()
                    == other.products@[t3].1@.len() by {
                    assert(shifted[t3] == products@[np + t3]);
                }
                assert forall|t3: int, f2: int|
                    #![trigger shifted[t3].1@[f2]]
                    0 <= t3 < shifted.len() && 0 <= f2 < shifted[t3].1@.len() implies shifted[t3].1@[f2]
                    < ms.len() && other.products@[t3].1@[f2]
                    < other.flattened_ml_extensions@.len() && ms[shifted[t3].1@[f2] as int].evaluations@
                    == other.flattened_ml_extensions@[other.products@[t3].1@[f2] as int].evaluations@ by {
                    assert(shifted[t3] == products@[np + t3]);
                    assert(prod_wf(
                        other.products@[t3],
                        other.flattened_ml_extensions@.len() as int,
                        other.max_degree as int,
                    ));
                    assert(products@[np + t3].1@[f2] == other.products@[t3].1@[f2] + off);
                    let idx2 = other.products@[t3].1@[f2] as int;
                    assert(arena@[off + idx2].evaluations@
                        == other.flattened_ml_extensions@[idx2].evaluations@);
                    assert(shifted[t3].1@[f2] == idx2 + off);
                }
                lemma_vp_eval_agree(
                    shifted,
                    ms,
                    other.products@,
                    other.flattened_ml_extensions@,
                    pt,
                );
            }
        }
        let r = VirtualPolynomial {
            num_vars: self.num_vars,
            max_degree: md,
            products,
            flattened_ml_extensions: arena,
        };
        Ok(r)
    }

    /// Multiplies the whole polynomial by `coeff` times the given extension:
    /// the extension joins the arena, every product gains it as a factor, and
    /// every coefficient is scaled; the degree bound rises by one.
    pub fn mul_by_mle(&mut self, mle: DenseMultilinearExtension, coeff: FieldElem) -> (r: Result<
        (),
        PolyError,
    >)
        requires
            old(self).wf(),
            old(self).max_degree < usize::MAX,
            mle.wf(),
            coeff.wf(),
        ensures
            mle.num_vars != old(self).num_vars ==> r == Err::<(), PolyError>(
                PolyError::DimensionMismatch,
            ) && *final(self) == *old(self),
            mle.num_vars == old(self).num_vars ==> r == Ok::<(), PolyError>(()) && ({
                &&& final(self).wf()
                &&& final(self).num_vars == old(self).num_vars
                &&& final(self).max_degree == old(self).max_degree + 1
                &&& forall|pt: Seq<FieldElem>|
                    pt.len() == old(self).num_vars ==> #[trigger] final(self).spec_eval(pt)
                        == fe_mul(
                        old(self).spec_eval(pt),
                        fe_mul(coeff, eval_mle(mle.evaluations@, pt)),
                    )
            }),
    {
        if mle.num_vars != self.num_vars {
            return Err(PolyError::DimensionMismatch);
        }
        let idx = self.flattened_ml_extensions.len();
        let ghost old_products = self.products@;
        let ghost old_arena = self.flattened_ml_extensions@;
        let ghost tbl = mle.evaluations@;
        let ghost old_md = self.max_degree;
        let ghost nv = self.num_vars;
        self.flattened_ml_extensions.push(mle);
        let mut new_products: Vec<(FieldElem, Vec<usize>)> = Vec::new();
        let mut t: usize = 0;
        while t < self.products.len()
            invariant
                self.products@ == old_products,
                self.num_vars == nv,
                self.max_degree == old_md,
                self.flattened_ml_extensions@.len() == old_arena.len() + 1,
                idx == old_arena.len(),
                self.flattened_ml_extensions@[idx as int].evaluations@ == tbl,
                self.flattened_ml_extensions@[idx as int].wf(),
                self.flattened_ml_extensions@[idx as int].num_vars == nv,
                forall|j: int|
                    0 <= j < idx ==> (#[trigger] self.flattened_ml_extensions@[j]) == old_arena[j],
                forall|k: int|
                    0 <= k < old_arena.len() ==> (#[trigger] old_arena[k]).wf()
                        && old_arena[k].num_vars == nv,
                forall|t2: int|
                    0 <= t2 < old_products.len() ==> prod_wf(
                        #[trigger] old_products[t2],
                        old_arena.len() as int,
                        old_md as int,
                    ),
                coeff.wf(),
                0 <= t <= old_products.len(),
                new_products@.len() == t,
                forall|j: int|
                    0 <= j < t ==> (#[trigger] new_products@[j]).0 == fe_mul(
                        old_products[j].0,
                        coeff,
                    ) && new_products@[j].1@ == old_products[j].1@.push(idx),
            decreases old_products.len() - t,
        {
            proof {
                assert(prod_wf(old_products[t as int], old_arena.len() as int, old_md as int));
            }
            let c2 = self.products[t].0.mul(coeff);
            let mut fs = self.products[t].1.clone();
            fs.push(idx);
            new_products.push((c2, fs));
            t = t + 1;
        }
        self.products = new_products;
        self.max_degree = self.max_degree + 1;
        proof {
            let ps = self.products@;
            let ms = self.flattened_ml_extensions@;
            assert forall|t3: int| 0 <= t3 < ps.len() implies prod_wf(
                #[trigger] ps[t3],
                ms.len() as int,
                self.max_degree as int,
            ) by {
                assert(prod_wf(old_products[t3], old_arena.len() as int, old_md as int));
                assert(ps[t3].1@ == old_products[t3].1@.push(idx));
                assert forall|f: int| 0 <= f < ps[t3].1@.len() implies (#[trigger] ps[t3].1@[f])
                    < ms.len() by {
                    if f < old_products[t3].1@.len() {
                        assert(old_products[t3].1@[f] < old_arena.len());
                    }
                }
            }
            assert forall|k: int| 0 <= k < ms.len() implies (#[trigger] ms[k]).wf() && ms[k].num_vars
                == nv by {
                if k < idx {
                    assert(ms[k] == old_arena[k]);
                }
            }
            assert forall|pt: Seq<FieldElem>| pt.len() == nv implies vp_eval(ps, ms, pt) == fe_mul(
                vp_eval(old_products, old_arena, pt),
                fe_mul(coeff, eval_mle(tbl, pt)),
            ) by {
                assert forall|t3: int, f: int|
                    #![trigger old_products[t3].1@[f]]
                    0 <= t3 < old_products.len() && 0 <= f < old_products[t3].1@.len() implies old_products[t3].1@[f]
                    < old_arena.len() && old_products[t3].1@[f] < ms.len() && old_arena[old_products[t3].1@[f] as int].evaluations@
                    == ms[old_products[t3].1@[f] as int].evaluations@ by {
                    assert(prod_wf(old_products[t3], old_arena.len() as int, old_md as int));
                    let fi = old_products[t3].1@[f] as int;
                    assert(ms[fi] == old_arena[fi]);
                }
                lemma_vp_eval_mul(old_products, old_arena, ps, ms, coeff, idx, tbl, pt);
            }
        }
        Ok(())
    }
}


/// Appending one factor and scaling every coefficient multiplies the whole
/// polynomial by `coeff` times that factor's interpolation.
pub proof fn lemma_vp_eval_mul(
    p1: Seq<(FieldElem, Vec<usize>)>,
    m1: Seq<DenseMultilinearExtension>,
    p2: Seq<(FieldElem, Vec<usize>)>,
    m2: Seq<DenseMultilinearExtension>,
    coeff: FieldElem,
    idx: usize,
    tbl: Seq<FieldElem>,
    point: Seq<FieldElem>,
)
    requires
        p2.len() == p1.len(),
        idx < m2.len(),
        m2[idx as int].evaluations@ == tbl,
        forall|t: int| 0 <= t < p1.len() ==> (#[trigger] p2[t]).0 == fe_mul(p1[t].0, coeff),
        forall|t: int| 0 <= t < p1.len() ==> (#[trigger] p2[t]).1@ == p1[t].1@.push(idx),
        forall|t: int, f: int|
            #![trigger p1[t].1@[f]]
            0 <= t < p1.len() && 0 <= f < p1[t].1@.len() ==> p1[t].1@[f] < m1.len()
                && p1[t].1@[f] < m2.len() && m1[p1[t].1@[f] as int].evaluations@
                == m2[p1[t].1@[f] as int].evaluations@,
    ensures
        vp_eval(p2, m2, point) == fe_mul(
            vp_eval(p1, m1, point),
            fe_mul(coeff, eval_mle(tbl, point)),
        ),
    decreases p1.len(),
{
    let e = eval_mle(tbl, point);
    let k = fe_mul(coeff, e);
    if p1.len() == 0 {
        lemma_mul_zero(k);
    } else {
        let t = p1.len() - 1;
        lemma_vp_eval_mul(p1.drop_last(), m1, p2.drop_last(), m2, coeff, idx, tbl, point);
        assert(p1.last() == p1[t] && p2.last() == p2[t]);
        let fs1 = p1[t].1@;
        let fs2 = p2[t].1@;
        assert(fs2 == fs1.push(idx));
        assert(fs2.drop_last() =~= fs1);
        assert(fs2.last() == idx);
        assert forall|f: int| 0 <= f < fs1.len() implies (#[trigger] fs1[f]) < m1.len() && fs1[f]
            < m2.len() && m1[fs1[f] as int].evaluations@ == m2[fs1[f] as int].evaluations@ by {
            assert(p1[t].1@[f] < m1.len());
        }
        lemma_prod_eval_agree(fs1, m1, fs1, m2, point);
        let c1 = p1[t].0;
        let pr = prod_eval(fs1, m1, point);
        assert(prod_eval(fs2, m2, point) == fe_mul(pr, e));
        lemma_mul_shuffle(c1, coeff, pr, e);
        assert(fe_mul(p2[t].0, prod_eval(fs2, m2, point)) == fe_mul(fe_mul(c1, pr), k));
        let a1 = vp_eval(p1.drop_last(), m1, point);
        let t1 = fe_mul(c1, pr);
        lemma_mul_distrib(k, a1, t1);
        lemma_mul_comm(k, a1);
        lemma_mul_comm(k, t1);
        lemma_mul_comm(k, fe_add(a1, t1));
    }
}

/// The eq-polynomial value at hypercube index `i`: the product over variables
/// of `r_k` where bit `k` of `i` is set and `1 - r_k` where it is clear.
pub open spec fn eq_point(r: Seq<FieldElem>, i: int) -> FieldElem
    decreases r.len(),
{
    if r.len() == 0 {
        fe_one()
    } else {
        let h = pow2((r.len() - 1) as nat) as int;
        fe_mul(
            eq_point(r.drop_last(), i % h),
            crate::sumcheck::w_factor(r.last(), (i / h) % 2 == 1),
        )
    }
}

/// The full evaluation table of the eq-polynomial at `r`.
pub open spec fn eq_table(r: Seq<FieldElem>) -> Seq<FieldElem> {
    Seq::new(pow2(r.len()), |i: int| eq_point(r, i))
}

/// Builds the multilinear extension of the point-mass function at `r` in one
/// doubling pass per variable: each entry `e` becomes the block pair
/// `e * (1 - r_k)`, `e * r_k`, keeping bit `k` of the index bound to `r_k`.
pub fn build_eq_x_r(r: &Vec<FieldElem>) -> (m: DenseMultilinearExtension)
    requires
        all_wf(r@),
        pow2(r@.len()) <= usize::MAX,
    ensures
        m.wf(),
        m.num_vars == r@.len(),
        m.evaluations@ == eq_table(r@),
{
    let mut table: Vec<FieldElem> = Vec::new();
    table.push(FieldElem::one());
    let mut k: usize = 0;
    proof {
        vstd::arithmetic::power2::lemma2_to64();
        assert(r@.take(0) =~= Seq::<FieldElem>::empty());
        assert(table@ =~= eq_table(r@.take(0)));
    }
    while k < r.len()
        invariant
            all_wf(r@),
            pow2(r@.len()) <= usize::MAX,
            0 <= k <= r@.len(),
            table@.len() == pow2(k as nat),
            table@ == eq_table(r@.take(k as int)),
            all_wf(table@),
        decreases r@.len() - k,
    {
        proof {
            if k as nat + 1 < r@.len() {
                vstd::arithmetic::power2::lemma_pow2_strictly_increases(k as nat + 1, r@.len());
            }
            vstd::arithmetic::power2::lemma_pow2_unfold(k as nat + 1);
        }
        let len = table.len();
        let x = r[k];
        let one_minus = FieldElem::one().sub(x);
        let mut next: Vec<FieldElem> = Vec::new();
        let mut i: usize = 0;
        while i < len
            invariant
                0 <= i <= len,
                len == table@.len(),
                all_wf(table@),
                x.wf(),
                one_minus == fe_sub(fe_one(), x),
                next@.len() == i,
                forall|j: int| 0 <= j < i ==> (#[trigger] next@[j]) == fe_mul(table@[j], fe_sub(fe_one(), x)),
            decreases len - i,
        {
            next.push(table[i].mul(one_minus));
            i = i + 1;
        }
        let mut i2: usize = 0;
        while i2 < len
            invariant
                0 <= i2 <= len,
                len == table@.len(),
                all_wf(table@),
                x.wf(),
                next@.len() == len + i2,
                forall|j: int| 0 <= j < len ==> (#[trigger] next@[j]) == fe_mul(table@[j], fe_sub(fe_one(), x)),
                forall|j: int| 0 <= j < i2 ==> (#[trigger] next@[len + j]) == fe_mul(table@[j], x),
            decreases len - i2,
        {
            next.push(table[i2].mul(x));
            i2 = i2 + 1;
        }
        proof {
            let rk = r@.take(k as int + 1);
            assert(rk.drop_last() =~= r@.take(k as int));
            assert(rk.last() == r@[k as int]);
            let h = pow2(k as nat) as int;
            vstd::arithmetic::power2::lemma_pow2_pos(k as nat);
            assert forall|j: int| 0 <= j < next@.len() implies next@[j] == eq_point(rk, j) by {
                if j < h {
                    assert(j % h == j && j / h == 0) by (nonlinear_arith)
                        requires
                            0 <= j < h,
                            h > 0,
                    ;
                    assert(next@[j] == fe_mul(table@[j], fe_sub(fe_one(), x)));
                    assert(table@[j] == eq_point(r@.take(k as int), j));
                } else {
                    let j2 = j - h;
                    assert(next@[h + j2] == fe_mul(table@[j2], x));
                    assert(j % h == j2 && j / h == 1) by (nonlinear_arith)
                        requires
                            h <= j < 2 * h,
                            j2 == j - h,
                            h > 0,
                    ;
                    assert(table@[j2] == eq_point(r@.take(k as int), j2));
                }
            }
            assert(next@ =~= eq_table(rk));
        }
        table = next;
        k = k + 1;
    }
    proof {
        assert(r@.take(r@.len() as int) =~= r@);
    }
    DenseMultilinearExtension { num_vars: r.len(), evaluations: table }
}

/// The naive eq-polynomial builder: one full product of weights per table
/// entry. Quadratic work, kept as the correctness oracle for the doubling
/// construction; both return bit-identical tables.
pub fn build_eq_x_r_for_test(r: &Vec<FieldElem>) -> (m: DenseMultilinearExtension)
    requires
        all_wf(r@),
        pow2(r@.len()) <= usize::MAX,
    ensures
        m.wf(),
        m.num_vars == r@.len(),
        m.evaluations@ == eq_table(r@),
{
    let n = r.len();
    let total = match crate::mle::pow2_checked(n) {
        Some(c) => c,
        None => 0,
    };
    let mut table: Vec<FieldElem> = Vec::new();
    let mut i: usize = 0;
    while i < total
        invariant
            all_wf(r@),
            n == r@.len(),
            pow2(n as nat) <= usize::MAX,
            total as nat == pow2(n as nat),
            0 <= i <= total,
            table@.len() == i,
            forall|j: int| 0 <= j < i ==> (#[trigger] table@[j]) == eq_point(r@, j),
        decreases total - i,
    {
        let mut cur = FieldElem::one();
        let mut d: usize = 1;
        let mut k: usize = 0;
        proof {
            vstd::arithmetic::power2::lemma2_to64();
            assert(r@.take(0) =~= Seq::<FieldElem>::empty());
        }
        while k < n
            invariant
                all_wf(r@),
                n == r@.len(),
                pow2(n as nat) <= usize::MAX,
                i < total,
                total as nat == pow2(n as nat),
                0 <= k <= n,
                d as nat == pow2(k as nat),
                cur.wf(),
                cur == eq_point(r@.take(k as int), i as int % pow2(k as nat) as int),
            decreases n - k,
        {
            proof {
                vstd::arithmetic::power2::lemma_pow2_pos(k as nat);
                if k as nat + 1 < n as nat {
                    vstd::arithmetic::power2::lemma_pow2_strictly_increases(k as nat + 1, n as nat);
                }
                vstd::arithmetic::power2::lemma_pow2_unfold(k as nat + 1);
            }
            let b = (i / d) % 2 == 1;
            let f = if b {
                r[k]
            } else {
                FieldElem::one().sub(r[k])
            };
            proof {
                let h = pow2(k as nat) as int;
                let h2 = pow2(k as nat + 1) as int;
                let iv = i as int;
                vstd::arithmetic::div_mod::lemma_mod_breakdown(iv, h, 2);
                let bi = (iv / h) % 2;
                let mi = iv % h;
                assert(iv % h2 == h * bi + mi);
                assert((h * bi + mi) % h == mi && (h * bi + mi) / h == bi) by (nonlinear_arith)
                    requires
                        0 <= mi < h,
                        0 <= bi,
                        h > 0,
                ;
                let rk = r@.take(k as int + 1);
                assert(rk.drop_last() =~= r@.take(k as int));
                assert(rk.last() == r@[k as int]);
                assert(eq_point(rk, iv % h2) == fe_mul(
                    eq_point(r@.take(k as int), mi),
                    crate::sumcheck::w_factor(r@[k as int], bi == 1),
                ));
                assert(f == crate::sumcheck::w_factor(r@[k as int], b));
                assert(b == (bi == 1));
            }
            cur = cur.mul(f);
            d = d * 2;
            k = k + 1;
        }
        proof {
            assert(r@.take(n as int) =~= r@);
            vstd::arithmetic::div_mod::lemma_small_mod(i as nat, pow2(n as nat));
        }
        table.push(cur);
        i = i + 1;
    }
    proof {
        assert(table@ =~= eq_table(r@));
    }
    DenseMultilinearExtension { num_vars: n, evaluations: table }
}


/// The sum of the polynomial over all boolean completions of `prefix` with
/// `k` more coordinates: the claim a sum-check run starts from.
pub open spec fn vp_hypercube_sum(
    products: Seq<(FieldElem, Vec<usize>)>,
    mles: Seq<DenseMultilinearExtension>,
    prefix: Seq<FieldElem>,
    k: nat,
) -> FieldElem
    decreases k,
{
    if k == 0 {
        vp_eval(products, mles, prefix)
    } else {
        fe_add(
            vp_hypercube_sum(products, mles, prefix.push(fe_zero()), (k - 1) as nat),
            vp_hypercube_sum(products, mles, prefix.push(fe_one()), (k - 1) as nat),
        )
    }
}

/// Hypercube sums are reduced residues.
pub proof fn lemma_vp_hypercube_sum_wf(
    products: Seq<(FieldElem, Vec<usize>)>,
    mles: Seq<DenseMultilinearExtension>,
    prefix: Seq<FieldElem>,
    k: nat,
)
    ensures
        vp_hypercube_sum(products, mles, prefix, k).wf(),
    decreases k,
{
    if k == 0 {
        lemma_vp_eval_wf(products, mles, prefix);
    } else {
        lemma_vp_hypercube_sum_wf(products, mles, prefix.push(fe_zero()), (k - 1) as nat);
    }
}

/// The polynomial's sum over all boolean completions of `prefix` with `k` more
/// coordinates, computed by direct enumeration.
pub fn hypercube_sum(poly: &VirtualPolynomial, prefix: &Vec<FieldElem>, k: usize) -> (r: FieldElem)
    requires
        poly.wf(),
        all_wf(prefix@),
        prefix@.len() + k == poly.num_vars,
    ensures
        r == vp_hypercube_sum(poly.products@, poly.flattened_ml_extensions@, prefix@, k as nat),
        r.wf(),
    decreases k,
{
    if k == 0 {
        let v = match poly.evaluate(prefix) {
            Ok(v) => v,
            Err(_) => FieldElem::zero(),
        };
        v
    } else {
        let mut p0 = prefix.clone();
        p0.push(FieldElem::zero());
        let a = hypercube_sum(poly, &p0, k - 1);
        let mut p1 = prefix.clone();
        p1.push(FieldElem::one());
        let b = hypercube_sum(poly, &p1, k - 1);
        a.add(b)
    }
}

impl VirtualPolynomial {
    /// A random polynomial over `nv` variables: `num_products` products, each
    /// with a factor count drawn from the given half-open range and fresh
    /// random extensions, paired with its true sum over the boolean hypercube,
    /// computed directly from the construction as ground truth.
    pub fn random(
        nv: usize,
        num_multiplicands_range: (usize, usize),
        num_products: usize,
        rng: &mut rand::rngs::StdRng,
    ) -> (r: (Self, FieldElem))
        requires
            pow2(nv as nat) <= usize::MAX,
            num_multiplicands_range.0 < num_multiplicands_range.1,
        ensures
            r.0.wf(),
            r.0.num_vars == nv,
            r.0.max_degree == num_multiplicands_range.1 - 1,
            r.0.products@.len() == num_products,
            forall|t: int|
                0 <= t < r.0.products@.len() ==> num_multiplicands_range.0 <= (
                #[trigger] r.0.products@[t]).1@.len() < num_multiplicands_range.1,
            r.1.wf(),
            r.1 == vp_hypercube_sum(
                r.0.products@,
                r.0.flattened_ml_extensions@,
                Seq::<FieldElem>::empty(),
                nv as nat,
            ),
    {
        let lo = num_multiplicands_range.0;
        let hi = num_multiplicands_range.1;
        let mut arena: Vec<DenseMultilinearExtension> = Vec::new();
        let mut products: Vec<(FieldElem, Vec<usize>)> = Vec::new();
        let mut p: usize = 0;
        while p < num_products
            invariant
                pow2(nv as nat) <= usize::MAX,
                lo < hi,
                0 <= p <= num_products,
                products@.len() == p,
                forall|t: int|
                    0 <= t < products@.len() ==> lo <= (#[trigger] products@[t]).1@.len() < hi,
                forall|k: int|
                    0 <= k < arena@.len() ==> (#[trigger] arena@[k]).wf() && arena@[k].num_vars
                        == nv,
                forall|t: int|
                    0 <= t < products@.len() ==> prod_wf(
                        #[trigger] products@[t],
                        arena@.len() as int,
                        (hi - 1) as int,
                    ),
            decreases num_products - p,
        {
            let span = (hi - lo) as u64;
            let draw = crate::random::sample_below(rng, span);
            let count = lo + (draw as usize);
            let mles = crate::random::random_mle_list(nv, count, rng);
            let ghost arena0 = arena@;
            let mut fs: Vec<usize> = Vec::new();
            let mut f: usize = 0;
            while f < count
                invariant
                    0 <= f <= count,
                    mles@.len() == count,
                    forall|j: int|
                        0 <= j < count ==> (#[trigger] mles@[j]).wf() && mles@[j].num_vars == nv,
                    arena@.len() == arena0.len() + f,
                    forall|k: int|
                        0 <= k < arena@.len() ==> (#[trigger] arena@[k]).wf() && arena@[k].num_vars
                            == nv,
                    fs@.len() == f,
                    forall|j: int| 0 <= j < f ==> (#[trigger] fs@[j]) < arena@.len(),
                decreases count - f,
            {
                let idx = arena.len();
                arena.push(mles[f].duplicate());
                fs.push(idx);
                f = f + 1;
            }
            let coeff = crate::random::next_challenge(rng);
            products.push((coeff, fs));
            p = p + 1;
        }
        proof {
            assert forall|t: int| 0 <= t < products@.len() implies prod_wf(
                #[trigger] products@[t],
                arena@.len() as int,
                (hi - 1) as int,
            ) by {}
        }
        let vp = VirtualPolynomial {
            num_vars: nv,
            max_degree: hi - 1,
            products,
            flattened_ml_extensions: arena,
        };
        let none: Vec<FieldElem> = Vec::new();
        let sum = hypercube_sum(&vp, &none, nv);
        (vp, sum)
    }
}

} // verus!
