//! Lagrange interpolation.
//!
//! From points with pairwise distinct x-coordinates, the unique polynomial of
//! degree below the number of points that passes through all of them: the sum
//! over the points of the scaled basis polynomials
//! `L_i(X) = Π_{j≠i} (X − x_j)/(x_i − x_j)`.

use vstd::prelude::*;
use vstd::arithmetic::div_mod::lemma_small_mod;
use crate::field::{
    modulus, fadd, fmul, fneg, fsub, Scalar, lemma_fmul_zero, lemma_fmul_comm,
    lemma_fmul_distrib, lemma_fneg_cancel, lemma_fsub_zero, lemma_fadd_zero,
};
use crate::poly::{
    svals, poly_eval, pconv, pscale, padd, ptrim, Polynomial,
    lemma_eval_ptrim, lemma_eval_pconv, lemma_eval_pscale, lemma_eval_padd,
    lemma_ptrim_prefix, lemma_pconv_len_bound,
};
use crate::errors::KzgError;

verus! {

/// The x-coordinate values of a point list.
pub open spec fn xs_vals(pts: Seq<(Scalar, Scalar)>) -> Seq<nat> {
    pts.map_values(|p: (Scalar, Scalar)| p.0.value())
}

/// The y-coordinate values of a point list.
pub open spec fn ys_vals(pts: Seq<(Scalar, Scalar)>) -> Seq<nat> {
    pts.map_values(|p: (Scalar, Scalar)| p.1.value())
}

/// Both coordinates of every point are well-formed scalars.
pub open spec fn pts_wf(pts: Seq<(Scalar, Scalar)>) -> bool {
    forall|i: int| 0 <= i < pts.len()
        ==> (#[trigger] pts[i]).0.wf() && pts[i].1.wf()
}

/// All x-coordinates are pairwise distinct.
pub open spec fn distinct_xs(pts: Seq<(Scalar, Scalar)>) -> bool {
    forall|i: int, j: int| 0 <= i < j < pts.len()
        ==> xs_vals(pts)[i] != xs_vals(pts)[j]
}

/// Evaluation of a one-coefficient polynomial.
proof fn lemma_eval_const(c: nat, t: nat)
    ensures
        poly_eval(seq![c], t) == c % modulus(),
{
    let s = seq![c];
    assert(s.drop_first().len() == 0);
    assert(poly_eval(s.drop_first(), t) == 0);
    lemma_fmul_zero(t);
}

/// Evaluation of a two-coefficient polynomial.
proof fn lemma_eval_linear(c0: nat, c1: nat, t: nat)
    requires
        c1 < modulus(),
    ensures
        poly_eval(seq![c0, c1], t) == fadd(c0, fmul(t, c1)),
{
    let s = seq![c0, c1];
    assert(s.drop_first() =~= seq![c1]);
    lemma_eval_const(c1, t);
    lemma_small_mod(c1, modulus());
}

/// Multiplying a partial basis polynomial by the normalized linear factor
/// for point `j` keeps the value one at `x_i`, keeps the value zero at the
/// points already handled, and makes it zero at `x_j`.
proof fn lemma_basis_step(
    oldl: Seq<nat>, newl: Seq<nat>, dv: nat, xsv: Seq<nat>, i: int, j: int, n: int,
)
    requires
        0 <= i < n,
        0 <= j < n,
        i != j,
        xsv.len() == n,
        dv < modulus(),
        xsv[i] < modulus(),
        xsv[j] < modulus(),
        newl == ptrim(pconv(oldl, seq![fmul(dv, fneg(xsv[j])), dv])),
        fmul(dv, fsub(xsv[i], xsv[j])) == 1,
        poly_eval(oldl, xsv[i]) == 1,
        forall|k: int| 0 <= k < j && k != i ==> poly_eval(oldl, #[trigger] xsv[k]) == 0,
    ensures
        poly_eval(newl, xsv[i]) == 1,
        forall|k: int| 0 <= k < j + 1 && k != i ==> poly_eval(newl, #[trigger] xsv[k]) == 0,
        newl.len() <= oldl.len() + 1,
{
    let c0v = fmul(dv, fneg(xsv[j]));
    let linv: Seq<nat> = seq![c0v, dv];
    let conv = pconv(oldl, linv);
    lemma_pconv_len_bound(oldl, linv);
    lemma_ptrim_prefix(conv);
    // The factor evaluates to d·(x_i − x_j) at x_i, which is one.
    assert(poly_eval(linv, xsv[i]) == 1) by {
        lemma_eval_linear(c0v, dv, xsv[i]);
        lemma_fmul_comm(xsv[i], dv);
        lemma_fmul_distrib(dv, fneg(xsv[j]), xsv[i]);
        assert(fadd(fneg(xsv[j]), xsv[i]) == fsub(xsv[i], xsv[j]));
    }
    assert(poly_eval(newl, xsv[i]) == 1) by {
        lemma_eval_ptrim(conv, xsv[i]);
        lemma_eval_pconv(oldl, linv, xsv[i]);
        lemma_small_mod(1, modulus());
    }
    // The factor itself vanishes at x_j.
    assert(poly_eval(linv, xsv[j]) == 0) by {
        lemma_eval_linear(c0v, dv, xsv[j]);
        lemma_fmul_comm(xsv[j], dv);
        lemma_fmul_distrib(dv, fneg(xsv[j]), xsv[j]);
        lemma_fneg_cancel(xsv[j]);
        lemma_fmul_zero(dv);
    }
    // Values at the points seen so far stay zero.
    assert forall|k: int| 0 <= k < j + 1 && k != i
        implies poly_eval(newl, #[trigger] xsv[k]) == 0 by {
        lemma_eval_ptrim(conv, xsv[k]);
        lemma_eval_pconv(oldl, linv, xsv[k]);
        if k < j {
            lemma_fmul_zero(poly_eval(linv, xsv[k]));
        } else {
            lemma_fmul_zero(poly_eval(oldl, xsv[k]));
        }
    }
}

/// Adding the basis polynomial for point `i`, scaled by `y_i`, extends the
/// partial interpolation sum by one matched point.
proof fn lemma_accumulate_step(
    oldacc: Seq<nat>, l: Seq<nat>, newacc: Seq<nat>, xsv: Seq<nat>, ysv: Seq<nat>,
    i: int, n: int,
)
    requires
        0 <= i < n,
        xsv.len() == n,
        ysv.len() == n,
        ysv[i] < modulus(),
        forall|k: int| 0 <= k < n ==> (#[trigger] ysv[k]) < modulus(),
        newacc == ptrim(padd(oldacc, ptrim(pscale(l, ysv[i])))),
        poly_eval(l, xsv[i]) == 1,
        forall|k: int| 0 <= k < n && k != i ==> poly_eval(l, #[trigger] xsv[k]) == 0,
        forall|k: int| 0 <= k < n ==> poly_eval(oldacc, #[trigger] xsv[k])
            == if k < i { ysv[k] } else { 0nat },
    ensures
        forall|k: int| 0 <= k < n ==> poly_eval(newacc, #[trigger] xsv[k])
            == if k < i + 1 { ysv[k] } else { 0nat },
        newacc.len() <= if oldacc.len() >= l.len() { oldacc.len() } else { l.len() },
{
    let term = ptrim(pscale(l, ysv[i]));
    lemma_ptrim_prefix(pscale(l, ysv[i]));
    lemma_ptrim_prefix(padd(oldacc, term));
    assert forall|k: int| 0 <= k < n implies poly_eval(newacc, #[trigger] xsv[k])
        == if k < i + 1 { ysv[k] } else { 0nat } by {
        lemma_eval_ptrim(padd(oldacc, term), xsv[k]);
        lemma_eval_padd(oldacc, term, xsv[k]);
        lemma_eval_ptrim(pscale(l, ysv[i]), xsv[k]);
        lemma_eval_pscale(l, ysv[i], xsv[k]);
        let ev = poly_eval(l, xsv[k]);
        assert(poly_eval(term, xsv[k]) == fmul(ysv[i], ev));
        assert(poly_eval(newacc, xsv[k]) == fadd(poly_eval(oldacc, xsv[k]), fmul(ysv[i], ev)));
        if k == i {
            assert(ev == 1);
            assert(ysv[i] * 1 == ysv[i]);
            lemma_small_mod(ysv[i], modulus());
            assert(fmul(ysv[i], 1) == ysv[i]);
            lemma_fadd_zero(ysv[k]);
        } else {
            assert(ev == 0);
            lemma_fmul_zero(ysv[i]);
            if k < i {
                lemma_fadd_zero(ysv[k]);
            } else {
                lemma_fadd_zero(0);
            }
        }
    }
}

/// The Lagrange basis polynomial for point `i`: one at `x_i`, zero at every
/// other of the given points.
fn lagrange_basis(points: &Vec<(Scalar, Scalar)>, i: usize) -> (l: Polynomial)
    requires
        pts_wf(points@),
        distinct_xs(points@),
        i < points@.len(),
    ensures
        l.wf(),
        l@.len() <= points@.len(),
        poly_eval(l@, xs_vals(points@)[i as int]) == 1,
        forall|k: int| 0 <= k < points@.len() && k != i as int
            ==> poly_eval(l@, #[trigger] xs_vals(points@)[k]) == 0,
{
    let ghost xsv = xs_vals(points@);
    let n = points.len();
    let mut lc: Vec<Scalar> = Vec::new();
    lc.push(Scalar::one());
    let mut l = Polynomial::from_coefficients(lc);
    proof {
        assert(l@ =~= seq![1nat]);
        lemma_eval_const(1, xsv[i as int]);
        lemma_small_mod(1, modulus());
    }
    let mut j: usize = 0;
    while j < n
        invariant
            pts_wf(points@),
            distinct_xs(points@),
            n == points@.len(),
            xsv == xs_vals(points@),
            i < n,
            j <= n,
            l.wf(),
            l@.len() + (if (i as int) < (j as int) { 1int } else { 0int }) <= j + 1,
            poly_eval(l@, xsv[i as int]) == 1,
            forall|k: int| 0 <= k < j && k != i as int
                ==> poly_eval(l@, #[trigger] xsv[k]) == 0,
        decreases n - j,
    {
        if j != i {
            let xi = points[i].0.dup();
            let xj = points[j].0.dup();
            proof {
                if i < j {
                    assert(xsv[i as int] != xsv[j as int]);
                } else {
                    assert(xsv[j as int] != xsv[i as int]);
                }
                lemma_fsub_zero(xi.value(), xj.value());
            }
            let denom = xi.sub(&xj);
            let d = denom.inverse();
            proof {
                if d.value() == 0 {
                    lemma_fmul_zero(denom.value());
                }
                assert(d.value() != 0);
            }
            let c0 = d.mul(&xj.neg());
            let mut linc: Vec<Scalar> = Vec::new();
            linc.push(c0);
            linc.push(d);
            let lin = Polynomial::from_coefficients(linc);
            let ghost c0v = fmul(d.value(), fneg(xsv[j as int]));
            let ghost dv = d.value();
            proof {
                assert(svals(linc@) =~= seq![c0v, dv]);
                assert(lin@ =~= seq![c0v, dv]);
            }
            let ghost oldl = l@;
            l = l.mul(&lin);
            proof {
                assert(points@[i as int].0.wf());
                assert(points@[j as int].0.wf());
                lemma_basis_step(oldl, l@, dv, xsv, i as int, j as int, n as int);
            }
        }
        j = j + 1;
    }
    l
}

/// The interpolating polynomial through the given points.
///
/// Succeeds exactly when the x-coordinates are pairwise distinct; the result
/// then evaluates to `y_i` at each `x_i`, with no more coefficients than
/// there are points.
pub fn interpolate(points: &Vec<(Scalar, Scalar)>) -> (r: Result<Polynomial, KzgError>)
    requires
        pts_wf(points@),
    ensures
        match r {
            Ok(p) => {
                &&& distinct_xs(points@)
                &&& p.wf()
                &&& p@.len() <= points@.len()
                &&& forall|k: int| 0 <= k < points@.len()
                    ==> poly_eval(p@, #[trigger] xs_vals(points@)[k]) == ys_vals(points@)[k]
            },
            Err(e) => e == KzgError::DuplicateAbscissa && !distinct_xs(points@),
        },
{
    let ghost xsv = xs_vals(points@);
    let ghost ysv = ys_vals(points@);
    let n = points.len();

    // Reject repeated x-coordinates up front: field arithmetic gives no
    // usable signal when a denominator below would otherwise be zero.
    let mut i: usize = 0;
    while i < n
        invariant
            pts_wf(points@),
            n == points@.len(),
            xsv == xs_vals(points@),
            i <= n,
            forall|i1: int, j1: int| 0 <= i1 < i && i1 < j1 < n ==> xsv[i1] != xsv[j1],
        decreases n - i,
    {
        let mut j: usize = i + 1;
        while j < n
            invariant
                pts_wf(points@),
                n == points@.len(),
                xsv == xs_vals(points@),
                i < n,
                i + 1 <= j <= n,
                forall|i1: int, j1: int| 0 <= i1 < i && i1 < j1 < n ==> xsv[i1] != xsv[j1],
                forall|j1: int| i < j1 < j ==> xsv[i as int] != xsv[j1],
            decreases n - j,
        {
            if points[i].0.equals(&points[j].0) {
                proof {
                    if distinct_xs(points@) {
                        assert(xsv[i as int] != xsv[j as int]);
                    }
                }
                return Err(KzgError::DuplicateAbscissa);
            }
            j = j + 1;
        }
        i = i + 1;
    }
    assert(distinct_xs(points@));

    let mut acc = Polynomial::zero();
    let mut i: usize = 0;
    while i < n
        invariant
            pts_wf(points@),
            distinct_xs(points@),
            n == points@.len(),
            xsv == xs_vals(points@),
            ysv == ys_vals(points@),
            i <= n,
            acc.wf(),
            acc@.len() <= n,
            forall|k: int| 0 <= k < n ==> poly_eval(acc@, #[trigger] xsv[k])
                == if k < i { ysv[k] } else { 0nat },
        decreases n - i,
    {
        let l = lagrange_basis(points, i);
        let yi = points[i].1.dup();
        let term = l.scale(&yi);
        let ghost oldacc = acc@;
        acc = acc.add(&term);
        proof {
            lemma_accumulate_step(oldacc, l@, acc@, xsv, ysv, i as int, n as int);
        }
        i = i + 1;
    }
    Ok(acc)
}

} // verus!
