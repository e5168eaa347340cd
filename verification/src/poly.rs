//! Dense univariate polynomials over the scalar field.
//!
//! A polynomial is an ordered sequence of coefficients, index equal to degree;
//! the zero polynomial is the empty sequence, and a non-empty coefficient
//! vector is kept normalized (the last coefficient is non-zero).  The
//! mathematical model of a polynomial is the sequence of its coefficient
//! values; evaluation, sums, scalings, products and the quotient by a linear
//! factor are specified over that model and proved about the executable code.

use vstd::prelude::*;
use vstd::arithmetic::div_mod::{
    lemma_small_mod, lemma_mod_division_less_than_divisor, lemma_add_mod_noop,
    lemma_add_mod_noop_right, lemma_mul_mod_noop_general,
};
use crate::field::{
    modulus, fadd, fmul, fsub, Scalar, lemma_fmul_zero, lemma_fmul_comm,
    lemma_fmul_distrib, lemma_fadd_mod, lemma_fmul_mod, lemma_fmul_bound,
    lemma_fmul_swap, lemma_fadd3, lemma_fadd4, lemma_fadd_zero, lemma_fsub_add,
};

verus! {

/// The values of a sequence of scalars.
pub open spec fn svals(s: Seq<Scalar>) -> Seq<nat> {
    s.map_values(|x: Scalar| x.value())
}

/// Every scalar of the sequence is well-formed.
pub open spec fn swf(s: Seq<Scalar>) -> bool {
    forall|i: int| 0 <= i < s.len() ==> (#[trigger] s[i]).wf()
}

/// Every coefficient is a reduced field value.
pub open spec fn coeffs_ok(s: Seq<nat>) -> bool {
    forall|i: int| 0 <= i < s.len() ==> (#[trigger] s[i]) < modulus()
}

/// The coefficient of degree `i`, zero beyond the stored length.
pub open spec fn at(s: Seq<nat>, i: int) -> nat {
    if 0 <= i < s.len() {
        s[i]
    } else {
        0
    }
}

/// Coefficient-wise field sum, up to the longer length.
pub open spec fn padd(a: Seq<nat>, b: Seq<nat>) -> Seq<nat> {
    Seq::new(if a.len() >= b.len() { a.len() } else { b.len() }, |i: int| fadd(at(a, i), at(b, i)))
}

/// Every coefficient multiplied by a field element.
pub open spec fn pscale(a: Seq<nat>, k: nat) -> Seq<nat> {
    Seq::new(a.len(), |i: int| fmul(k, a[i]))
}

/// The product of two coefficient sequences: the convolution, written as
/// scaling the second factor by the head and adding the shifted product of
/// the tail.
pub open spec fn pconv(a: Seq<nat>, b: Seq<nat>) -> Seq<nat>
    decreases a.len(),
{
    if a.len() == 0 {
        Seq::empty()
    } else {
        padd(pscale(b, a[0]), seq![0nat] + pconv(a.drop_first(), b))
    }
}

/// Horner evaluation of a coefficient sequence at a point.
pub open spec fn poly_eval(c: Seq<nat>, x: nat) -> nat
    decreases c.len(),
{
    if c.len() == 0 {
        0
    } else {
        fadd(c[0], fmul(x, poly_eval(c.drop_first(), x)))
    }
}

/// Trailing zero coefficients removed.
pub open spec fn ptrim(s: Seq<nat>) -> Seq<nat>
    decreases s.len(),
{
    if s.len() == 0 {
        s
    } else if s.last() == 0 {
        ptrim(s.drop_last())
    } else {
        s
    }
}

/// The quotient of a coefficient sequence by the linear factor `X - z`:
/// coefficient `i` of the quotient is the Horner evaluation at `z` of the
/// coefficients above degree `i`.
pub open spec fn pquot(p: Seq<nat>, z: nat) -> Seq<nat>
    decreases p.len(),
{
    if p.len() <= 1 {
        Seq::empty()
    } else {
        seq![poly_eval(p.drop_first(), z)] + pquot(p.drop_first(), z)
    }
}

/// An evaluation is always a reduced field value.
pub proof fn lemma_eval_bound(c: Seq<nat>, x: nat)
    ensures
        poly_eval(c, x) < modulus(),
    decreases c.len(),
{
    if c.len() == 0 {
    } else {
        lemma_mod_division_less_than_divisor(
            (c[0] + fmul(x, poly_eval(c.drop_first(), x))) as int,
            modulus() as int,
        );
    }
}

/// Evaluation is a field homomorphism for polynomial sums.
#[verifier::rlimit(100)]
pub proof fn lemma_eval_padd(a: Seq<nat>, b: Seq<nat>, x: nat)
    ensures
        poly_eval(padd(a, b), x) == fadd(poly_eval(a, x), poly_eval(b, x)),
    decreases a.len() + b.len(),
{
    let s = padd(a, b);
    if s.len() == 0 {
        lemma_fadd_zero(0);
    } else {
        // Normalize both tails so one inductive call covers every case.
        let ta: Seq<nat> = if a.len() > 0 { a.drop_first() } else { Seq::empty() };
        let tb: Seq<nat> = if b.len() > 0 { b.drop_first() } else { Seq::empty() };
        lemma_eval_padd(ta, tb, x);
        assert(s.drop_first() =~= padd(ta, tb));
        let a0 = at(a, 0);
        let b0 = at(b, 0);
        let pa = fmul(x, poly_eval(ta, x));
        let pb = fmul(x, poly_eval(tb, x));
        assert(poly_eval(a, x) == fadd(a0, pa)) by {
            if a.len() == 0 {
                lemma_fmul_zero(x);
                lemma_fadd_zero(0);
            }
        }
        assert(poly_eval(b, x) == fadd(b0, pb)) by {
            if b.len() == 0 {
                lemma_fmul_zero(x);
                lemma_fadd_zero(0);
            }
        }
        lemma_fmul_distrib(x, poly_eval(ta, x), poly_eval(tb, x));
        assert(poly_eval(s, x) == fadd(fadd(a0, b0), fadd(pa, pb)));
        lemma_fadd4(a0, b0, pa, pb);
        lemma_fadd4(a0, pa, b0, pb);
    }
}

/// Evaluation commutes with scaling.
#[verifier::rlimit(100)]
pub proof fn lemma_eval_pscale(a: Seq<nat>, k: nat, x: nat)
    ensures
        poly_eval(pscale(a, k), x) == fmul(k, poly_eval(a, x)),
    decreases a.len(),
{
    let m = modulus() as int;
    if a.len() == 0 {
        assert(k * 0 == 0);
        lemma_small_mod(0, modulus());
    } else {
        let a1 = a.drop_first();
        lemma_eval_pscale(a1, k, x);
        assert(pscale(a, k).drop_first() =~= pscale(a1, k));
        let e = poly_eval(a1, x) as int;
        let a0 = a[0] as int;
        assert(poly_eval(pscale(a, k), x) == (k * a0 + k * (x * e)) % m) by {
            lemma_add_mod_noop((k as int * a0) as int, (x as int) * ((k as int * e) % m), m);
            lemma_mul_mod_noop_general(x as int, k as int * e, m);
            assert((x as int) * (k as int * e) == k as int * (x as int * e)) by (nonlinear_arith);
            lemma_add_mod_noop(k as int * a0, k as int * (x as int * e), m);
        }
        assert(fmul(k, poly_eval(a, x)) == (k * a0 + k * (x * e)) % m) by {
            lemma_add_mod_noop_right(x as int * e, a0, m);
            lemma_mul_mod_noop_general(k as int, a0 + x as int * e, m);
            assert((k as int) * (a0 + x as int * e) == k as int * a0 + k as int * (x as int * e))
                by (nonlinear_arith);
        }
    }
}

/// Evaluation turns the product of coefficient sequences into a field product.
#[verifier::rlimit(100)]
pub proof fn lemma_eval_pconv(a: Seq<nat>, b: Seq<nat>, x: nat)
    ensures
        poly_eval(pconv(a, b), x) == fmul(poly_eval(a, x), poly_eval(b, x)),
    decreases a.len(),
{
    if a.len() == 0 {
        lemma_fmul_zero(poly_eval(b, x));
    } else {
        let a1 = a.drop_first();
        lemma_eval_pconv(a1, b, x);
        let a0 = a[0];
        let ea1 = poly_eval(a1, x);
        let eb = poly_eval(b, x);
        let shifted = seq![0nat] + pconv(a1, b);
        lemma_eval_padd(pscale(b, a0), shifted, x);
        lemma_eval_pscale(b, a0, x);
        // The shifted tail evaluates to x times the tail product.
        assert(shifted.drop_first() =~= pconv(a1, b));
        assert(shifted[0] == 0);
        lemma_fmul_bound(x, fmul(ea1, eb));
        lemma_fadd_zero(fmul(x, fmul(ea1, eb)));
        assert(poly_eval(shifted, x) == fmul(x, fmul(ea1, eb)));
        assert(poly_eval(pconv(a, b), x) == fadd(fmul(a0, eb), fmul(x, fmul(ea1, eb))));
        // Rearrange (a0 + x·ea1)·eb into a0·eb + x·(ea1·eb).
        lemma_fmul_comm(fadd(a0, fmul(x, ea1)), eb);
        lemma_fmul_distrib(eb, a0, fmul(x, ea1));
        lemma_fmul_comm(eb, a0);
        lemma_fmul_swap(eb, x, ea1);
        lemma_fmul_comm(eb, ea1);
        assert(fmul(poly_eval(a, x), eb) == fadd(fmul(a0, eb), fmul(x, fmul(ea1, eb))));
    }
}

/// A trailing zero coefficient does not change an evaluation.
pub proof fn lemma_eval_drop_last(s: Seq<nat>, x: nat)
    requires
        s.len() > 0,
        s.last() == 0,
    ensures
        poly_eval(s.drop_last(), x) == poly_eval(s, x),
    decreases s.len(),
{
    let m = modulus();
    if s.len() == 1 {
        assert(s[0] == 0);
        assert(s.drop_first().len() == 0);
        assert(poly_eval(s.drop_first(), x) == 0);
        assert(x * 0 == 0);
        lemma_small_mod(0, m);
        assert(fmul(x, 0) == 0);
        assert(poly_eval(s, x) == fadd(0, 0));
        assert(fadd(0, 0) == 0);
        assert(s.drop_last().len() == 0);
    } else {
        let t = s.drop_first();
        lemma_eval_drop_last(t, x);
        assert(s.drop_last().drop_first() =~= t.drop_last());
        assert(s.drop_last()[0] == s[0]);
    }
}

/// Trimming trailing zeros does not change an evaluation.
pub proof fn lemma_eval_ptrim(s: Seq<nat>, x: nat)
    ensures
        poly_eval(ptrim(s), x) == poly_eval(s, x),
    decreases s.len(),
{
    if s.len() > 0 && s.last() == 0 {
        lemma_eval_drop_last(s, x);
        lemma_eval_ptrim(s.drop_last(), x);
    }
}

/// The trimmed sequence is a normalized prefix of the original.
pub proof fn lemma_ptrim_prefix(s: Seq<nat>)
    ensures
        ptrim(s).len() <= s.len(),
        ptrim(s) == s.subrange(0, ptrim(s).len() as int),
        ptrim(s).len() == 0 || ptrim(s).last() != 0,
    decreases s.len(),
{
    if s.len() == 0 {
        assert(ptrim(s) =~= s.subrange(0, 0));
    } else if s.last() == 0 {
        lemma_ptrim_prefix(s.drop_last());
        assert(s.drop_last() =~= s.subrange(0, s.len() - 1));
        assert(ptrim(s) =~= s.subrange(0, ptrim(s).len() as int));
    } else {
        assert(ptrim(s) =~= s.subrange(0, s.len() as int));
    }
}

/// The length of a product of coefficient sequences.
pub proof fn lemma_pconv_len_bound(a: Seq<nat>, b: Seq<nat>)
    ensures
        a.len() == 0 ==> pconv(a, b).len() == 0,
        a.len() > 0 && b.len() == 0 ==> pconv(a, b).len() == a.len(),
        a.len() > 0 && b.len() > 0 ==> pconv(a, b).len() == a.len() + b.len() - 1,
    decreases a.len(),
{
    if a.len() > 0 {
        lemma_pconv_len_bound(a.drop_first(), b);
    }
}

/// Length and leading coefficient of the quotient by a linear factor.
pub proof fn lemma_pquot_shape(p: Seq<nat>, z: nat)
    ensures
        p.len() == 0 ==> pquot(p, z).len() == 0,
        p.len() >= 1 ==> pquot(p, z).len() == p.len() - 1,
        p.len() >= 2 ==> pquot(p, z).last() == p.last() % modulus(),
    decreases p.len(),
{
    if p.len() >= 2 {
        let t = p.drop_first();
        lemma_pquot_shape(t, z);
        if p.len() == 2 {
            assert(t.drop_first().len() == 0);
            assert(poly_eval(t.drop_first(), z) == 0);
            assert(z * 0 == 0);
            lemma_small_mod(0, modulus());
            assert(fmul(z, 0) == 0);
            assert(poly_eval(t, z) == fadd(t[0], 0));
            assert(pquot(p, z) =~= seq![poly_eval(t, z)]);
            assert(t[0] == p.last());
        }
    }
}

/// The division identity for the quotient by `X - z`, stated through
/// evaluations: at every point `t`, `p(t) = q(t)·(t - z) + p(z)` where `q`
/// is the quotient.
pub proof fn lemma_division_identity(p: Seq<nat>, z: nat, t: nat)
    ensures
        poly_eval(p, t) == fadd(fmul(poly_eval(pquot(p, z), t), fsub(t, z)), poly_eval(p, z)),
    decreases p.len(),
{
    let m = modulus() as int;
    let d = fsub(t, z) as int;
    if p.len() == 0 {
        lemma_fmul_zero(fsub(t, z));
        lemma_small_mod(0, modulus());
    } else if p.len() == 1 {
        lemma_fmul_zero(fsub(t, z));
        assert(p.drop_first().len() == 0);
        assert(poly_eval(p.drop_first(), t) == 0);
        assert(poly_eval(p.drop_first(), z) == 0);
        assert(t * 0 == 0);
        assert(z * 0 == 0);
        lemma_small_mod(0, modulus());
        assert(fmul(t, 0) == 0);
        assert(fmul(z, 0) == 0);
        assert(poly_eval(p, t) == fadd(p[0], 0));
        assert(poly_eval(p, z) == fadd(p[0], 0));
        // Adding zero and reducing once more changes nothing.
        lemma_mod_division_less_than_divisor(p[0] as int, m);
        lemma_small_mod(poly_eval(p, z), m as nat);
    } else {
        let q = p.drop_first();
        let w0 = poly_eval(q, z);
        let wq = pquot(q, z);
        let ew = poly_eval(wq, t);
        let p0 = p[0];
        let df = fsub(t, z);
        lemma_division_identity(q, z, t);
        let quot = pquot(p, z);
        assert(quot.drop_first() =~= wq);
        assert(quot[0] == w0);
        assert(poly_eval(quot, t) == fadd(w0, fmul(t, ew)));
        assert(poly_eval(p, z) == fadd(p0, fmul(z, w0)));
        // Left side: p0 + t·ew·d + t·w0, in field terms.
        lemma_fmul_distrib(t, fmul(ew, df), w0);
        assert(poly_eval(p, t) == fadd(p0, fadd(fmul(t, fmul(ew, df)), fmul(t, w0))));
        // t·w0 is d·w0 + z·w0 in the field, because d + z reduces to t.
        lemma_fmul_distrib(w0, df, z);
        lemma_fsub_add(t, z);
        lemma_fmul_mod(w0, t);
        lemma_fmul_comm(t, w0);
        lemma_fmul_comm(w0, df);
        lemma_fmul_comm(w0, z);
        assert(fmul(t, w0) == fadd(fmul(df, w0), fmul(z, w0)));
        // Right side: w0·d + t·ew·d + p0 + z·w0, in field terms.
        lemma_fmul_comm(fadd(w0, fmul(t, ew)), df);
        lemma_fmul_distrib(df, w0, fmul(t, ew));
        lemma_fmul_swap(df, t, ew);
        lemma_fmul_comm(df, ew);
        assert(fmul(poly_eval(quot, t), df)
            == fadd(fmul(df, w0), fmul(t, fmul(ew, df))));
        // Both sides flatten to the same integer sum modulo the order.
        let av = fmul(t, fmul(ew, df));
        let cv = fmul(df, w0);
        let dv = fmul(z, w0);
        lemma_fadd3(av, cv, dv);
        lemma_fadd_mod(p0, (av + cv + dv) as nat);
        lemma_fadd4(cv, av, p0, dv);
        assert(fadd(p0, fadd(av, fadd(cv, dv))) == fadd(fadd(cv, av), fadd(p0, dv)));
    }
}

/// A dense univariate polynomial with normalized coefficients.
#[derive(Debug)]
pub struct Polynomial {
    pub coeffs: Vec<Scalar>,
}

impl View for Polynomial {
    type V = Seq<nat>;

    open spec fn view(&self) -> Seq<nat> {
        svals(self.coeffs@)
    }
}

impl Polynomial {
    /// Well-formed: canonical coefficients, no trailing zero coefficient.
    pub open spec fn wf(&self) -> bool {
        swf(self.coeffs@) && (self@.len() == 0 || self@.last() != 0)
    }

    /// The zero polynomial.
    pub fn zero() -> (r: Polynomial)
        ensures
            r.wf(),
            r@ =~= Seq::<nat>::empty(),
    {
        Polynomial { coeffs: Vec::new() }
    }

    /// The polynomial with the given coefficients, trailing zeros removed.
    pub fn from_coefficients(coeffs: Vec<Scalar>) -> (r: Polynomial)
        requires
            swf(coeffs@),
        ensures
            r.wf(),
            r@ == ptrim(svals(coeffs@)),
    {
        let mut c = coeffs;
        while c.len() > 0 && c[c.len() - 1].is_zero()
            invariant
                swf(c@),
                ptrim(svals(c@)) == ptrim(svals(coeffs@)),
            decreases c@.len(),
        {
            let ghost pre = svals(c@);
            c.pop();
            proof {
                assert(svals(c@) =~= pre.drop_last());
            }
        }
        proof {
            if c@.len() > 0 {
                assert(svals(c@).last() != 0);
            }
        }
        Polynomial { coeffs: c }
    }

    /// The number of stored coefficients; the degree is one less.
    pub fn num_coeffs(&self) -> (r: usize)
        ensures
            r == self@.len(),
    {
        self.coeffs.len()
    }

    /// The degree: index of the last non-zero coefficient, none for the zero
    /// polynomial.
    pub fn degree(&self) -> (r: Option<usize>)
        requires
            self.wf(),
        ensures
            self@.len() == 0 ==> r is None,
            self@.len() > 0 ==> r == Some((self@.len() - 1) as usize),
    {
        if self.coeffs.len() == 0 {
            None
        } else {
            Some(self.coeffs.len() - 1)
        }
    }
}

/// Coefficient-wise sum of two coefficient vectors.
fn add_vec(a: &Vec<Scalar>, b: &Vec<Scalar>) -> (r: Vec<Scalar>)
    requires
        swf(a@),
        swf(b@),
    ensures
        swf(r@),
        svals(r@) == padd(svals(a@), svals(b@)),
{
    let n = if a.len() >= b.len() { a.len() } else { b.len() };
    let mut out: Vec<Scalar> = Vec::new();
    let mut i: usize = 0;
    while i < n
        invariant
            swf(a@),
            swf(b@),
            n == if a@.len() >= b@.len() { a@.len() } else { b@.len() },
            i <= n,
            swf(out@),
            svals(out@) =~= padd(svals(a@), svals(b@)).subrange(0, i as int),
        decreases n - i,
    {
        let ai = if i < a.len() { a[i].dup() } else { Scalar::zero() };
        let bi = if i < b.len() { b[i].dup() } else { Scalar::zero() };
        let s = ai.add(&bi);
        let ghost prev = svals(out@);
        out.push(s);
        proof {
            let pv = padd(svals(a@), svals(b@));
            assert(s.value() == pv[i as int]);
            assert(svals(out@) =~= prev.push(s.value()));
            assert(svals(out@) =~= pv.subrange(0, i + 1));
        }
        i = i + 1;
    }
    proof {
        assert(svals(out@) =~= padd(svals(a@), svals(b@)));
    }
    out
}

/// Every coefficient multiplied by a scalar.
fn scale_vec(a: &Vec<Scalar>, k: &Scalar) -> (r: Vec<Scalar>)
    requires
        swf(a@),
        k.wf(),
    ensures
        swf(r@),
        svals(r@) == pscale(svals(a@), k.value()),
{
    let mut out: Vec<Scalar> = Vec::new();
    let mut i: usize = 0;
    while i < a.len()
        invariant
            swf(a@),
            k.wf(),
            i <= a@.len(),
            swf(out@),
            svals(out@) =~= pscale(svals(a@), k.value()).subrange(0, i as int),
        decreases a@.len() - i,
    {
        let s = k.mul(&a[i]);
        let ghost prev = svals(out@);
        out.push(s);
        proof {
            let pv = pscale(svals(a@), k.value());
            assert(s.value() == pv[i as int]);
            assert(svals(out@) =~= prev.push(s.value()));
            assert(svals(out@) =~= pv.subrange(0, i + 1));
        }
        i = i + 1;
    }
    proof {
        assert(svals(out@) =~= pscale(svals(a@), k.value()));
    }
    out
}

/// The product of the coefficients above index `i` of `a` with `b`,
/// following the recursive definition of the convolution.
fn mul_from(a: &Vec<Scalar>, b: &Vec<Scalar>, i: usize) -> (r: Vec<Scalar>)
    requires
        swf(a@),
        swf(b@),
        i <= a@.len(),
    ensures
        swf(r@),
        svals(r@) == pconv(svals(a@).skip(i as int), svals(b@)),
    decreases a@.len() - i,
{
    if i == a.len() {
        let r: Vec<Scalar> = Vec::new();
        proof {
            assert(svals(a@).skip(i as int) =~= Seq::<nat>::empty());
            assert(svals(r@) =~= pconv(svals(a@).skip(i as int), svals(b@)));
        }
        r
    } else {
        let rest = mul_from(a, b, i + 1);
        let scaled = scale_vec(b, &a[i]);
        let mut shifted = rest;
        shifted.insert(0, Scalar::zero());
        let out = add_vec(&scaled, &shifted);
        proof {
            let s = svals(a@).skip(i as int);
            assert(s.drop_first() =~= svals(a@).skip(i + 1));
            assert(s[0] == a@[i as int].value());
            assert(svals(shifted@) =~= seq![0nat] + pconv(svals(a@).skip(i + 1), svals(b@)));
            assert(svals(out@) =~= pconv(s, svals(b@)));
        }
        out
    }
}

/// The suffix quotient and suffix evaluation used by synthetic division:
/// returns the quotient of the coefficients above index `i` by `X - z`
/// together with the Horner evaluation of those coefficients at `z`.
fn div_from(coeffs: &Vec<Scalar>, z: &Scalar, i: usize) -> (r: (Vec<Scalar>, Scalar))
    requires
        swf(coeffs@),
        z.wf(),
        i <= coeffs@.len(),
    ensures
        swf(r.0@),
        r.1.wf(),
        svals(r.0@) == pquot(svals(coeffs@).skip(i as int), z.value()),
        r.1.value() == poly_eval(svals(coeffs@).skip(i as int), z.value()),
    decreases coeffs@.len() - i,
{
    if i == coeffs.len() {
        let w: Vec<Scalar> = Vec::new();
        let v = Scalar::zero();
        proof {
            assert(svals(coeffs@).skip(i as int) =~= Seq::<nat>::empty());
            assert(svals(w@) =~= pquot(svals(coeffs@).skip(i as int), z.value()));
        }
        (w, v)
    } else {
        let (w, v) = div_from(coeffs, z, i + 1);
        let head = coeffs[i].add(&z.mul(&v));
        let ghost s = svals(coeffs@).skip(i as int);
        proof {
            assert(s.drop_first() =~= svals(coeffs@).skip(i + 1));
            assert(s[0] == coeffs@[i as int].value());
        }
        if i + 1 == coeffs.len() {
            proof {
                assert(svals(w@) =~= pquot(s, z.value()));
            }
            (w, head)
        } else {
            let mut w2 = w;
            w2.insert(0, v);
            proof {
                assert(svals(w2@) =~= seq![poly_eval(s.drop_first(), z.value())]
                    + pquot(s.drop_first(), z.value()));
                assert(svals(w2@) =~= pquot(s, z.value()));
            }
            (w2, head)
        }
    }
}

impl Polynomial {
    /// The sum of two polynomials.
    pub fn add(&self, other: &Polynomial) -> (r: Polynomial)
        requires
            self.wf(),
            other.wf(),
        ensures
            r.wf(),
            r@ == ptrim(padd(self@, other@)),
    {
        let out = add_vec(&self.coeffs, &other.coeffs);
        Polynomial::from_coefficients(out)
    }

    /// The polynomial scaled coefficient-wise by a field element.
    pub fn scale(&self, k: &Scalar) -> (r: Polynomial)
        requires
            self.wf(),
            k.wf(),
        ensures
            r.wf(),
            r@ == ptrim(pscale(self@, k.value())),
    {
        let out = scale_vec(&self.coeffs, k);
        Polynomial::from_coefficients(out)
    }

    /// The product of two polynomials.
    pub fn mul(&self, other: &Polynomial) -> (r: Polynomial)
        requires
            self.wf(),
            other.wf(),
        ensures
            r.wf(),
            r@ == ptrim(pconv(self@, other@)),
    {
        let out = mul_from(&self.coeffs, &other.coeffs, 0);
        proof {
            assert(svals(self.coeffs@).skip(0) =~= self@);
        }
        Polynomial::from_coefficients(out)
    }

    /// Horner evaluation at a point.
    pub fn evaluate(&self, x: &Scalar) -> (r: Scalar)
        requires
            self.wf(),
            x.wf(),
        ensures
            r.wf(),
            r.value() == poly_eval(self@, x.value()),
    {
        let r = eval_from(&self.coeffs, x, 0);
        proof {
            assert(svals(self.coeffs@).skip(0) =~= self@);
        }
        r
    }

    /// Synthetic division by the linear factor `X - z`: the quotient and the
    /// remainder, which is the evaluation at `z`.
    pub fn divide_by_linear(&self, z: &Scalar) -> (r: (Polynomial, Scalar))
        requires
            self.wf(),
            z.wf(),
        ensures
            r.0.wf(),
            r.0@ == pquot(self@, z.value()),
            r.1.wf(),
            r.1.value() == poly_eval(self@, z.value()),
    {
        let (w, rem) = div_from(&self.coeffs, z, 0);
        proof {
            assert(svals(self.coeffs@).skip(0) =~= self@);
            lemma_pquot_shape(self@, z.value());
            if self@.len() >= 2 {
                lemma_small_mod(self@.last(), modulus());
            }
        }
        (Polynomial { coeffs: w }, rem)
    }
}

/// Horner evaluation of the coefficients above index `i`.
fn eval_from(coeffs: &Vec<Scalar>, x: &Scalar, i: usize) -> (r: Scalar)
    requires
        swf(coeffs@),
        x.wf(),
        i <= coeffs@.len(),
    ensures
        r.wf(),
        r.value() == poly_eval(svals(coeffs@).skip(i as int), x.value()),
    decreases coeffs@.len() - i,
{
    if i == coeffs.len() {
        let r = Scalar::zero();
        proof {
            assert(svals(coeffs@).skip(i as int) =~= Seq::<nat>::empty());
        }
        r
    } else {
        let rest = eval_from(coeffs, x, i + 1);
        let r = coeffs[i].add(&x.mul(&rest));
        proof {
            let s = svals(coeffs@).skip(i as int);
            assert(s.drop_first() =~= svals(coeffs@).skip(i + 1));
            assert(s[0] == coeffs@[i as int].value());
        }
        r
    }
}

} // verus!
