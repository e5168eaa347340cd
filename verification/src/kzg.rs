//! The KZG10 commitment scheme: reference string, commitment, opening proof
//! and verification.
//!
//! The reference string holds the powers `[τ^i]·G` of a secret trapdoor τ in
//! the first group together with `H` and `[τ]·H` in the second group; the
//! trapdoor itself is sampled inside `setup` and discarded.  A commitment is
//! the multi-scalar multiplication of the coefficients with those powers; an
//! opening proof is the commitment to the quotient of `p(X) − p(z)` by
//! `X − z`; the verifier checks the pairing equation
//! `e(C − [v]·G, H) = e(π, [τ]·H − [z]·H)`.

use vstd::prelude::*;
use crate::field::{
    modulus, fmul, fneg, Scalar, lemma_fadd_zero, lemma_fmul_zero,
    lemma_fneg_cancel,
};
use crate::poly::{
    coeffs_ok, padd, poly_eval, pquot, ptrim, svals, Polynomial,
    lemma_eval_padd, lemma_eval_ptrim, lemma_pquot_shape, lemma_ptrim_prefix,
};
use crate::group::{
    g1_add, g1_add_of, g1_generator, g1_identity, g1_laws,
    g1_mul, g1_mul_of, g2_add, g2_add_of, g2_generator, g2_laws,
    g2_mul, g2_mul_of, pairing, pairing_laws, pairing_of,
    bytes_equal, G1Elem, G2Elem,
};
use crate::errors::KzgError;

verus! {

/// The i-th power of `t` in the scalar field.
pub open spec fn pow_mod(t: nat, i: nat) -> nat
    decreases i,
{
    if i == 0 {
        1
    } else {
        fmul(t, pow_mod(t, (i - 1) as nat))
    }
}

/// The encodings of a sequence of first-group elements.
pub open spec fn g1_views(s: Seq<G1Elem>) -> Seq<Seq<u8>> {
    s.map_values(|e: G1Elem| e@)
}

/// The powers are consistent with the trapdoor `t`: entry `i` encodes the
/// `t^i`-fold multiple of entry `0`.
pub open spec fn key_ok(powers: Seq<Seq<u8>>, t: nat) -> bool {
    &&& t < modulus()
    &&& powers.len() >= 1
    &&& forall|i: int| 1 <= i < powers.len()
        ==> #[trigger] powers[i] == g1_mul_of(pow_mod(t, i as nat), powers[0])
}

/// A full reference string is consistent with the trapdoor `t`: consistent
/// powers, and the second-group element `bh` is the `t`-fold multiple of `h`.
pub open spec fn srs_ok(powers: Seq<Seq<u8>>, h: Seq<u8>, bh: Seq<u8>, t: nat) -> bool {
    key_ok(powers, t) && bh == g2_mul_of(t, h)
}

/// The multi-scalar multiplication of the coefficients at and above index
/// `i` with the matching powers.
pub open spec fn msm_from(powers: Seq<Seq<u8>>, coeffs: Seq<nat>, i: nat) -> Seq<u8>
    decreases coeffs.len() - i,
{
    if i >= coeffs.len() {
        Seq::empty()
    } else if i + 1 == coeffs.len() {
        g1_mul_of(coeffs[i as int], powers[i as int])
    } else {
        g1_add_of(
            g1_mul_of(coeffs[i as int], powers[i as int]),
            msm_from(powers, coeffs, i + 1),
        )
    }
}

/// The commitment to a coefficient sequence under the given powers: the full
/// multi-scalar multiplication, and for the zero polynomial the group
/// identity.
pub open spec fn commit_of(powers: Seq<Seq<u8>>, coeffs: Seq<nat>) -> Seq<u8> {
    if coeffs.len() == 0 {
        g1_mul_of(0, powers[0])
    } else {
        msm_from(powers, coeffs, 0)
    }
}

/// The pairing equation that the verifier checks, over the encodings of the
/// verification key `(g, h, bh)`, the commitment, the point, the claimed
/// value and the proof.
pub open spec fn accepts(
    g: Seq<u8>, h: Seq<u8>, bh: Seq<u8>, c: Seq<u8>, z: nat, v: nat, pi: Seq<u8>,
) -> bool {
    pairing_of(g1_add_of(c, g1_mul_of(fneg(v), g)), h)
        == pairing_of(pi, g2_add_of(bh, g2_mul_of(fneg(z), h)))
}

/// The structured reference string: `[τ^i]·G` for `i` up to the supported
/// degree, plus `H` and `[τ]·H`.  The trapdoor τ exists only inside `setup`.
#[derive(Debug)]
pub struct Srs {
    pub powers: Vec<G1Elem>,
    pub h: G2Elem,
    pub beta_h: G2Elem,
}

/// The committer key: a prefix of the reference string's powers.
#[derive(Debug)]
pub struct CommitterKey {
    pub powers: Vec<G1Elem>,
}

/// The verifier key: the group generators and the `τ`-fold multiple of `H`.
#[derive(Debug)]
pub struct VerifierKey {
    pub g: G1Elem,
    pub h: G2Elem,
    pub beta_h: G2Elem,
}

/// A commitment: one first-group element.
#[derive(Debug)]
pub struct Commitment {
    pub elem: G1Elem,
}

/// An opening proof: the commitment to the witness polynomial.
#[derive(Debug)]
pub struct Proof {
    pub w: G1Elem,
}

impl View for Commitment {
    type V = Seq<u8>;

    open spec fn view(&self) -> Seq<u8> {
        self.elem@
    }
}

impl View for Proof {
    type V = Seq<u8>;

    open spec fn view(&self) -> Seq<u8> {
        self.w@
    }
}

impl Srs {
    /// The encodings of the stored powers.
    pub open spec fn powers_view(&self) -> Seq<Seq<u8>> {
        g1_views(self.powers@)
    }

    /// Some trapdoor is consistent with the whole reference string.
    pub open spec fn wf(&self) -> bool {
        &&& self.powers@.len() >= 1
        &&& exists|t: nat| srs_ok(self.powers_view(), self.h@, self.beta_h@, t)
    }
}

impl CommitterKey {
    /// The encodings of the stored powers.
    pub open spec fn powers_view(&self) -> Seq<Seq<u8>> {
        g1_views(self.powers@)
    }

    /// Some trapdoor is consistent with the stored powers.
    pub open spec fn wf(&self) -> bool {
        &&& self.powers@.len() >= 1
        &&& exists|t: nat| key_ok(self.powers_view(), t)
    }
}

impl Commitment {
    /// The commitment scaled by a field element: the scheme is homomorphic,
    /// so this is the commitment to the scaled polynomial.
    pub fn scale(&self, s: &Scalar) -> (r: Commitment)
        requires
            s.wf(),
        ensures
            r@ == g1_mul_of(s.value(), self@),
    {
        Commitment { elem: g1_mul(s, &self.elem) }
    }

    /// The sum of two commitments: the commitment to the sum of the
    /// committed polynomials.
    pub fn add(&self, other: &Commitment) -> (r: Commitment)
        ensures
            r@ == g1_add_of(self@, other@),
    {
        Commitment { elem: g1_add(&self.elem, &other.elem) }
    }
}

impl Srs {
    /// Generate a reference string supporting the given maximal degree.
    ///
    /// The trapdoor is sampled from the system's entropy source, used to
    /// derive the powers, and dropped with this function's frame: the result
    /// holds only the group elements.
    pub fn setup(max_degree: usize) -> (r: Srs)
        requires
            max_degree < usize::MAX,
        ensures
            r.wf(),
            r.powers@.len() == max_degree + 1,
    {
        let tau = Scalar::random();
        let g = g1_generator();
        let h = g2_generator();
        let beta_h = g2_mul(&tau, &h);
        let mut powers: Vec<G1Elem> = Vec::new();
        powers.push(g.dup());
        let mut cur = Scalar::one();
        let mut i: usize = 1;
        while i <= max_degree
            invariant
                tau.wf(),
                cur.wf(),
                1 <= i <= max_degree + 1,
                max_degree < usize::MAX,
                powers@.len() == i,
                g1_views(powers@)[0] == g@,
                cur.value() == pow_mod(tau.value(), (i - 1) as nat),
                forall|k: int| 1 <= k < i ==> #[trigger] g1_views(powers@)[k]
                    == g1_mul_of(pow_mod(tau.value(), k as nat), g@),
            decreases max_degree + 1 - i,
        {
            cur = cur.mul(&tau);
            let p = g1_mul(&cur, &g);
            let ghost prev = g1_views(powers@);
            powers.push(p);
            proof {
                assert(g1_views(powers@) =~= prev.push(p@));
            }
            i = i + 1;
        }
        let r = Srs { powers, h, beta_h };
        proof {
            let tv = tau.value();
            assert(srs_ok(r.powers_view(), r.h@, r.beta_h@, tv));
        }
        r
    }


    /// The committer key holding the powers up to the supported degree:
    /// succeeds exactly when the reference string reaches that degree.
    pub fn committer_key(&self, supported_degree: usize) -> (r: Result<CommitterKey, KzgError>)
        requires
            self.wf(),
        ensures
            match r {
                Ok(ck) => {
                    &&& supported_degree < self.powers@.len()
                    &&& ck.powers_view()
                        == self.powers_view().subrange(0, supported_degree + 1)
                    &&& ck.wf()
                },
                Err(e) => {
                    &&& e == KzgError::InvalidDegree
                    &&& supported_degree >= self.powers@.len()
                },
            },
    {
        if supported_degree >= self.powers.len() {
            return Err(KzgError::InvalidDegree);
        }
        assert(supported_degree < usize::MAX);
        let mut powers: Vec<G1Elem> = Vec::new();
        let mut i: usize = 0;
        while i <= supported_degree
            invariant
                supported_degree < self.powers@.len(),
                supported_degree < usize::MAX,
                i <= supported_degree + 1,
                g1_views(powers@) =~= self.powers_view().subrange(0, i as int),
            decreases supported_degree + 1 - i,
        {
            let ghost prev = g1_views(powers@);
            powers.push(self.powers[i].dup());
            proof {
                assert(g1_views(powers@) =~= prev.push(self.powers@[i as int]@));
            }
            i = i + 1;
        }
        let ck = CommitterKey { powers };
        proof {
            let t = choose|t: nat| srs_ok(self.powers_view(), self.h@, self.beta_h@, t);
            assert(key_ok(ck.powers_view(), t)) by {
                assert forall|k: int| 1 <= k < ck.powers_view().len()
                    implies #[trigger] ck.powers_view()[k]
                        == g1_mul_of(pow_mod(t, k as nat), ck.powers_view()[0]) by {
                    assert(ck.powers_view()[k] == self.powers_view()[k]);
                }
            }
        }
        Ok(ck)
    }

    /// The verifier key: the first power, `H`, and `[τ]·H`.
    pub fn verifier_key(&self) -> (r: VerifierKey)
        requires
            self.powers@.len() >= 1,
        ensures
            r.g@ == self.powers_view()[0],
            r.h@ == self.h@,
            r.beta_h@ == self.beta_h@,
    {
        VerifierKey { g: self.powers[0].dup(), h: self.h.dup(), beta_h: self.beta_h.dup() }
    }
}

/// The commitment to a polynomial: the multi-scalar multiplication of its
/// coefficients with the key's powers.  Succeeds exactly when the key holds
/// at least as many powers as the polynomial has coefficients.
pub fn commit(ck: &CommitterKey, p: &Polynomial) -> (r: Result<Commitment, KzgError>)
    requires
        p.wf(),
        ck.powers@.len() >= 1,
    ensures
        match r {
            Ok(c) => {
                &&& p@.len() <= ck.powers@.len()
                &&& c@ == commit_of(ck.powers_view(), p@)
                &&& g1_laws()
            },
            Err(e) => e == KzgError::InvalidDegree && p@.len() > ck.powers@.len(),
        },
{
    let n = p.coeffs.len();
    if n > ck.powers.len() {
        return Err(KzgError::InvalidDegree);
    }
    if n == 0 {
        let id = g1_identity();
        proof {
            assert(g1_mul_of(0, ck.powers_view()[0]) == id@);
        }
        return Ok(Commitment { elem: id });
    }
    let mut acc = g1_mul(&p.coeffs[n - 1], &ck.powers[n - 1]);
    let mut i: usize = n - 1;
    while i > 0
        invariant
            p.wf(),
            ck.powers@.len() >= n,
            n == p@.len(),
            n >= 1,
            i <= n - 1,
            acc@ == msm_from(ck.powers_view(), p@, i as nat),
            g1_laws(),
        decreases i,
    {
        i = i - 1;
        let term = g1_mul(&p.coeffs[i], &ck.powers[i]);
        acc = g1_add(&term, &acc);
    }
    Ok(Commitment { elem: acc })
}

/// Evaluate the polynomial at the point and produce the value with its
/// opening proof: the commitment to the quotient of `p(X) − v` by `X − z`.
/// Succeeds exactly when the key covers the polynomial.
pub fn open(ck: &CommitterKey, p: &Polynomial, z: &Scalar) -> (r: Result<(Scalar, Proof), KzgError>)
    requires
        p.wf(),
        z.wf(),
        ck.powers@.len() >= 1,
    ensures
        match r {
            Ok(pair) => {
                &&& p@.len() <= ck.powers@.len()
                &&& pair.0.wf()
                &&& pair.0.value() == poly_eval(p@, z.value())
                &&& pair.1@ == commit_of(ck.powers_view(), pquot(p@, z.value()))
                &&& g1_laws()
            },
            Err(e) => e == KzgError::InvalidDegree && p@.len() > ck.powers@.len(),
        },
{
    if p.coeffs.len() > ck.powers.len() {
        return Err(KzgError::InvalidDegree);
    }
    let value = p.evaluate(z);
    // Subtract the value, so the point becomes a root.
    let negv = value.neg();
    let mut cvec: Vec<Scalar> = Vec::new();
    cvec.push(negv);
    let cpoly = Polynomial::from_coefficients(cvec);
    let q = p.add(&cpoly);
    let ghost zv = z.value();
    let ghost vv = value.value();
    proof {
        assert(svals(cvec@) =~= seq![fneg(vv)]);
        lemma_q_shape(p@, q@, cpoly@, vv, zv);
    }
    let (w, rem) = q.divide_by_linear(z);
    // The remainder is the evaluation of `p − v` at `z`, which is zero; a
    // non-zero remainder would be an internal fault.
    if !rem.is_zero() {
        return Err(KzgError::DivisionInvariantViolated);
    }
    match commit(ck, &w) {
        Ok(c) => Ok((value, Proof { w: c.elem })),
        Err(_) => {
            proof {
                lemma_pquot_shape(q@, zv);
                assert(false);
            }
            Err(KzgError::DivisionInvariantViolated)
        },
    }
}

/// The polynomial `p − v` that the opener divides: its quotient by `X − z`
/// is the quotient of `p` itself, its evaluation at `z` is zero, and it is
/// at most as long as `p` and the constant together.
#[verifier::rlimit(100)]
proof fn lemma_q_shape(pv: Seq<nat>, qv: Seq<nat>, cv: Seq<nat>, vv: nat, zv: nat)
    requires
        coeffs_ok(pv),
        pv.len() == 0 || pv.last() != 0,
        vv == poly_eval(pv, zv),
        vv < modulus(),
        cv == ptrim(seq![fneg(vv)]),
        qv == ptrim(padd(pv, cv)),
    ensures
        pquot(qv, zv) == pquot(pv, zv),
        poly_eval(qv, zv) == 0,
        qv.len() <= if pv.len() >= 1 { pv.len() as int } else { 1int },
{
    let raw = padd(pv, cv);
    lemma_ptrim_prefix(seq![fneg(vv)]);
    lemma_ptrim_prefix(raw);
    // The evaluation at z vanishes: it is v + (−v).
    lemma_eval_ptrim(raw, zv);
    lemma_eval_padd(pv, cv, zv);
    lemma_eval_ptrim(seq![fneg(vv)], zv);
    assert(poly_eval(seq![fneg(vv)], zv) == fneg(vv)) by {
        lemma_fmul_zero(zv);
        crate::field::lemma_fneg_bound(vv);
        lemma_fadd_zero(fneg(vv));
        assert(seq![fneg(vv)].drop_first().len() == 0);
        assert(poly_eval(seq![fneg(vv)].drop_first(), zv) == 0);
    }
    lemma_fneg_cancel(vv);
    assert(poly_eval(qv, zv) == 0);
    // The quotient ignores the constant coefficient.
    if pv.len() >= 2 {
        // q is p with only the constant coefficient changed, and stays
        // normalized because the leading coefficient is unchanged.
        assert forall|k: int| 1 <= k < raw.len() implies raw[k] == pv[k] by {
            lemma_fadd_zero(pv[k]);
        }
        assert(raw.len() == pv.len());
        assert(raw.last() == pv.last());
        assert(qv == raw);
        assert(qv.drop_first() =~= pv.drop_first());
        assert(pquot(qv, zv) == pquot(pv, zv));
    } else {
        // Both quotients are empty.
        lemma_pquot_shape(pv, zv);
        lemma_pquot_shape(qv, zv);
        assert(raw.len() <= 1);
        assert(qv.len() <= 1);
        assert(pquot(qv, zv) =~= pquot(pv, zv));
    }
}

/// Check an opening proof: accept exactly when the pairing equation holds of
/// the key, the commitment, the point, the claimed value and the proof.
pub fn verify(vk: &VerifierKey, c: &Commitment, z: &Scalar, v: &Scalar, pi: &Proof) -> (r: bool)
    requires
        z.wf(),
        v.wf(),
    ensures
        r == accepts(vk.g@, vk.h@, vk.beta_h@, c@, z.value(), v.value(), pi@),
        g1_laws(),
        g2_laws(),
        pairing_laws(),
{
    let nv = v.neg();
    let shifted = g1_mul(&nv, &vk.g);
    let lhs_g1 = g1_add(&c.elem, &shifted);
    let lhs = pairing(&lhs_g1, &vk.h);
    let nz = z.neg();
    let rhs_g2 = g2_add(&vk.beta_h, &g2_mul(&nz, &vk.h));
    let rhs = pairing(&pi.w, &rhs_g2);
    bytes_equal(&lhs.bytes, &rhs.bytes)
}

} // verus!
