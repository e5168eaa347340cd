//! The two pairing groups of BLS12-381, behind a trusted boundary.
//!
//! A group element is carried as its canonical compressed encoding, so that
//! two byte strings are equal exactly when the group elements are.  The group
//! operations are done by the arkworks curve implementation through trusted
//! wrappers; what each operation returns is given a name (`g1_add_of`,
//! `g1_mul_of`, ...), and the wrappers' contracts state the algebraic laws of
//! the groups and of the pairing over those names.  Inside a wrapper a byte
//! string that is not a valid encoding decodes to the identity element, which
//! keeps every operation total and deterministic.

use vstd::prelude::*;
use crate::field::{modulus, Scalar};
use ark_ec::{AffineCurve, PairingEngine, ProjectiveCurve};
use ark_ff::{PrimeField, Zero};
use ark_serialize::{CanonicalDeserialize, CanonicalSerialize};

verus! {

/// An element of the first pairing group, as its canonical encoding.
#[derive(Debug)]
pub struct G1Elem {
    pub bytes: Vec<u8>,
}

/// An element of the second pairing group, as its canonical encoding.
#[derive(Debug)]
pub struct G2Elem {
    pub bytes: Vec<u8>,
}

/// An element of the pairing's target group, as its canonical encoding.
#[derive(Debug)]
pub struct GtElem {
    pub bytes: Vec<u8>,
}

impl View for G1Elem {
    type V = Seq<u8>;

    open spec fn view(&self) -> Seq<u8> {
        self.bytes@
    }
}

impl View for G2Elem {
    type V = Seq<u8>;

    open spec fn view(&self) -> Seq<u8> {
        self.bytes@
    }
}

impl View for GtElem {
    type V = Seq<u8>;

    open spec fn view(&self) -> Seq<u8> {
        self.bytes@
    }
}

/// What the sum of two first-group elements encodes to.
pub uninterp spec fn g1_add_of(a: Seq<u8>, b: Seq<u8>) -> Seq<u8>;

/// What the scalar multiple of a first-group element encodes to.
pub uninterp spec fn g1_mul_of(s: nat, p: Seq<u8>) -> Seq<u8>;

/// What the sum of two second-group elements encodes to.
pub uninterp spec fn g2_add_of(a: Seq<u8>, b: Seq<u8>) -> Seq<u8>;

/// What the scalar multiple of a second-group element encodes to.
pub uninterp spec fn g2_mul_of(s: nat, p: Seq<u8>) -> Seq<u8>;

/// What the pairing of a first- and a second-group element encodes to.
pub uninterp spec fn pairing_of(a: Seq<u8>, b: Seq<u8>) -> Seq<u8>;

/// What the power of a target-group element encodes to.
pub uninterp spec fn gt_pow_of(s: nat, x: Seq<u8>) -> Seq<u8>;

/// Laws of the first group: it is an abelian group of order `modulus()` and
/// scalar multiplication is iterated addition, so multiples of one base
/// combine additively, nest multiplicatively, and depend on the scalar only
/// modulo the group order.
pub open spec fn g1_laws() -> bool {
    &&& forall|s: nat, t: nat, x: Seq<u8>|
        #[trigger] g1_mul_of(s, g1_mul_of(t, x)) == g1_mul_of((s * t) % modulus(), x)
    &&& forall|s: nat, t: nat, x: Seq<u8>|
        #[trigger] g1_add_of(g1_mul_of(s, x), g1_mul_of(t, x))
            == g1_mul_of((s + t) % modulus(), x)
    &&& forall|s: nat, x: Seq<u8>| #[trigger] g1_mul_of(s % modulus(), x) == g1_mul_of(s, x)
}

/// The same laws for the second group.
pub open spec fn g2_laws() -> bool {
    &&& forall|s: nat, t: nat, x: Seq<u8>|
        #[trigger] g2_add_of(g2_mul_of(s, x), g2_mul_of(t, x))
            == g2_mul_of((s + t) % modulus(), x)
    &&& forall|s: nat, x: Seq<u8>| #[trigger] g2_mul_of(s % modulus(), x) == g2_mul_of(s, x)
}

/// The first group's laws, attached to the encoding an operation returned:
/// the laws hold of the group as such, whatever the element.
pub open spec fn g1_laws_hold(r: Seq<u8>) -> bool {
    g1_laws()
}

/// The second group's laws, attached to a returned encoding.
pub open spec fn g2_laws_hold(r: Seq<u8>) -> bool {
    g2_laws()
}

/// Bilinearity of the pairing: a scalar on either side becomes a power of
/// the paired value in the target group, whose own powers nest
/// multiplicatively and depend on the exponent only modulo the group order.
pub open spec fn pairing_laws() -> bool {
    &&& forall|s: nat, x: Seq<u8>, y: Seq<u8>|
        #[trigger] pairing_of(g1_mul_of(s, x), y)
            == gt_pow_of(s % modulus(), pairing_of(x, y))
    &&& forall|s: nat, x: Seq<u8>, y: Seq<u8>|
        #[trigger] pairing_of(x, g2_mul_of(s, y))
            == gt_pow_of(s % modulus(), pairing_of(x, y))
    &&& forall|s: nat, t: nat, x: Seq<u8>|
        #[trigger] gt_pow_of(s, gt_pow_of(t, x)) == gt_pow_of((s * t) % modulus(), x)
    &&& forall|s: nat, x: Seq<u8>| #[trigger] gt_pow_of(s % modulus(), x) == gt_pow_of(s, x)
}

/// The pairing's laws and both groups' laws, attached to a returned
/// target-group encoding.
pub open spec fn gt_laws_hold(r: Seq<u8>) -> bool {
    pairing_laws() && g1_laws() && g2_laws()
}

/// Relies on `ark_ec::ProjectiveCurve::prime_subgroup_generator` for the
/// BLS12-381 first group; its compressed encoding is 48 bytes.
#[verifier::external_body]
pub(crate) fn g1_generator() -> (r: G1Elem)
    ensures
        r@.len() == 48,
        g1_laws_hold(r@),
{
    let g = ark_bls12_381::G1Projective::prime_subgroup_generator();
    let mut out: Vec<u8> = Vec::new();
    g.into_affine().serialize(&mut out).unwrap();
    G1Elem { bytes: out }
}

/// Relies on `ark_ec::ProjectiveCurve::prime_subgroup_generator` for the
/// BLS12-381 second group; its compressed encoding is 96 bytes.
#[verifier::external_body]
pub(crate) fn g2_generator() -> (r: G2Elem)
    ensures
        r@.len() == 96,
        g2_laws_hold(r@),
{
    let g = ark_bls12_381::G2Projective::prime_subgroup_generator();
    let mut out: Vec<u8> = Vec::new();
    g.into_affine().serialize(&mut out).unwrap();
    G2Elem { bytes: out }
}

/// Relies on the group addition of `ark_bls12_381::G1Projective`.
#[verifier::external_body]
pub(crate) fn g1_add(a: &G1Elem, b: &G1Elem) -> (r: G1Elem)
    ensures
        r@ == g1_add_of(a@, b@),
        g1_laws_hold(r@),
{
    let pa = ark_bls12_381::G1Affine::deserialize(&a.bytes[..])
        .unwrap_or_else(|_| ark_bls12_381::G1Affine::zero()).into_projective();
    let pb = ark_bls12_381::G1Affine::deserialize(&b.bytes[..])
        .unwrap_or_else(|_| ark_bls12_381::G1Affine::zero()).into_projective();
    let mut out: Vec<u8> = Vec::new();
    (pa + pb).into_affine().serialize(&mut out).unwrap();
    G1Elem { bytes: out }
}

/// Relies on `ark_ec::ProjectiveCurve::mul`: scalar multiplication in the
/// first group by the field element the scalar encodes.
#[verifier::external_body]
pub(crate) fn g1_mul(s: &Scalar, p: &G1Elem) -> (r: G1Elem)
    requires
        s.wf(),
    ensures
        r@ == g1_mul_of(s.value(), p@),
        g1_laws_hold(r@),
{
    let f = ark_bls12_381::Fr::from_le_bytes_mod_order(s.bytes.as_slice());
    let pp = ark_bls12_381::G1Affine::deserialize(&p.bytes[..])
        .unwrap_or_else(|_| ark_bls12_381::G1Affine::zero()).into_projective();
    let mut out: Vec<u8> = Vec::new();
    pp.mul(f.into_repr()).into_affine().serialize(&mut out).unwrap();
    G1Elem { bytes: out }
}

/// Relies on the zero element of `ark_bls12_381::G1Projective`: the group
/// identity, which is the zero-fold multiple of every element.
#[verifier::external_body]
pub(crate) fn g1_identity() -> (r: G1Elem)
    ensures
        forall|x: Seq<u8>| #[trigger] g1_mul_of(0, x) == r@,
        g1_laws_hold(r@),
{
    let z = ark_bls12_381::G1Projective::zero();
    let mut out: Vec<u8> = Vec::new();
    z.into_affine().serialize(&mut out).unwrap();
    G1Elem { bytes: out }
}

/// Relies on the group addition of `ark_bls12_381::G2Projective`.
#[verifier::external_body]
pub(crate) fn g2_add(a: &G2Elem, b: &G2Elem) -> (r: G2Elem)
    ensures
        r@ == g2_add_of(a@, b@),
        g2_laws_hold(r@),
{
    let pa = ark_bls12_381::G2Affine::deserialize(&a.bytes[..])
        .unwrap_or_else(|_| ark_bls12_381::G2Affine::zero()).into_projective();
    let pb = ark_bls12_381::G2Affine::deserialize(&b.bytes[..])
        .unwrap_or_else(|_| ark_bls12_381::G2Affine::zero()).into_projective();
    let mut out: Vec<u8> = Vec::new();
    (pa + pb).into_affine().serialize(&mut out).unwrap();
    G2Elem { bytes: out }
}

/// Relies on `ark_ec::ProjectiveCurve::mul`: scalar multiplication in the
/// second group by the field element the scalar encodes.
#[verifier::external_body]
pub(crate) fn g2_mul(s: &Scalar, p: &G2Elem) -> (r: G2Elem)
    requires
        s.wf(),
    ensures
        r@ == g2_mul_of(s.value(), p@),
        g2_laws_hold(r@),
{
    let f = ark_bls12_381::Fr::from_le_bytes_mod_order(s.bytes.as_slice());
    let pp = ark_bls12_381::G2Affine::deserialize(&p.bytes[..])
        .unwrap_or_else(|_| ark_bls12_381::G2Affine::zero()).into_projective();
    let mut out: Vec<u8> = Vec::new();
    pp.mul(f.into_repr()).into_affine().serialize(&mut out).unwrap();
    G2Elem { bytes: out }
}

/// Relies on `ark_ec::PairingEngine::pairing` for BLS12-381: the bilinear,
/// deterministic pairing into the target group, whose elements have order
/// dividing `modulus()`, so the `modulus()`-th power is the zeroth.
#[verifier::external_body]
pub(crate) fn pairing(a: &G1Elem, b: &G2Elem) -> (r: GtElem)
    ensures
        r@ == pairing_of(a@, b@),
        gt_pow_of(modulus(), r@) == gt_pow_of(0, r@),
        gt_laws_hold(r@),
{
    let pa = ark_bls12_381::G1Affine::deserialize(&a.bytes[..])
        .unwrap_or_else(|_| ark_bls12_381::G1Affine::zero());
    let pb = ark_bls12_381::G2Affine::deserialize(&b.bytes[..])
        .unwrap_or_else(|_| ark_bls12_381::G2Affine::zero());
    let e = ark_bls12_381::Bls12_381::pairing(pa, pb);
    let mut out: Vec<u8> = Vec::new();
    e.serialize(&mut out).unwrap();
    GtElem { bytes: out }
}

/// A fresh copy of a byte vector.
pub(crate) fn copy_bytes(v: &Vec<u8>) -> (r: Vec<u8>)
    ensures
        r@ == v@,
{
    let mut out: Vec<u8> = Vec::new();
    let mut i: usize = 0;
    while i < v.len()
        invariant
            i <= v@.len(),
            out@ =~= v@.subrange(0, i as int),
        decreases v@.len() - i,
    {
        out.push(v[i]);
        i = i + 1;
    }
    proof {
        assert(out@ =~= v@);
    }
    out
}

/// Whether two byte vectors hold the same bytes.
pub(crate) fn bytes_equal(a: &Vec<u8>, b: &Vec<u8>) -> (r: bool)
    ensures
        r == (a@ == b@),
{
    if a.len() != b.len() {
        return false;
    }
    let mut i: usize = 0;
    while i < a.len()
        invariant
            a@.len() == b@.len(),
            i <= a@.len(),
            forall|j: int| 0 <= j < i ==> a@[j] == b@[j],
        decreases a@.len() - i,
    {
        if a[i] != b[i] {
            return false;
        }
        i = i + 1;
    }
    proof {
        assert(a@ =~= b@);
    }
    true
}

impl G1Elem {
    /// A fresh element with the same encoding.
    pub fn dup(&self) -> (r: G1Elem)
        ensures
            r@ == self@,
    {
        G1Elem { bytes: copy_bytes(&self.bytes) }
    }
}

impl G2Elem {
    /// A fresh element with the same encoding.
    pub fn dup(&self) -> (r: G2Elem)
        ensures
            r@ == self@,
    {
        G2Elem { bytes: copy_bytes(&self.bytes) }
    }
}

} // verus!
