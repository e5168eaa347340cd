use kzg::errors::KzgError;
use kzg::field::Scalar;
use kzg::interp::interpolate;
use kzg::kzg::{commit, open, verify, Srs};
use kzg::poly::Polynomial;

fn s(n: u64) -> Scalar {
    Scalar::from_u64(n)
}

fn neg(n: u64) -> Scalar {
    Scalar::from_u64(n).neg()
}

fn poly(coeffs: Vec<Scalar>) -> Polynomial {
    Polynomial::from_coefficients(coeffs)
}

#[test]
fn field_arithmetic_basics() {
    assert!(s(2).add(&s(3)).equals(&s(5)));
    assert!(s(6).mul(&s(7)).equals(&s(42)));
    assert!(s(5).sub(&s(9)).equals(&neg(4)));
    assert!(s(0).is_zero());
    assert!(!s(1).is_zero());
    let seven = s(7);
    assert!(seven.inverse().mul(&seven).equals(&s(1)));
}

#[test]
fn evaluate_horner_exact() {
    // 1 + 2X + 3X^2 at X = 2 is 17.
    let p = poly(vec![s(1), s(2), s(3)]);
    assert!(p.evaluate(&s(2)).equals(&s(17)));
}

#[test]
fn zero_polynomial_normalizes() {
    let p = poly(vec![s(0), s(0)]);
    assert_eq!(p.coeffs.len(), 0);
    assert_eq!(p.degree(), None);
    let q = poly(vec![s(5), s(6)]);
    assert_eq!(q.degree(), Some(1));
}

#[test]
fn synthetic_division_exact() {
    // (X-1)(X-2)(X-3) = -6 + 11X - 6X^2 + X^3; dividing by X-1 gives
    // 6 - 5X + X^2 with remainder zero.
    let p = poly(vec![neg(6), s(11), neg(6), s(1)]);
    let (q, rem) = p.divide_by_linear(&s(1));
    assert!(rem.is_zero());
    assert_eq!(q.coeffs.len(), 3);
    assert!(q.coeffs[0].equals(&s(6)));
    assert!(q.coeffs[1].equals(&neg(5)));
    assert!(q.coeffs[2].equals(&s(1)));
    // Dividing at a non-root leaves the evaluation as remainder.
    let (_, rem4) = p.divide_by_linear(&s(4));
    assert!(rem4.equals(&s(6)));
}

#[test]
fn interpolate_concrete_polynomial() {
    // (1,35), (2,92), (3,111) interpolate to -60 + 114X - 19X^2.
    let points = vec![(s(1), s(35)), (s(2), s(92)), (s(3), s(111))];
    let p = interpolate(&points).unwrap();
    assert_eq!(p.coeffs.len(), 3);
    assert!(p.coeffs[0].equals(&neg(60)));
    assert!(p.coeffs[1].equals(&s(114)));
    assert!(p.coeffs[2].equals(&neg(19)));
    assert!(p.evaluate(&s(2)).equals(&s(92)));
}

#[test]
fn interpolation_round_trip() {
    let points = vec![(s(0), s(7)), (s(1), s(1)), (s(5), s(3)), (s(9), s(8))];
    let p = interpolate(&points).unwrap();
    for (x, y) in &points {
        assert!(p.evaluate(x).equals(y));
    }
}

#[test]
fn duplicate_abscissa_rejected() {
    let contradictory = vec![(s(1), s(2)), (s(1), s(3))];
    assert_eq!(interpolate(&contradictory).unwrap_err(), KzgError::DuplicateAbscissa);
    // A redundant duplicate must fail too.
    let redundant = vec![(s(4), s(2)), (s(4), s(2))];
    assert_eq!(interpolate(&redundant).unwrap_err(), KzgError::DuplicateAbscissa);
}

#[test]
fn commit_degree_boundary() {
    let srs = Srs::setup(3);
    assert_eq!(srs.powers.len(), 4);
    assert_eq!(srs.committer_key(4).unwrap_err(), KzgError::InvalidDegree);
    let ck = srs.committer_key(3).unwrap();
    let exact = poly(vec![s(1), s(2), s(3), s(4)]);
    assert!(commit(&ck, &exact).is_ok());
    let too_big = poly(vec![s(1), s(2), s(3), s(4), s(5)]);
    assert_eq!(commit(&ck, &too_big).unwrap_err(), KzgError::InvalidDegree);
}

#[test]
fn commitment_is_deterministic() {
    let srs = Srs::setup(4);
    let ck = srs.committer_key(4).unwrap();
    let p = poly(vec![neg(60), s(114), neg(19)]);
    let c1 = commit(&ck, &p).unwrap();
    let c2 = commit(&ck, &p).unwrap();
    assert_eq!(c1.elem.bytes, c2.elem.bytes);
    let q = poly(vec![s(1), s(114), neg(19)]);
    let c3 = commit(&ck, &q).unwrap();
    assert_ne!(c1.elem.bytes, c3.elem.bytes);
}

#[test]
fn commitment_homomorphism() {
    // Commit(3·p + 5·q) equals 3·Commit(p) + 5·Commit(q).
    let srs = Srs::setup(5);
    let ck = srs.committer_key(5).unwrap();
    let p = poly(vec![s(2), s(0), s(9), s(4)]);
    let q = poly(vec![s(11), s(3), s(1)]);
    let (a, b) = (s(3), s(5));
    let combo = p.scale(&a).add(&q.scale(&b));
    let lhs = commit(&ck, &combo).unwrap();
    let rhs = commit(&ck, &p).unwrap().scale(&a).add(&commit(&ck, &q).unwrap().scale(&b));
    assert_eq!(lhs.elem.bytes, rhs.elem.bytes);
}

#[test]
fn open_and_verify_accepts() {
    let srs = Srs::setup(4);
    let ck = srs.committer_key(4).unwrap();
    let vk = srs.verifier_key();
    let p = poly(vec![neg(60), s(114), neg(19)]);
    let c = commit(&ck, &p).unwrap();
    let z = s(2);
    let (value, proof) = open(&ck, &p, &z).unwrap();
    assert!(value.equals(&s(92)));
    assert!(verify(&vk, &c, &z, &value, &proof));
}

#[test]
fn interpolated_commitment_verifies() {
    let points = vec![(s(1), s(35)), (s(2), s(92)), (s(3), s(111))];
    let p = interpolate(&points).unwrap();
    let srs = Srs::setup(2);
    let ck = srs.committer_key(2).unwrap();
    let vk = srs.verifier_key();
    let c = commit(&ck, &p).unwrap();
    let (value, proof) = open(&ck, &p, &s(2)).unwrap();
    assert!(value.equals(&s(92)));
    assert!(verify(&vk, &c, &s(2), &value, &proof));
}

#[test]
fn verify_rejects_any_mutation() {
    let srs = Srs::setup(4);
    let ck = srs.committer_key(4).unwrap();
    let vk = srs.verifier_key();
    let p = poly(vec![neg(60), s(114), neg(19)]);
    let c = commit(&ck, &p).unwrap();
    let z = s(2);
    let (value, proof) = open(&ck, &p, &z).unwrap();
    assert!(verify(&vk, &c, &z, &value, &proof));
    // Wrong claimed value.
    assert!(!verify(&vk, &c, &z, &s(93), &proof));
    // Wrong point.
    assert!(!verify(&vk, &c, &s(3), &value, &proof));
    // Wrong commitment.
    let other = commit(&ck, &poly(vec![s(1), s(2)])).unwrap();
    assert!(!verify(&vk, &other, &z, &value, &proof));
    // Wrong proof: one opened at a different point.
    let (_, wrong_proof) = open(&ck, &p, &s(7)).unwrap();
    assert!(!verify(&vk, &c, &z, &value, &wrong_proof));
}

#[test]
fn constant_polynomial_opens_with_identity_witness() {
    let srs = Srs::setup(4);
    let ck = srs.committer_key(4).unwrap();
    let vk = srs.verifier_key();
    let p = poly(vec![s(7)]);
    let c = commit(&ck, &p).unwrap();
    let z = s(5);
    let (value, proof) = open(&ck, &p, &z).unwrap();
    assert!(value.equals(&s(7)));
    // The witness commitment is the commitment to the zero polynomial: the
    // group identity.
    let identity = commit(&ck, &Polynomial::zero()).unwrap();
    assert_eq!(proof.w.bytes, identity.elem.bytes);
    assert!(verify(&vk, &c, &z, &value, &proof));
}

#[test]
fn srs_holds_no_trapdoor_field() {
    // The reference string consists of group elements only: the powers and
    // the two second-group elements, nothing scalar-sized that could retain
    // the trapdoor.
    let srs = Srs::setup(2);
    let Srs { powers, h, beta_h } = srs;
    assert_eq!(powers.len(), 3);
    for p in &powers {
        assert_eq!(p.bytes.len(), 48);
    }
    assert_eq!(h.bytes.len(), 96);
    assert_eq!(beta_h.bytes.len(), 96);
}
