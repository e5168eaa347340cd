//! Scalar-field arithmetic for the BLS12-381 scalar field.
//!
//! A `Scalar` holds the canonical 32-byte little-endian encoding of a field
//! element; its mathematical value is the encoded integer, always below the
//! field order.  The arithmetic itself is done by the `ark_ff` implementation
//! of the field through trusted wrappers whose contracts state the result as
//! integer arithmetic modulo the field order.

use vstd::prelude::*;
use vstd::arithmetic::div_mod::{
    lemma_add_mod_noop, lemma_add_mod_noop_right, lemma_mul_mod_noop_general,
    lemma_small_mod, lemma_mod_self_0, lemma_mod_multiples_vanish,
    lemma_mod_division_less_than_divisor, lemma_fundamental_div_mod_converse,
    lemma_fundamental_div_mod,
};
use vstd::arithmetic::mul::{lemma_mul_is_associative, lemma_mul_is_distributive_add};
use ark_ff::{BigInteger, Field, PrimeField, UniformRand};

verus! {

/// The order of the BLS12-381 scalar field, a prime.
pub open spec fn modulus() -> nat {
    0x73eda753299d7d483339d80809a1d80553bda402fffe5bfeffffffff00000001nat
}

/// Field addition: integer addition modulo the field order.
pub open spec fn fadd(a: nat, b: nat) -> nat {
    (a + b) % modulus()
}

/// Field multiplication: integer multiplication modulo the field order.
pub open spec fn fmul(a: nat, b: nat) -> nat {
    (a * b) % modulus()
}

/// Field negation.
pub open spec fn fneg(a: nat) -> nat {
    ((modulus() - a % modulus()) as nat) % modulus()
}

/// Field subtraction, written as addition of the negated subtrahend.
pub open spec fn fsub(a: nat, b: nat) -> nat {
    fadd(a, fneg(b))
}

/// The integer encoded by a little-endian byte string.
pub open spec fn le_nat(s: Seq<u8>) -> nat
    decreases s.len(),
{
    if s.len() == 0 {
        0
    } else {
        s[0] as nat + 256 * le_nat(s.drop_first())
    }
}

/// An element of the scalar field, as its canonical little-endian encoding.
#[derive(Debug)]
pub struct Scalar {
    pub bytes: Vec<u8>,
}

impl Scalar {
    /// The integer value of this element.
    pub open spec fn value(&self) -> nat {
        le_nat(self.bytes@)
    }

    /// The encoding is canonical: 32 bytes, value below the field order.
    pub open spec fn wf(&self) -> bool {
        self.bytes@.len() == 32 && self.value() < modulus()
    }
}

pub proof fn lemma_modulus_pos()
    ensures
        modulus() > 1,
{
}

pub proof fn lemma_fadd_bound(a: nat, b: nat)
    ensures
        fadd(a, b) < modulus(),
{
    lemma_mod_division_less_than_divisor((a + b) as int, modulus() as int);
}

pub proof fn lemma_fmul_bound(a: nat, b: nat)
    ensures
        fmul(a, b) < modulus(),
{
    lemma_mod_division_less_than_divisor((a * b) as int, modulus() as int);
}

pub proof fn lemma_fneg_bound(a: nat)
    ensures
        fneg(a) < modulus(),
{
    lemma_mod_division_less_than_divisor((modulus() - a % modulus()) as int, modulus() as int);
}

/// Reducing either addend modulo the order does not change a field sum.
pub proof fn lemma_fadd_mod(a: nat, b: nat)
    ensures
        fadd(a % modulus(), b) == fadd(a, b),
        fadd(a, b % modulus()) == fadd(a, b),
{
    let m = modulus() as int;
    lemma_add_mod_noop_right(b as int, a as int, m);
    lemma_add_mod_noop_right(a as int, b as int, m);
}

/// Reducing either factor modulo the order does not change a field product.
pub proof fn lemma_fmul_mod(a: nat, b: nat)
    ensures
        fmul(a % modulus(), b) == fmul(a, b),
        fmul(a, b % modulus()) == fmul(a, b),
{
    let m = modulus() as int;
    lemma_mul_mod_noop_general(a as int, b as int, m);
}

pub proof fn lemma_fadd_assoc(a: nat, b: nat, c: nat)
    ensures
        fadd(fadd(a, b), c) == fadd(a, fadd(b, c)),
        fadd(fadd(a, b), c) == (a + b + c) % modulus(),
{
    let m = modulus() as int;
    lemma_add_mod_noop_right(c as int, (a + b) as int, m);
    lemma_add_mod_noop_right(a as int, (b + c) as int, m);
}

pub proof fn lemma_fmul_assoc(a: nat, b: nat, c: nat)
    ensures
        fmul(fmul(a, b), c) == fmul(a, fmul(b, c)),
{
    let m = modulus() as int;
    lemma_mul_mod_noop_general((a * b) as int, c as int, m);
    lemma_mul_mod_noop_general(a as int, (b * c) as int, m);
    lemma_mul_is_associative(a as int, b as int, c as int);
}

pub proof fn lemma_fmul_comm(a: nat, b: nat)
    ensures
        fmul(a, b) == fmul(b, a),
{
    vstd::arithmetic::mul::lemma_mul_is_commutative(a as int, b as int);
}

/// Field multiplication distributes over field addition.
pub proof fn lemma_fmul_distrib(a: nat, b: nat, c: nat)
    ensures
        fmul(a, fadd(b, c)) == fadd(fmul(a, b), fmul(a, c)),
{
    let m = modulus() as int;
    lemma_mul_mod_noop_general(a as int, (b + c) as int, m);
    lemma_mul_is_distributive_add(a as int, b as int, c as int);
    lemma_add_mod_noop((a * b) as int, (a * c) as int, m);
}

pub proof fn lemma_fmul_zero(a: nat)
    ensures
        fmul(0, a) == 0,
        fmul(a, 0) == 0,
{
    lemma_small_mod(0, modulus());
}

/// Flattened form of a three-term field sum.
pub proof fn lemma_fadd3(a: nat, b: nat, c: nat)
    ensures
        fadd(fadd(a, b), c) == (a + b + c) % modulus(),
        fadd(a, fadd(b, c)) == (a + b + c) % modulus(),
{
    let m = modulus() as int;
    lemma_add_mod_noop_right(c as int, (a + b) as int, m);
    lemma_add_mod_noop_right(a as int, (b + c) as int, m);
}

/// Flattened form of a four-term field sum of two pairs.
pub proof fn lemma_fadd4(a: nat, b: nat, c: nat, d: nat)
    ensures
        fadd(fadd(a, b), fadd(c, d)) == (a + b + c + d) % modulus(),
{
    let m = modulus() as int;
    lemma_add_mod_noop((a + b) as int, (c + d) as int, m);
}

/// Zero is the additive identity on reduced values.
pub proof fn lemma_fadd_zero(a: nat)
    requires
        a < modulus(),
    ensures
        fadd(0, a) == a,
        fadd(a, 0) == a,
{
    lemma_small_mod(a, modulus());
}

/// Subtracting and adding back a value reduces the other operand.
pub proof fn lemma_fsub_add(a: nat, b: nat)
    ensures
        fadd(fsub(a, b), b) == a % modulus(),
{
    let m = modulus();
    let mi = m as int;
    lemma_fundamental_div_mod(b as int, mi);
    if b % m == 0 {
        lemma_mod_self_0(mi);
        lemma_add_mod_noop_right(a as int, 0, mi);
        assert(fsub(a, b) == a % m);
        lemma_mod_division_less_than_divisor(a as int, mi);
        lemma_small_mod(a % m, m);
        lemma_mod_multiples_vanish(b as int / mi, a as int, mi);
    } else {
        lemma_mod_division_less_than_divisor(b as int, mi);
        lemma_small_mod((m - b % m) as nat, m);
        assert(fneg(b) == m - b % m);
        lemma_add_mod_noop_right(b as int, (a + m - b % m) as int, mi);
        assert(fadd(fsub(a, b), b) == (a as int + m - b % m + b) % mi) by {
            lemma_add_mod_noop((a + (m - b % m)) as int, b as int, mi);
        }
        assert(a as int + m - b % m + b == mi * (1 + b as int / mi) + a);
        lemma_mod_multiples_vanish(1 + b as int / mi, a as int, mi);
    }
}

/// Exchange the outer factor with the first inner factor of a product.
pub proof fn lemma_fmul_swap(a: nat, b: nat, c: nat)
    ensures
        fmul(a, fmul(b, c)) == fmul(b, fmul(a, c)),
{
    lemma_fmul_assoc(a, b, c);
    lemma_fmul_comm(a, b);
    lemma_fmul_assoc(b, a, c);
}

/// Adding the negation of a value gives zero.
pub proof fn lemma_fneg_cancel(a: nat)
    requires
        a < modulus(),
    ensures
        fadd(a, fneg(a)) == 0,
        fadd(fneg(a), a) == 0,
{
    let m = modulus();
    lemma_small_mod(a, m);
    lemma_mod_self_0(m as int);
}

/// A field difference of reduced values is zero exactly when they are equal.
pub proof fn lemma_fsub_zero(a: nat, b: nat)
    requires
        a < modulus(),
        b < modulus(),
    ensures
        (fsub(a, b) == 0) <==> (a == b),
{
    let m = modulus();
    lemma_small_mod(b, m);
    if a == b {
        lemma_fneg_cancel(a);
    } else if a > b {
        lemma_mod_multiples_vanish(1, (a - b) as int, m as int);
        lemma_small_mod((a - b) as nat, m);
    } else {
        lemma_small_mod((a + m - b) as nat, m);
    }
}

/// The head byte and the tail value of a little-endian encoding.
pub proof fn lemma_le_nat_split(s: Seq<u8>)
    requires
        s.len() > 0,
    ensures
        le_nat(s) % 256 == s[0] as nat,
        le_nat(s) / 256 == le_nat(s.drop_first()),
{
    let r = le_nat(s.drop_first());
    lemma_fundamental_div_mod_converse(
        le_nat(s) as int, 256, r as int, s[0] as int,
    );
}

/// A little-endian encoding is zero exactly when every byte is zero.
pub proof fn lemma_le_nat_zero(s: Seq<u8>)
    ensures
        (le_nat(s) == 0) <==> (forall|i: int| 0 <= i < s.len() ==> s[i] == 0),
    decreases s.len(),
{
    if s.len() > 0 {
        let t = s.drop_first();
        lemma_le_nat_zero(t);
        if le_nat(s) == 0 {
            assert(s[0] as nat + 256 * le_nat(t) == 0);
            assert forall|i: int| 0 <= i < s.len() implies s[i] == 0 by {
                if i >= 1 {
                    assert(t[i - 1] == 0);
                }
            }
        }
        if forall|i: int| 0 <= i < s.len() ==> s[i] == 0 {
            assert forall|j: int| 0 <= j < t.len() implies t[j] == 0 by {
                assert(s[j + 1] == 0);
            }
            assert(le_nat(t) == 0);
        }
    }
}

/// Equal-length encodings of the same integer are byte-for-byte equal.
pub proof fn lemma_le_nat_injective(a: Seq<u8>, b: Seq<u8>)
    requires
        a.len() == b.len(),
        le_nat(a) == le_nat(b),
    ensures
        a == b,
    decreases a.len(),
{
    if a.len() > 0 {
        lemma_le_nat_split(a);
        lemma_le_nat_split(b);
        lemma_le_nat_injective(a.drop_first(), b.drop_first());
        assert forall|i: int| 0 <= i < a.len() implies a[i] == b[i] by {
            if i >= 1 {
                assert(a.drop_first()[i - 1] == b.drop_first()[i - 1]);
            }
        }
        assert(a =~= b);
    } else {
        assert(a =~= b);
    }
}

/// Relies on the `Add` implementation of `ark_bls12_381::Fr`: addition in the
/// prime field of order `modulus()`, with `from_le_bytes_mod_order` and
/// `into_repr().to_bytes_le()` converting between the canonical 32-byte
/// little-endian encoding and the field element.
#[verifier::external_body]
fn fr_add(a: &Scalar, b: &Scalar) -> (r: Scalar)
    requires
        a.wf(),
        b.wf(),
    ensures
        r.wf(),
        r.value() == fadd(a.value(), b.value()),
{
    let x = ark_bls12_381::Fr::from_le_bytes_mod_order(a.bytes.as_slice());
    let y = ark_bls12_381::Fr::from_le_bytes_mod_order(b.bytes.as_slice());
    Scalar { bytes: (x + y).into_repr().to_bytes_le() }
}

/// Relies on the `Mul` implementation of `ark_bls12_381::Fr`: multiplication
/// in the prime field of order `modulus()`.
#[verifier::external_body]
fn fr_mul(a: &Scalar, b: &Scalar) -> (r: Scalar)
    requires
        a.wf(),
        b.wf(),
    ensures
        r.wf(),
        r.value() == fmul(a.value(), b.value()),
{
    let x = ark_bls12_381::Fr::from_le_bytes_mod_order(a.bytes.as_slice());
    let y = ark_bls12_381::Fr::from_le_bytes_mod_order(b.bytes.as_slice());
    Scalar { bytes: (x * y).into_repr().to_bytes_le() }
}

/// Relies on the `Neg` implementation of `ark_bls12_381::Fr`: negation in the
/// prime field of order `modulus()`.
#[verifier::external_body]
fn fr_neg(a: &Scalar) -> (r: Scalar)
    requires
        a.wf(),
    ensures
        r.wf(),
        r.value() == fneg(a.value()),
{
    let x = ark_bls12_381::Fr::from_le_bytes_mod_order(a.bytes.as_slice());
    Scalar { bytes: (-x).into_repr().to_bytes_le() }
}

/// Relies on `ark_ff::Field::inverse`: for a non-zero element it returns the
/// multiplicative inverse, so the product with the argument is one.
#[verifier::external_body]
fn fr_inverse(a: &Scalar) -> (r: Scalar)
    requires
        a.wf(),
        a.value() != 0,
    ensures
        r.wf(),
        fmul(r.value(), a.value()) == 1,
{
    let x = ark_bls12_381::Fr::from_le_bytes_mod_order(a.bytes.as_slice());
    let y = x.inverse().unwrap();
    Scalar { bytes: y.into_repr().to_bytes_le() }
}

/// Relies on `From<u64> for ark_bls12_381::Fr`: the field element representing
/// the given integer, which is below the field order.
#[verifier::external_body]
fn fr_from_u64(n: u64) -> (r: Scalar)
    ensures
        r.wf(),
        r.value() == n as nat,
{
    let x = ark_bls12_381::Fr::from(n);
    Scalar { bytes: x.into_repr().to_bytes_le() }
}

/// Relies on `ark_ff::UniformRand::rand` over the operating system's entropy
/// source: some field element; nothing is assumed beyond well-formedness.
#[verifier::external_body]
fn fr_random() -> (r: Scalar)
    ensures
        r.wf(),
{
    let mut rng = rand::rngs::OsRng;
    let x = ark_bls12_381::Fr::rand(&mut rng);
    Scalar { bytes: x.into_repr().to_bytes_le() }
}

impl Scalar {
    /// The additive identity.
    pub fn zero() -> (r: Scalar)
        ensures
            r.wf(),
            r.value() == 0,
    {
        fr_from_u64(0)
    }

    /// The multiplicative identity.
    pub fn one() -> (r: Scalar)
        ensures
            r.wf(),
            r.value() == 1,
    {
        fr_from_u64(1)
    }

    /// The field element representing a small integer.
    pub fn from_u64(n: u64) -> (r: Scalar)
        ensures
            r.wf(),
            r.value() == n as nat,
    {
        fr_from_u64(n)
    }

    /// A uniformly sampled field element, from the system's entropy source.
    pub fn random() -> (r: Scalar)
        ensures
            r.wf(),
    {
        fr_random()
    }

    pub fn add(&self, other: &Scalar) -> (r: Scalar)
        requires
            self.wf(),
            other.wf(),
        ensures
            r.wf(),
            r.value() == fadd(self.value(), other.value()),
    {
        fr_add(self, other)
    }

    pub fn mul(&self, other: &Scalar) -> (r: Scalar)
        requires
            self.wf(),
            other.wf(),
        ensures
            r.wf(),
            r.value() == fmul(self.value(), other.value()),
    {
        fr_mul(self, other)
    }

    pub fn neg(&self) -> (r: Scalar)
        requires
            self.wf(),
        ensures
            r.wf(),
            r.value() == fneg(self.value()),
    {
        fr_neg(self)
    }

    pub fn sub(&self, other: &Scalar) -> (r: Scalar)
        requires
            self.wf(),
            other.wf(),
        ensures
            r.wf(),
            r.value() == fsub(self.value(), other.value()),
    {
        let n = fr_neg(other);
        fr_add(self, &n)
    }

    /// The multiplicative inverse of a non-zero element.
    pub fn inverse(&self) -> (r: Scalar)
        requires
            self.wf(),
            self.value() != 0,
        ensures
            r.wf(),
            fmul(r.value(), self.value()) == 1,
    {
        fr_inverse(self)
    }

    /// A fresh scalar with the same value.
    pub fn dup(&self) -> (r: Scalar)
        ensures
            r.bytes@ == self.bytes@,
            r.value() == self.value(),
            r.wf() <==> self.wf(),
    {
        let mut bytes: Vec<u8> = Vec::new();
        let mut i: usize = 0;
        while i < self.bytes.len()
            invariant
                i <= self.bytes@.len(),
                bytes@ =~= self.bytes@.subrange(0, i as int),
            decreases self.bytes@.len() - i,
        {
            bytes.push(self.bytes[i]);
            i = i + 1;
        }
        assert(bytes@ =~= self.bytes@);
        Scalar { bytes }
    }

    /// Whether two elements are the same field element.
    pub fn equals(&self, other: &Scalar) -> (r: bool)
        requires
            self.wf(),
            other.wf(),
        ensures
            r == (self.value() == other.value()),
    {
        let mut i: usize = 0;
        while i < 32
            invariant
                self.wf(),
                other.wf(),
                i <= 32,
                forall|j: int| 0 <= j < i ==> self.bytes@[j] == other.bytes@[j],
            decreases 32 - i,
        {
            if self.bytes[i] != other.bytes[i] {
                proof {
                    if self.value() == other.value() {
                        lemma_le_nat_injective(self.bytes@, other.bytes@);
                    }
                }
                return false;
            }
            i = i + 1;
        }
        proof {
            assert(self.bytes@ =~= other.bytes@);
        }
        true
    }

    /// Whether this element is zero.
    pub fn is_zero(&self) -> (r: bool)
        requires
            self.wf(),
        ensures
            r == (self.value() == 0),
    {
        let mut i: usize = 0;
        while i < 32
            invariant
                self.wf(),
                i <= 32,
                forall|j: int| 0 <= j < i ==> self.bytes@[j] == 0,
            decreases 32 - i,
        {
            if self.bytes[i] != 0 {
                proof {
                    lemma_le_nat_zero(self.bytes@);
                }
                return false;
            }
            i = i + 1;
        }
        proof {
            lemma_le_nat_zero(self.bytes@);
        }
        true
    }
}

} // verus!
