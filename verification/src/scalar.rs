//! Scalars of the secp256k1 group, held as their canonical 32-byte encoding.
//! The arithmetic is done by `p256k1`; what it returns is stated over the
//! numbers that the encodings denote.
use crate::field::{add_mod, be_bytes, be_nat, div_mod, group_order, lemma_be_bytes_of_be_nat, mul_mod, sub_mod};
use vstd::prelude::*;

verus! {

/// `p256k1::scalar::Scalar::from(u32)`, then `to_bytes`: the canonical
/// encoding of a small number, which `p256k1` takes over as it is.
#[verifier::external_body]
fn encode_u32(i: u32) -> (r: [u8; 32])
    ensures
        be_nat(r@) == i,
{
    p256k1::scalar::Scalar::from(i).to_bytes()
}

/// `num_traits::One::one` of `p256k1::scalar::Scalar`: the encoding of one.
#[verifier::external_body]
fn encode_one() -> (r: [u8; 32])
    ensures
        be_nat(r@) == 1,
{
    let one: p256k1::scalar::Scalar = num_traits::One::one();
    one.to_bytes()
}

/// `p256k1::scalar::Scalar::from([u8; 32])`, then `to_bytes`: `p256k1` reads
/// the bytes big-endian and reduces the number modulo the group order.
#[verifier::external_body]
fn reduce_bytes(bytes: &[u8; 32]) -> (r: [u8; 32])
    ensures
        be_nat(r@) == be_nat(bytes@) % group_order(),
{
    p256k1::scalar::Scalar::from(*bytes).to_bytes()
}

/// `Add` of `p256k1::scalar::Scalar`: addition modulo the group order.
#[verifier::external_body]
fn add_bytes(a: &[u8; 32], b: &[u8; 32]) -> (r: [u8; 32])
    requires
        be_nat(a@) < group_order(),
        be_nat(b@) < group_order(),
    ensures
        be_nat(r@) == add_mod(be_nat(a@), be_nat(b@)),
{
    (p256k1::scalar::Scalar::from(*a) + p256k1::scalar::Scalar::from(*b)).to_bytes()
}

/// `Sub` of `p256k1::scalar::Scalar`: `p256k1` adds the negation of the
/// second operand, modulo the group order.
#[verifier::external_body]
fn sub_bytes(a: &[u8; 32], b: &[u8; 32]) -> (r: [u8; 32])
    requires
        be_nat(a@) < group_order(),
        be_nat(b@) < group_order(),
    ensures
        be_nat(r@) == sub_mod(be_nat(a@), be_nat(b@)),
{
    (p256k1::scalar::Scalar::from(*a) - p256k1::scalar::Scalar::from(*b)).to_bytes()
}

/// `Mul` of `p256k1::scalar::Scalar`: multiplication modulo the group order.
#[verifier::external_body]
fn mul_bytes(a: &[u8; 32], b: &[u8; 32]) -> (r: [u8; 32])
    requires
        be_nat(a@) < group_order(),
        be_nat(b@) < group_order(),
    ensures
        be_nat(r@) == mul_mod(be_nat(a@), be_nat(b@)),
{
    (p256k1::scalar::Scalar::from(*a) * p256k1::scalar::Scalar::from(*b)).to_bytes()
}

/// `Div` of `p256k1::scalar::Scalar`: `p256k1` multiplies the first operand
/// by the modular inverse of the second. The group order is prime, so every
/// divisor but zero has an inverse; the inverse of zero comes out as zero.
#[verifier::external_body]
fn div_bytes(a: &[u8; 32], b: &[u8; 32]) -> (r: [u8; 32])
    requires
        be_nat(a@) < group_order(),
        be_nat(b@) < group_order(),
    ensures
        be_nat(r@) == div_mod(be_nat(a@), be_nat(b@)),
{
    (p256k1::scalar::Scalar::from(*a) / p256k1::scalar::Scalar::from(*b)).to_bytes()
}

/// An element of the scalar field.
#[derive(Clone, Copy, Debug, PartialEq, Eq)]
pub struct Scalar {
    bytes: [u8; 32],
}

impl View for Scalar {
    type V = nat;

    /// The number that the scalar stands for.
    closed spec fn view(&self) -> nat {
        be_nat(self.bytes@)
    }
}

impl Scalar {
    #[verifier::type_invariant]
    spec fn canonical(self) -> bool {
        be_nat(self.bytes@) < group_order()
    }

    /// The scalar that a number below 2^32 denotes.
    pub fn from_u32(i: u32) -> (r: Scalar)
        ensures
            r@ == i,
    {
        Scalar { bytes: encode_u32(i) }
    }

    /// The multiplicative identity.
    pub fn one() -> (r: Scalar)
        ensures
            r@ == 1,
    {
        Scalar { bytes: encode_one() }
    }

    /// The scalar that 32 big-endian bytes denote, reduced modulo the group
    /// order.
    pub fn from_bytes(bytes: &[u8; 32]) -> (r: Scalar)
        ensures
            r@ == be_nat(bytes@) % group_order(),
    {
        Scalar { bytes: reduce_bytes(bytes) }
    }

    /// The canonical 32-byte big-endian encoding.
    pub fn to_bytes(&self) -> (r: [u8; 32])
        ensures
            r@ == be_bytes(self@, 32),
            be_nat(r@) == self@,
            self@ < group_order(),
    {
        proof {
            use_type_invariant(self);
            lemma_be_bytes_of_be_nat(self.bytes@);
        }
        self.bytes
    }

    /// The sum of two scalars.
    pub fn add(&self, rhs: &Scalar) -> (r: Scalar)
        ensures
            r@ == add_mod(self@, rhs@),
    {
        proof {
            use_type_invariant(self);
            use_type_invariant(rhs);
        }
        Scalar { bytes: add_bytes(&self.bytes, &rhs.bytes) }
    }

    /// The difference of two scalars.
    pub fn sub(&self, rhs: &Scalar) -> (r: Scalar)
        ensures
            r@ == sub_mod(self@, rhs@),
    {
        proof {
            use_type_invariant(self);
            use_type_invariant(rhs);
        }
        Scalar { bytes: sub_bytes(&self.bytes, &rhs.bytes) }
    }

    /// The product of two scalars.
    pub fn mul(&self, rhs: &Scalar) -> (r: Scalar)
        ensures
            r@ == mul_mod(self@, rhs@),
    {
        proof {
            use_type_invariant(self);
            use_type_invariant(rhs);
        }
        Scalar { bytes: mul_bytes(&self.bytes, &rhs.bytes) }
    }

    /// The quotient of two scalars; zero where the divisor is zero.
    pub fn div(&self, rhs: &Scalar) -> (r: Scalar)
        ensures
            r@ == div_mod(self@, rhs@),
    {
        proof {
            use_type_invariant(self);
            use_type_invariant(rhs);
        }
        Scalar { bytes: div_bytes(&self.bytes, &rhs.bytes) }
    }
}

} // verus!
