//! Arithmetic of the secp256k1 scalar field, as mathematical functions on
//! natural numbers, and the big-endian reading of byte strings.
use vstd::prelude::*;

verus! {

/// The order of the secp256k1 group, which is the modulus of its scalar field.
pub open spec fn group_order() -> nat {
    0xFFFFFFFFFFFFFFFFFFFFFFFFFFFFFFFEBAAEDCE6AF48A03BBFD25E8CD0364141nat
}

/// The sum of two scalars.
pub open spec fn add_mod(a: nat, b: nat) -> nat {
    (a + b) % group_order()
}

/// The difference of two scalars.
pub open spec fn sub_mod(a: nat, b: nat) -> nat {
    ((a % group_order()) + group_order() - (b % group_order())) as nat % group_order()
}

/// The product of two scalars.
pub open spec fn mul_mod(a: nat, b: nat) -> nat {
    (a * b) % group_order()
}

/// Whether `q` is the reduced multiplicative inverse of `a`.
pub open spec fn is_inverse(a: nat, q: nat) -> bool {
    q < group_order() && (q * a) % group_order() == 1
}

/// The multiplicative inverse of `a`, and zero where `a` has none.
pub open spec fn inv_mod(a: nat) -> nat {
    if exists|q: nat| is_inverse(a, q) {
        choose|q: nat| is_inverse(a, q)
    } else {
        0
    }
}

/// The quotient of two scalars: `a` times the inverse of `b`.
pub open spec fn div_mod(a: nat, b: nat) -> nat {
    mul_mod(a, inv_mod(b))
}

/// The `k`-th power of `x`.
pub open spec fn pow_mod(x: nat, k: nat) -> nat
    decreases k,
{
    if k == 0 {
        1
    } else {
        mul_mod(pow_mod(x, (k - 1) as nat), x)
    }
}

/// The number that a byte string denotes when read big-endian.
pub open spec fn be_nat(bytes: Seq<u8>) -> nat
    decreases bytes.len(),
{
    if bytes.len() == 0 {
        0
    } else {
        be_nat(bytes.drop_last()) * 256 + bytes.last() as nat
    }
}

/// The big-endian encoding of `v` in `len` bytes (of `v` modulo `256^len`).
pub open spec fn be_bytes(v: nat, len: nat) -> Seq<u8>
    decreases len,
{
    if len == 0 {
        Seq::empty()
    } else {
        be_bytes(v / 256, (len - 1) as nat).push((v % 256) as u8)
    }
}

/// Reading what `be_bytes` wrote gives back every byte string.
pub proof fn lemma_be_bytes_of_be_nat(bytes: Seq<u8>)
    ensures
        be_bytes(be_nat(bytes), bytes.len()) == bytes,
    decreases bytes.len(),
{
    if bytes.len() > 0 {
        let head = bytes.drop_last();
        lemma_be_bytes_of_be_nat(head);
        let v = be_nat(bytes);
        assert(v / 256 == be_nat(head));
        assert(v % 256 == bytes.last() as nat);
        assert(be_bytes(v, bytes.len()) =~= bytes);
    } else {
        assert(be_bytes(be_nat(bytes), 0) =~= bytes);
    }
}

} // verus!
