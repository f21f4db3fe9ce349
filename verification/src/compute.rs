//! The values that the participants and the aggregator of a signing round
//! compute: identifiers, binding factors, the challenge, Lagrange
//! coefficients, the aggregate nonce commitment and evaluations of a public
//! polynomial.
use crate::field::{be_bytes, div_mod, mul_mod, pow_mod, sub_mod};
use crate::hash::{digest_scalar, hash_to_scalar, sha256, Transcript};
use crate::laws::lemma_poly_constant;
use crate::point::{
    group_add, group_mul, group_sum, multi_mul, multi_mul_succeeds, multimult, point_encodings,
    scalar_values, Point, PointError, PublicNonce,
};
use crate::scalar::Scalar;
use vstd::prelude::*;

verus! {

/// The domain tag of the binding hash: the ASCII text `WSTS/binding`.
pub const BINDING_TAG: [u8; 12] = [87, 83, 84, 83, 47, 98, 105, 110, 100, 105, 110, 103];

/// The domain tag of the challenge hash: the ASCII text `BIP0340/challenge`.
pub const CHALLENGE_TAG: [u8; 17] = [
    66, 73, 80, 48, 51, 52, 48, 47, 99, 104, 97, 108, 108, 101, 110, 103, 101,
];

/// The bytes of the binding tag.
pub open spec fn binding_tag() -> Seq<u8> {
    BINDING_TAG@
}

/// The bytes of the challenge tag.
pub open spec fn challenge_tag() -> Seq<u8> {
    CHALLENGE_TAG@
}

/// The evaluation point of the participant with the zero-based index `i`.
pub open spec fn id_value(i: u32) -> nat {
    (i + 1) as nat
}

/// The encodings of the nonces in their order, `D` before `E`.
pub open spec fn nonce_bytes(nonces: Seq<PublicNonce>) -> Seq<u8>
    decreases nonces.len(),
{
    if nonces.len() == 0 {
        Seq::empty()
    } else {
        nonce_bytes(nonces.drop_last()) + nonces.last().D@ + nonces.last().E@
    }
}

/// The bytes that the binding hash is taken of.
pub open spec fn binding_preimage(id: nat, nonces: Seq<PublicNonce>, msg: Seq<u8>) -> Seq<u8> {
    binding_tag() + be_bytes(id, 32) + nonce_bytes(nonces) + msg
}

/// The binding factor of the participant with the evaluation point `id`.
pub open spec fn binding_value(id: nat, nonces: Seq<PublicNonce>, msg: Seq<u8>) -> nat {
    digest_scalar(binding_preimage(id, nonces, msg))
}

/// The bytes that the challenge hash is taken of: the digest of the tag
/// twice, the first coordinate of the nonce commitment, that of the public
/// key, and the message.
pub open spec fn challenge_preimage(public_key: Seq<u8>, r: Seq<u8>, msg: Seq<u8>) -> Seq<u8> {
    sha256(challenge_tag()) + sha256(challenge_tag()) + r.subrange(1, 33) + public_key.subrange(
        1,
        33,
    ) + msg
}

/// The Schnorr challenge.
pub open spec fn challenge_value(public_key: Seq<u8>, r: Seq<u8>, msg: Seq<u8>) -> nat {
    digest_scalar(challenge_preimage(public_key, r, msg))
}

/// The Lagrange coefficient at zero of the evaluation point `x` among the
/// points `nodes`: the product of `y / (y - x)` over the nodes `y` other than
/// `x`, in their order.
pub open spec fn lagrange_at_zero(x: nat, nodes: Seq<nat>) -> nat
    decreases nodes.len(),
{
    if nodes.len() == 0 {
        1
    } else {
        let rest = lagrange_at_zero(x, nodes.drop_last());
        let y = nodes.last();
        if y == x {
            rest
        } else {
            mul_mod(rest, div_mod(y, sub_mod(y, x)))
        }
    }
}

/// The evaluation points of a sequence of participants.
pub open spec fn id_values(key_ids: Seq<u32>) -> Seq<nat> {
    Seq::new(key_ids.len(), |k: int| id_value(key_ids[k]))
}

/// The Lagrange coefficient of participant `i` among `key_ids`.
pub open spec fn lambda_value(i: u32, key_ids: Seq<u32>) -> nat {
    lagrange_at_zero(id_value(i), id_values(key_ids))
}

/// The effective commitment of one participant: `D + rho * E`, with `rho` the
/// participant's binding factor over the whole nonce list.
pub open spec fn commitment(
    i: u32,
    nonce: PublicNonce,
    nonces: Seq<PublicNonce>,
    msg: Seq<u8>,
) -> Seq<u8> {
    group_add(nonce.D@, group_mul(binding_value(id_value(i), nonces, msg), nonce.E@))
}

/// The effective commitments of the participants, as far as both lists go.
pub open spec fn commitments(msg: Seq<u8>, party_ids: Seq<u32>, nonces: Seq<PublicNonce>) -> Seq<
    Seq<u8>,
> {
    Seq::new(
        if party_ids.len() <= nonces.len() {
            party_ids.len()
        } else {
            nonces.len()
        },
        |k: int| commitment(party_ids[k], nonces[k], nonces, msg),
    )
}

/// The powers `x^0, .., x^(n-1)`.
pub open spec fn powers(x: nat, n: nat) -> Seq<nat> {
    Seq::new(n, |k: int| pow_mod(x, k as nat))
}

/// Compute a one-based scalar from a zero-based integer.
pub fn id(i: u32) -> (r: Scalar)
    ensures
        r@ == id_value(i),
        r@ != 0,
{
    Scalar::from_u32(i).add(&Scalar::one())
}

/// Compute a binding value from the party id, the public nonces of all
/// parties, and the signed message.
#[allow(non_snake_case)]
pub fn binding(id: &Scalar, B: &[PublicNonce], msg: &[u8]) -> (r: Scalar)
    ensures
        r@ == binding_value(id@, B@, msg@),
{
    let mut hasher = Transcript::new();
    hasher.update(BINDING_TAG.as_slice());
    let id_bytes = id.to_bytes();
    hasher.update(id_bytes.as_slice());
    let ghost head = binding_tag() + be_bytes(id@, 32);
    assert(hasher@ =~= head);
    let mut k: usize = 0;
    while k < B.len()
        invariant
            k <= B.len(),
            hasher@ == head + nonce_bytes(B@.subrange(0, k as int)),
        decreases B.len() - k,
    {
        let d = B[k].D.compress();
        let e = B[k].E.compress();
        hasher.update(d.as_slice());
        hasher.update(e.as_slice());
        k = k + 1;
        proof {
            let upto = B@.subrange(0, k as int);
            assert(upto.drop_last() =~= B@.subrange(0, k - 1));
            assert(upto.last() == B@[k - 1]);
            assert(hasher@ =~= head + nonce_bytes(upto));
        }
    }
    assert(B@.subrange(0, B@.len() as int) =~= B@);
    hasher.update(msg);
    hash_to_scalar(&hasher)
}

/// Compute the Schnorr challenge from the public key, the aggregated
/// commitment, and the signed message.
#[allow(non_snake_case)]
pub fn challenge(publicKey: &Point, R: &Point, msg: &[u8]) -> (r: Scalar)
    ensures
        r@ == challenge_value(publicKey@, R@, msg@),
{
    let mut prefix_hasher = Transcript::new();
    prefix_hasher.update(CHALLENGE_TAG.as_slice());
    assert(prefix_hasher@ =~= challenge_tag());
    let prefix_hash = prefix_hasher.finalize();

    let mut hasher = Transcript::new();
    hasher.update(prefix_hash.as_slice());
    hasher.update(prefix_hash.as_slice());
    hasher.update(R.x_bytes());
    hasher.update(publicKey.x_bytes());
    hasher.update(msg);
    assert(hasher@ =~= challenge_preimage(publicKey@, R@, msg@));
    hash_to_scalar(&hasher)
}

/// Compute the Lagrange interpolation value of party `i` among `key_ids`.
pub fn lambda(i: u32, key_ids: &[u32]) -> (r: Scalar)
    ensures
        r@ == lambda_value(i, key_ids@),
{
    let mut lambda = Scalar::one();
    let i_scalar = id(i);
    let mut k: usize = 0;
    while k < key_ids.len()
        invariant
            k <= key_ids.len(),
            i_scalar@ == id_value(i),
            lambda@ == lagrange_at_zero(id_value(i), id_values(key_ids@.subrange(0, k as int))),
        decreases key_ids.len() - k,
    {
        let j: u32 = key_ids[k];
        proof {
            let upto = id_values(key_ids@.subrange(0, k + 1));
            assert(upto.drop_last() =~= id_values(key_ids@.subrange(0, k as int)));
            assert(upto.last() == id_value(j));
        }
        if i != j {
            let j_scalar = id(j);
            lambda = lambda.mul(&j_scalar.div(&j_scalar.sub(&i_scalar)));
        }
        k = k + 1;
    }
    assert(key_ids@.subrange(0, key_ids@.len() as int) =~= key_ids@);
    lambda
}

/// Compute the intermediate values used by both the parties and the
/// aggregator: the effective commitment of each party and their sum.
#[allow(non_snake_case)]
pub fn intermediate(msg: &[u8], party_ids: &[u32], nonces: &[PublicNonce]) -> (r: (Vec<Point>, Point))
    ensures
        point_encodings(r.0@) == commitments(msg@, party_ids@, nonces@),
        r.1@ == group_sum(point_encodings(r.0@)),
{
    let n: usize = if party_ids.len() <= nonces.len() {
        party_ids.len()
    } else {
        nonces.len()
    };
    let mut R_vec: Vec<Point> = Vec::new();
    let mut R = Point::identity();
    let mut k: usize = 0;
    while k < n
        invariant
            k <= n,
            n <= party_ids.len(),
            n <= nonces.len(),
            R_vec.len() == k,
            forall|m: int|
                0 <= m < k ==> (#[trigger] R_vec@[m])@ == commitment(
                    party_ids@[m],
                    nonces@[m],
                    nonces@,
                    msg@,
                ),
            R@ == group_sum(point_encodings(R_vec@)),
        decreases n - k,
    {
        let rho = binding(&id(party_ids[k]), nonces, msg);
        let R_k = nonces[k].D.add(&nonces[k].E.mul(&rho));
        let ghost before = point_encodings(R_vec@);
        R_vec.push(R_k);
        R = R.add(&R_k);
        proof {
            let after = point_encodings(R_vec@);
            assert(after.drop_last() =~= before);
            assert(after.last() == R_k@);
        }
        k = k + 1;
    }
    assert(point_encodings(R_vec@) =~= commitments(msg@, party_ids@, nonces@));
    (R_vec, R)
}

/// The powers `x^0, .., x^(n-1)` of a scalar, each the one before times `x`.
pub fn power_ladder(x: &Scalar, n: usize) -> (s: Vec<Scalar>)
    ensures
        s@.len() == n,
        scalar_values(s@) == powers(x@, n as nat),
{
    let mut s: Vec<Scalar> = Vec::with_capacity(n);
    let mut pow = Scalar::one();
    let mut k: usize = 0;
    while k < n
        invariant
            k <= n,
            s.len() == k,
            pow@ == pow_mod(x@, k as nat),
            scalar_values(s@) == powers(x@, k as nat),
        decreases n - k,
    {
        let ghost before = scalar_values(s@);
        s.push(pow);
        proof {
            let after = scalar_values(s@);
            assert forall|j: int| 0 <= j < after.len() implies after[j] == pow_mod(x@, j as nat) by {
                if j < k {
                    assert(after[j] == before[j]);
                    assert(before[j] == powers(x@, k as nat)[j]);
                }
            }
            assert(after =~= powers(x@, (k + 1) as nat));
        }
        pow = pow.mul(x);
        k = k + 1;
    }
    s
}

/// Evaluate the public polynomial `f` at the scalar `x` by one
/// multi-scalar multiplication of the coefficients by the powers of `x`. The
/// number of coefficients fixes whether the multiplication is carried out;
/// where it is not, the error is the one that it reports.
pub fn poly(x: &Scalar, f: &Vec<Point>) -> (r: Result<Point, PointError>)
    ensures
        r is Ok <==> multi_mul_succeeds(f@.len()),
        f@.len() == 0 ==> r is Ok,
        r matches Ok(p) ==> p@ == multi_mul(powers(x@, f@.len()), point_encodings(f@)),
        r matches Ok(p) ==> f@.len() == 1 ==> p@ == f@[0]@,
        r matches Err(e) ==> e == PointError::MultiMultFailed,
{
    let s = power_ladder(x, f.len());
    proof {
        if f@.len() == 1 {
            assert(point_encodings(f@) =~= seq![f@[0]@]);
            lemma_poly_constant(x@, f@[0]@);
        }
    }
    multimult(&s, f)
}

} // verus!
