//! Laws that relate the functions of the library to each other.
use crate::algebra::is_prime;
use crate::compute::{
    binding_preimage, binding_tag, id_value, id_values, lagrange_at_zero, lambda_value,
    nonce_bytes, powers,
};
use crate::field::{add_mod, be_bytes, group_order, mul_mod, pow_mod};
use crate::lagrange::{
    distinct_nodes, lemma_interpolation, lemma_poly_eval_at_zero, lemma_poly_eval_reduced,
    lemma_weighted_sum_agree, poly_eval, shifted_poly, weighted_sum,
};
use crate::point::{
    group_mul, identity_encoding, lemma_encoding_len, lemma_point_by_encoding, multi_mul,
    PublicNonce,
};
use vstd::arithmetic::div_mod::lemma_small_mod;
use vstd::prelude::*;

verus! {

/// Distinct participants have distinct evaluation points, and none of them is
/// zero.
pub proof fn lemma_id_injective(i1: u32, i2: u32)
    requires
        i1 != i2,
    ensures
        id_value(i1) != id_value(i2),
        id_value(i1) != 0,
{
}

/// The Lagrange coefficient of a participant who is alone is one.
pub proof fn lemma_lambda_singleton(i: u32)
    ensures
        lambda_value(i, seq![i]) == 1,
{
    let nodes = id_values(seq![i]);
    assert(nodes.len() == 1);
    assert(nodes.last() == id_value(i));
    assert(nodes.drop_last().len() == 0);
    assert(lagrange_at_zero(id_value(i), nodes.drop_last()) == 1);
}

/// A polynomial with a single coefficient evaluates to that coefficient at
/// every point.
pub proof fn lemma_poly_constant(x: nat, f0: Seq<u8>)
    ensures
        multi_mul(powers(x, 1), seq![f0]) == f0,
{
    let scalars = powers(x, 1);
    let points = seq![f0];
    assert(scalars.last() == pow_mod(x, 0));
    assert(points.last() == f0);
    assert(points.drop_last().len() == 0);
    assert(multi_mul(scalars.drop_last(), points.drop_last()) == identity_encoding());
    assert(group_mul(1, f0) == f0);
}

/// The encodings of two nonce lists of one length differ if the lists do.
pub proof fn lemma_nonce_bytes_injective(a: Seq<PublicNonce>, b: Seq<PublicNonce>)
    requires
        a.len() == b.len(),
        nonce_bytes(a) == nonce_bytes(b),
    ensures
        a == b,
    decreases a.len(),
{
    lemma_nonce_bytes_len(a);
    lemma_nonce_bytes_len(b);
    if a.len() > 0 {
        let ha = nonce_bytes(a.drop_last());
        let hb = nonce_bytes(b.drop_last());
        lemma_nonce_bytes_len(a.drop_last());
        lemma_nonce_bytes_len(b.drop_last());
        lemma_encoding_len(a.last().D);
        lemma_encoding_len(a.last().E);
        lemma_encoding_len(b.last().D);
        lemma_encoding_len(b.last().E);
        let n = ha.len() as int;
        let whole = nonce_bytes(a);
        assert(whole == ha + a.last().D@ + a.last().E@);
        assert(whole == hb + b.last().D@ + b.last().E@);
        assert(ha =~= whole.subrange(0, n));
        assert(hb =~= whole.subrange(0, n));
        assert(a.last().D@ =~= whole.subrange(n, n + 33));
        assert(b.last().D@ =~= whole.subrange(n, n + 33));
        assert(a.last().E@ =~= whole.subrange(n + 33, n + 66));
        assert(b.last().E@ =~= whole.subrange(n + 33, n + 66));
        lemma_nonce_bytes_injective(a.drop_last(), b.drop_last());
        lemma_point_by_encoding(a.last().D, b.last().D);
        lemma_point_by_encoding(a.last().E, b.last().E);
        assert(a.last() == b.last());
        assert(a =~= a.drop_last().push(a.last()));
        assert(b =~= b.drop_last().push(b.last()));
    } else {
        assert(a =~= b);
    }
}

/// Each nonce takes 66 bytes of the encoding of a list.
pub proof fn lemma_nonce_bytes_len(a: Seq<PublicNonce>)
    ensures
        nonce_bytes(a).len() == 66 * a.len(),
    decreases a.len(),
{
    if a.len() > 0 {
        lemma_nonce_bytes_len(a.drop_last());
        lemma_encoding_len(a.last().D);
        lemma_encoding_len(a.last().E);
    }
}

/// The binding hash is sensitive to the order of the nonces: two nonce lists
/// of one length that differ anywhere give different bytes to the hash, with
/// the same participant and message.
pub proof fn lemma_binding_preimage_order_sensitive(
    id: nat,
    a: Seq<PublicNonce>,
    b: Seq<PublicNonce>,
    msg: Seq<u8>,
)
    requires
        a.len() == b.len(),
        a != b,
    ensures
        binding_preimage(id, a, msg) != binding_preimage(id, b, msg),
{
    if binding_preimage(id, a, msg) == binding_preimage(id, b, msg) {
        lemma_nonce_bytes_len(a);
        lemma_nonce_bytes_len(b);
        let head = binding_tag() + be_bytes(id, 32);
        let pa = binding_preimage(id, a, msg);
        let pb = binding_preimage(id, b, msg);
        let h = head.len() as int;
        let n = nonce_bytes(a).len() as int;
        assert(nonce_bytes(a) =~= pa.subrange(h, h + n));
        assert(nonce_bytes(b) =~= pb.subrange(h, h + n));
        lemma_nonce_bytes_injective(a, b);
    }
}

/// The bytes that a hash of the shape of the binding hash is taken of under
/// the domain tag `tag`.
pub open spec fn tagged_preimage(
    tag: Seq<u8>,
    id: nat,
    nonces: Seq<PublicNonce>,
    msg: Seq<u8>,
) -> Seq<u8> {
    tag + be_bytes(id, 32) + nonce_bytes(nonces) + msg
}

/// The binding hash is separated from every other domain: under any other
/// tag the same participant, nonces and message give different bytes to the
/// hash.
pub proof fn lemma_binding_tag_separates(
    tag: Seq<u8>,
    id: nat,
    nonces: Seq<PublicNonce>,
    msg: Seq<u8>,
)
    requires
        tag != binding_tag(),
    ensures
        tagged_preimage(binding_tag(), id, nonces, msg) == binding_preimage(id, nonces, msg),
        tagged_preimage(tag, id, nonces, msg) != binding_preimage(id, nonces, msg),
{
    let rest = be_bytes(id, 32) + nonce_bytes(nonces) + msg;
    let other = tagged_preimage(tag, id, nonces, msg);
    let own = binding_preimage(id, nonces, msg);
    assert(other =~= tag + rest);
    assert(own =~= binding_tag() + rest);
    if other == own {
        assert(tag.len() == binding_tag().len());
        assert(tag =~= other.subrange(0, tag.len() as int));
        assert(binding_tag() =~= own.subrange(0, tag.len() as int));
    }
}

/// The sum over the first `upto` participants of the participant's Lagrange
/// coefficient among `key_ids` times the value of the polynomial at the
/// participant's evaluation point.
pub open spec fn reconstruction(coeffs: Seq<nat>, key_ids: Seq<u32>, upto: nat) -> nat
    decreases upto,
{
    if upto == 0 {
        0
    } else {
        add_mod(
            reconstruction(coeffs, key_ids, (upto - 1) as nat),
            mul_mod(
                lambda_value(key_ids[upto - 1], key_ids),
                poly_eval(coeffs, id_value(key_ids[upto - 1])),
            ),
        )
    }
}

/// The function that gives each node the value of the polynomial there.
pub open spec fn eval_of(coeffs: Seq<nat>) -> spec_fn(nat) -> nat {
    |x: nat| poly_eval(coeffs, x)
}

/// The evaluation points of distinct participants are distinct nodes.
pub proof fn lemma_id_values_distinct(key_ids: Seq<u32>)
    requires
        key_ids.no_duplicates(),
    ensures
        distinct_nodes(id_values(key_ids)),
{
    let nodes = id_values(key_ids);
    assert forall|i: int, j: int| 0 <= i < nodes.len() && 0 <= j < nodes.len() && i != j implies nodes[i]
        != nodes[j] by {
        lemma_id_injective(key_ids[i], key_ids[j]);
    }
}

/// The reconstruction sum is a weighted sum over the evaluation points.
pub proof fn lemma_reconstruction_as_weighted_sum(coeffs: Seq<nat>, key_ids: Seq<u32>, upto: nat)
    requires
        upto <= key_ids.len(),
    ensures
        reconstruction(coeffs, key_ids, upto) == weighted_sum(
            id_values(key_ids),
            upto,
            eval_of(coeffs),
        ),
    decreases upto,
{
    if upto > 0 {
        lemma_reconstruction_as_weighted_sum(coeffs, key_ids, (upto - 1) as nat);
        assert(id_values(key_ids)[upto - 1] == id_value(key_ids[upto - 1]));
    }
}

/// Lagrange reconstruction: for a polynomial of degree `t` and `t + 1`
/// distinct participants (or more), the values of the polynomial at the
/// participants' evaluation points, weighted by their Lagrange coefficients,
/// add up to the value of the polynomial at zero. The scalars must form a
/// field for this: the group order must be prime.
pub proof fn lemma_lagrange_reconstruction(coeffs: Seq<nat>, key_ids: Seq<u32>)
    requires
        is_prime(group_order()),
        key_ids.no_duplicates(),
        coeffs.len() <= key_ids.len(),
    ensures
        reconstruction(coeffs, key_ids, key_ids.len()) == poly_eval(coeffs, 0),
{
    let nodes = id_values(key_ids);
    let n = nodes.len();
    lemma_id_values_distinct(key_ids);
    lemma_reconstruction_as_weighted_sum(coeffs, key_ids, n);
    assert forall|k: int| 0 <= k < n implies eval_of(coeffs)(#[trigger] nodes[k]) == shifted_poly(
        coeffs,
        0,
    )(nodes[k]) by {
        let e = poly_eval(coeffs, nodes[k]);
        lemma_poly_eval_reduced(coeffs, nodes[k]);
        assert(1 * e == e);
        lemma_small_mod(e, group_order());
    }
    lemma_weighted_sum_agree(nodes, n, eval_of(coeffs), shifted_poly(coeffs, 0));
    lemma_interpolation(nodes, coeffs, 0);
    lemma_poly_eval_at_zero(coeffs);
}

} // verus!
