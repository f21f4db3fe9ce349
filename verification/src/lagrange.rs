//! Lagrange interpolation at zero over the scalar field: sums that weigh the
//! values of a function at the nodes by the Lagrange coefficients, and what
//! these sums are for polynomials.
use crate::algebra::{
    eqm, is_prime, lemma_eqm_add, lemma_eqm_cancel, lemma_eqm_mul, lemma_eqm_reduced,
    lemma_eqm_sub, lemma_inv_mod, lemma_lift_add, lemma_lift_div, lemma_lift_mul, lemma_lift_sub,
    lemma_mul_four_inner, lemma_mul_four_outer, lemma_mul_negated, lemma_mul_swap,
    lemma_sub_mod_nonzero,
};
use crate::compute::lagrange_at_zero;
use crate::field::{add_mod, div_mod, group_order, inv_mod, mul_mod, pow_mod, sub_mod};
use vstd::arithmetic::div_mod::{lemma_mod_twice, lemma_small_mod};
use vstd::arithmetic::mul::{
    lemma_mul_is_associative, lemma_mul_is_commutative, lemma_mul_is_distributive_add,
    lemma_mul_is_distributive_sub,
};
use vstd::prelude::*;

verus! {

/// Whether the nodes are reduced and pairwise distinct.
pub open spec fn distinct_nodes(nodes: Seq<nat>) -> bool {
    &&& nodes.no_duplicates()
    &&& forall|k: int| 0 <= k < nodes.len() ==> #[trigger] nodes[k] < group_order()
}

/// The factor `b / (b - x)` that the node `b` adds to the coefficient of `x`.
pub open spec fn factor(b: nat, x: nat) -> nat {
    div_mod(b, sub_mod(b, x))
}

/// The sum over the first `upto` nodes of the Lagrange coefficient of the
/// node among all `nodes`, times the value of `h` at the node.
pub open spec fn weighted_sum(nodes: Seq<nat>, upto: nat, h: spec_fn(nat) -> nat) -> nat
    decreases upto,
{
    if upto == 0 {
        0
    } else {
        add_mod(
            weighted_sum(nodes, (upto - 1) as nat, h),
            mul_mod(lagrange_at_zero(nodes[upto - 1], nodes), h(nodes[upto - 1])),
        )
    }
}

/// What one more node does to a Lagrange coefficient.
pub proof fn lemma_lagrange_push(x: nat, nodes: Seq<nat>, b: nat)
    ensures
        lagrange_at_zero(x, nodes.push(b)) == if b == x {
            lagrange_at_zero(x, nodes)
        } else {
            mul_mod(lagrange_at_zero(x, nodes), factor(b, x))
        },
{
    assert(nodes.push(b).drop_last() =~= nodes);
    assert(nodes.push(b).last() == b);
}

/// A Lagrange coefficient is a reduced number.
pub proof fn lemma_lagrange_reduced(x: nat, nodes: Seq<nat>)
    ensures
        lagrange_at_zero(x, nodes) < group_order(),
    decreases nodes.len(),
{
    if nodes.len() > 0 {
        lemma_lagrange_reduced(x, nodes.drop_last());
    }
}

/// A weighted sum of values that are a linear combination of the values of
/// two functions is that combination of their weighted sums.
pub proof fn lemma_weighted_sum_linear(
    nodes: Seq<nat>,
    upto: nat,
    h: spec_fn(nat) -> nat,
    alpha: nat,
    h1: spec_fn(nat) -> nat,
    beta: nat,
    h2: spec_fn(nat) -> nat,
)
    requires
        upto <= nodes.len(),
        forall|k: int|
            0 <= k < upto ==> h(#[trigger] nodes[k]) == add_mod(
                mul_mod(alpha, h1(nodes[k])),
                mul_mod(beta, h2(nodes[k])),
            ),
    ensures
        weighted_sum(nodes, upto, h) == add_mod(
            mul_mod(alpha, weighted_sum(nodes, upto, h1)),
            mul_mod(beta, weighted_sum(nodes, upto, h2)),
        ),
    decreases upto,
{
    if upto == 0 {
        assert(mul_mod(alpha, 0) == 0) by {
            assert(alpha * 0 == 0);
        }
        assert(mul_mod(beta, 0) == 0) by {
            assert(beta * 0 == 0);
        }
    } else {
        let before = (upto - 1) as nat;
        lemma_weighted_sum_linear(nodes, before, h, alpha, h1, beta, h2);
        let x = nodes[upto - 1];
        let l = lagrange_at_zero(x, nodes);
        let w1 = weighted_sum(nodes, before, h1);
        let w2 = weighted_sum(nodes, before, h2);
        let a = alpha as int;
        let b = beta as int;
        let li = l as int;
        let u1 = h1(x) as int;
        let u2 = h2(x) as int;
        let v1 = w1 as int;
        let v2 = w2 as int;
        // The left side.
        lemma_lift_mul(alpha, a, w1, v1);
        lemma_lift_mul(beta, b, w2, v2);
        lemma_lift_add(mul_mod(alpha, w1), a * v1, mul_mod(beta, w2), b * v2);
        lemma_lift_mul(alpha, a, h1(x), u1);
        lemma_lift_mul(beta, b, h2(x), u2);
        lemma_lift_add(mul_mod(alpha, h1(x)), a * u1, mul_mod(beta, h2(x)), b * u2);
        lemma_lift_mul(l, li, h(x), a * u1 + b * u2);
        lemma_lift_add(
            weighted_sum(nodes, before, h),
            a * v1 + b * v2,
            mul_mod(l, h(x)),
            li * (a * u1 + b * u2),
        );
        // The right side.
        lemma_lift_mul(l, li, h1(x), u1);
        lemma_lift_mul(l, li, h2(x), u2);
        lemma_lift_add(w1, v1, mul_mod(l, h1(x)), li * u1);
        lemma_lift_add(w2, v2, mul_mod(l, h2(x)), li * u2);
        let s1 = weighted_sum(nodes, upto, h1);
        let s2 = weighted_sum(nodes, upto, h2);
        lemma_lift_mul(alpha, a, s1, v1 + li * u1);
        lemma_lift_mul(beta, b, s2, v2 + li * u2);
        lemma_lift_add(
            mul_mod(alpha, s1),
            a * (v1 + li * u1),
            mul_mod(beta, s2),
            b * (v2 + li * u2),
        );
        lemma_mul_is_distributive_add(li, a * u1, b * u2);
        lemma_mul_swap(li, a, u1);
        lemma_mul_swap(li, b, u2);
        lemma_mul_is_distributive_add(a, v1, li * u1);
        lemma_mul_is_distributive_add(b, v2, li * u2);
        lemma_eqm_reduced(
            weighted_sum(nodes, upto, h),
            add_mod(mul_mod(alpha, s1), mul_mod(beta, s2)),
        );
    }
}

/// The weighted sum over the nodes that were there before a node `b` came,
/// with the coefficients among all nodes, is the weighted sum among the
/// earlier nodes of the values times the factor of `b`.
pub proof fn lemma_weighted_sum_push(
    nodes: Seq<nat>,
    b: nat,
    upto: nat,
    h: spec_fn(nat) -> nat,
    hb: spec_fn(nat) -> nat,
)
    requires
        distinct_nodes(nodes.push(b)),
        upto <= nodes.len(),
        forall|k: int|
            0 <= k < upto ==> hb(#[trigger] nodes[k]) == mul_mod(factor(b, nodes[k]), h(nodes[k])),
    ensures
        weighted_sum(nodes.push(b), upto, h) == weighted_sum(nodes, upto, hb),
    decreases upto,
{
    if upto > 0 {
        let before = (upto - 1) as nat;
        lemma_weighted_sum_push(nodes, b, before, h, hb);
        let all = nodes.push(b);
        let x = nodes[upto - 1];
        assert(all[upto - 1] == x);
        assert(all[nodes.len() as int] == b);
        assert(x != b);
        lemma_lagrange_push(x, nodes, b);
        let l = lagrange_at_zero(x, nodes);
        let f = factor(b, x);
        let li = l as int;
        let fi = f as int;
        let hi = h(x) as int;
        lemma_lift_mul(l, li, f, fi);
        lemma_lift_mul(mul_mod(l, f), li * fi, h(x), hi);
        lemma_lift_mul(f, fi, h(x), hi);
        lemma_lift_mul(l, li, mul_mod(f, h(x)), fi * hi);
        lemma_mul_is_associative(li, fi, hi);
        lemma_eqm_reduced(mul_mod(mul_mod(l, f), h(x)), mul_mod(l, mul_mod(f, h(x))));
    }
}

/// The function that gives each node its factor towards `z`.
pub open spec fn factor_of(z: nat) -> spec_fn(nat) -> nat {
    |x: nat| factor(z, x)
}

/// The function that gives each node the product of its factors towards `b`
/// and towards `z`.
pub open spec fn factor_pair(b: nat, z: nat) -> spec_fn(nat) -> nat {
    |x: nat| mul_mod(factor(b, x), factor(z, x))
}

/// The first coefficient of the partial fractions of `b / (b - x) * z / (z - x)`.
pub open spec fn split_first(b: nat, z: nat) -> nat {
    mul_mod(inv_mod(sub_mod(z, b)), z)
}

/// The second coefficient of the partial fractions of `b / (b - x) * z / (z - x)`.
pub open spec fn split_second(b: nat, z: nat) -> nat {
    sub_mod(0, mul_mod(inv_mod(sub_mod(z, b)), b))
}

/// Modulo a prime order, the inverse of the difference of two distinct
/// scalars times their difference is congruent to one.
pub proof fn lemma_inverse_of_difference(b: nat, x: nat)
    requires
        is_prime(group_order()),
        b < group_order(),
        x < group_order(),
        b != x,
    ensures
        eqm(inv_mod(sub_mod(b, x)) * (b - x), 1),
        inv_mod(sub_mod(b, x)) < group_order(),
        eqm(factor(b, x) as int, (b * inv_mod(sub_mod(b, x))) as int),
        factor(b, x) < group_order(),
{
    let d = sub_mod(b, x);
    let u = inv_mod(d) as int;
    lemma_sub_mod_nonzero(b, x);
    lemma_inv_mod(d);
    lemma_lift_sub(b, b as int, x, x as int);
    lemma_eqm_mul(u, u, d as int, b - x);
    lemma_lift_div(b, b as int, d);
}

/// Partial fractions: `b / (b - x) * z / (z - x)` is a combination of
/// `b / (b - x)` and `z / (z - x)` whose coefficients do not depend on `x`.
pub proof fn lemma_partial_fractions(x: nat, b: nat, z: nat)
    requires
        is_prime(group_order()),
        x < group_order(),
        b < group_order(),
        z < group_order(),
        x != b,
        x != z,
        b != z,
    ensures
        mul_mod(factor(b, x), factor(z, x)) == add_mod(
            mul_mod(split_first(b, z), factor(b, x)),
            mul_mod(split_second(b, z), factor(z, x)),
        ),
{
    let bi = b as int;
    let xi = x as int;
    let zi = z as int;
    let u = inv_mod(sub_mod(b, x)) as int;
    let v = inv_mod(sub_mod(z, x)) as int;
    let wn = inv_mod(sub_mod(z, b));
    let w = wn as int;
    lemma_inverse_of_difference(b, x);
    lemma_inverse_of_difference(z, x);
    lemma_inverse_of_difference(z, b);
    let fb = factor(b, x);
    let fz = factor(z, x);
    lemma_lift_mul(fb, bi * u, fz, zi * v);
    lemma_lift_mul(wn, w, z, zi);
    lemma_lift_mul(wn, w, b, bi);
    lemma_lift_sub(0, 0, mul_mod(wn, b), w * bi);
    lemma_lift_mul(split_first(b, z), w * zi, fb, bi * u);
    lemma_lift_mul(split_second(b, z), 0 - w * bi, fz, zi * v);
    lemma_lift_add(
        mul_mod(split_first(b, z), fb),
        (w * zi) * (bi * u),
        mul_mod(split_second(b, z), fz),
        (0 - w * bi) * (zi * v),
    );
    let t = u * v;
    let q = bi * zi;
    // u is congruent to t * (z - x), and v to t * (b - x).
    lemma_eqm_cancel(u, v * (zi - xi));
    lemma_mul_is_associative(u, v, zi - xi);
    lemma_eqm_cancel(v, u * (bi - xi));
    lemma_mul_swap(v, u, bi - xi);
    lemma_mul_is_associative(u, v, bi - xi);
    // So u - v is congruent to t * (z - b), and w * (u - v) to t.
    lemma_eqm_sub(u, t * (zi - xi), v, t * (bi - xi));
    lemma_mul_is_distributive_sub(t, zi - xi, bi - xi);
    assert((zi - xi) - (bi - xi) == zi - bi);
    lemma_eqm_mul(w, w, u - v, t * (zi - bi));
    lemma_mul_swap(w, t, zi - bi);
    lemma_eqm_cancel(t, w * (zi - bi));
    assert(eqm(w * (u - v), t));
    lemma_eqm_mul(q, q, w * (u - v), t);
    // Both sides as multiples of q.
    lemma_mul_four_inner(bi, u, zi, v);
    lemma_mul_is_distributive_sub(w, u, v);
    lemma_mul_is_distributive_sub(q, w * u, w * v);
    lemma_mul_four_outer(w, zi, bi, u);
    lemma_mul_negated(w * bi, zi * v);
    lemma_mul_four_outer(w, bi, zi, v);
    lemma_mul_is_commutative(zi, bi);
    assert((w * zi) * (bi * u) + (0 - w * bi) * (zi * v) == q * (w * (u - v)));
    lemma_eqm_reduced(
        mul_mod(fb, fz),
        add_mod(mul_mod(split_first(b, z), fb), mul_mod(split_second(b, z), fz)),
    );
}

/// The step of the induction that shows that the Lagrange coefficients add
/// up to one: from the sums for the earlier nodes towards `b` and towards
/// `z` to the sum for the nodes with `b` towards `z`.
pub proof fn lemma_partition_step(b: nat, z: nat, fb: nat, gb: nat, fz: nat, gz: nat)
    requires
        is_prime(group_order()),
        b < group_order(),
        z < group_order(),
        b != z,
        add_mod(fb, gb) == 1,
        add_mod(fz, gz) == 1,
    ensures
        add_mod(
            add_mod(
                add_mod(mul_mod(split_first(b, z), fb), mul_mod(split_second(b, z), fz)),
                mul_mod(gb, factor(z, b)),
            ),
            mul_mod(gz, factor(b, z)),
        ) == 1,
{
    let bi = b as int;
    let zi = z as int;
    let wn = inv_mod(sub_mod(z, b));
    let w = wn as int;
    let w2 = inv_mod(sub_mod(b, z)) as int;
    let fbi = fb as int;
    let gbi = gb as int;
    let fzi = fz as int;
    let gzi = gz as int;
    lemma_inverse_of_difference(z, b);
    lemma_inverse_of_difference(b, z);
    let alpha = w * zi;
    let beta = 0 - w * bi;
    // The sum, term by term.
    lemma_lift_mul(wn, w, z, zi);
    lemma_lift_mul(wn, w, b, bi);
    lemma_lift_sub(0, 0, mul_mod(wn, b), w * bi);
    let m1 = mul_mod(split_first(b, z), fb);
    let m2 = mul_mod(split_second(b, z), fz);
    let m3 = mul_mod(gb, factor(z, b));
    let m4 = mul_mod(gz, factor(b, z));
    lemma_lift_mul(split_first(b, z), alpha, fb, fbi);
    lemma_lift_mul(split_second(b, z), beta, fz, fzi);
    lemma_lift_mul(gb, gbi, factor(z, b), zi * w);
    lemma_lift_mul(gz, gzi, factor(b, z), bi * w2);
    lemma_lift_add(m1, alpha * fbi, m2, beta * fzi);
    lemma_lift_add(add_mod(m1, m2), alpha * fbi + beta * fzi, m3, gbi * (zi * w));
    lemma_lift_add(
        add_mod(add_mod(m1, m2), m3),
        alpha * fbi + beta * fzi + gbi * (zi * w),
        m4,
        gzi * (bi * w2),
    );
    let total = add_mod(add_mod(add_mod(m1, m2), m3), m4);
    // What is known of the parts.
    lemma_lift_add(fb, fbi, gb, gbi);
    lemma_lift_add(fz, fzi, gz, gzi);
    assert(eqm(fbi + gbi, 1));
    assert(eqm(fzi + gzi, 1));
    // The inverse of b - z is the negated inverse of z - b.
    lemma_eqm_cancel(w2, w * (zi - bi));
    lemma_eqm_cancel(w, w2 * (bi - zi));
    lemma_mul_swap(w, w2, bi - zi);
    lemma_mul_is_distributive_add(w2, w * (zi - bi), w * (bi - zi));
    lemma_mul_is_distributive_add(w, zi - bi, bi - zi);
    assert((zi - bi) + (bi - zi) == 0);
    assert(w * 0 == 0);
    assert(w2 * 0 == 0);
    lemma_eqm_add(w2 * (w * (zi - bi)), w2, w * (w2 * (bi - zi)), w);
    assert(eqm(0, w2 + w));
    lemma_eqm_sub(w2 + w, 0, w, w);
    assert(eqm(w2, 0 - w));
    // The last term is congruent to beta * gz.
    lemma_eqm_mul(bi, bi, w2, 0 - w);
    lemma_eqm_mul(gzi, gzi, bi * w2, bi * (0 - w));
    lemma_mul_is_distributive_sub(bi, 0, w);
    assert(bi * 0 == 0);
    lemma_mul_is_commutative(bi, w);
    lemma_mul_is_commutative(gzi, beta);
    assert(eqm(gzi * (bi * w2), beta * gzi));
    // The third term is alpha * gb.
    lemma_mul_is_commutative(zi, w);
    lemma_mul_is_commutative(gbi, alpha);
    // Together: alpha * (fb + gb) + beta * (fz + gz).
    lemma_mul_is_distributive_add(alpha, fbi, gbi);
    lemma_mul_is_distributive_add(beta, fzi, gzi);
    lemma_eqm_cancel(alpha, fbi + gbi);
    lemma_eqm_cancel(beta, fzi + gzi);
    lemma_eqm_add(alpha * (fbi + gbi), alpha, beta * (fzi + gzi), beta);
    lemma_mul_is_distributive_sub(w, zi, bi);
    assert(alpha + beta == w * (zi - bi));
    let known = alpha * fbi + beta * fzi + gbi * (zi * w);
    lemma_eqm_add(known, known, gzi * (bi * w2), beta * gzi);
    assert(known + beta * gzi == alpha * (fbi + gbi) + beta * (fzi + gzi));
    assert(eqm(total as int, 1));
    lemma_eqm_reduced(total, 1);
}

/// The parts of a list of distinct nodes and one more are distinct too.
pub proof fn lemma_distinct_parts(nodes: Seq<nat>, z: nat)
    requires
        distinct_nodes(nodes.push(z)),
        nodes.len() > 0,
    ensures
        distinct_nodes(nodes),
        distinct_nodes(nodes.drop_last().push(nodes.last())),
        distinct_nodes(nodes.drop_last().push(z)),
        nodes.last() != z,
        z < group_order(),
        nodes.last() < group_order(),
        forall|k: int|
            0 <= k < nodes.len() - 1 ==> {
                &&& #[trigger] nodes[k] != nodes.last()
                &&& nodes[k] != z
                &&& nodes[k] < group_order()
            },
{
    let all = nodes.push(z);
    let n = nodes.len() as int;
    assert(all[n] == z);
    assert forall|k: int| 0 <= k < n implies #[trigger] nodes[k] == all[k] && nodes[k] != z
        && nodes[k] < group_order() by {
        assert(all[k] == nodes[k]);
    }
    assert(nodes.drop_last().push(nodes.last()) =~= nodes);
    assert(nodes.no_duplicates()) by {
        assert forall|i: int, j: int| 0 <= i < n && 0 <= j < n && i != j implies nodes[i]
            != nodes[j] by {
            assert(all[i] == nodes[i]);
            assert(all[j] == nodes[j]);
        }
    }
    let other = nodes.drop_last().push(z);
    assert(other.no_duplicates()) by {
        assert forall|i: int, j: int| 0 <= i < n && 0 <= j < n && i != j implies other[i]
            != other[j] by {
            let i2 = if i == n - 1 { n } else { i };
            let j2 = if j == n - 1 { n } else { j };
            assert(other[i] == all[i2]);
            assert(other[j] == all[j2]);
        }
    }
    assert forall|k: int| 0 <= k < other.len() implies #[trigger] other[k] < group_order() by {
        let k2 = if k == n - 1 { n } else { k };
        assert(other[k] == all[k2]);
    }
    assert forall|k: int| 0 <= k < n - 1 implies #[trigger] nodes[k] != nodes.last() by {
        assert(nodes.last() == nodes[n - 1]);
    }
}

/// Modulo a prime order, the Lagrange coefficients of distinct nodes add up
/// to one. Here the last node is `z`: the coefficients of the others are
/// their coefficients among themselves times their factors towards `z`.
pub proof fn lemma_partition(nodes: Seq<nat>, z: nat)
    requires
        is_prime(group_order()),
        distinct_nodes(nodes.push(z)),
    ensures
        add_mod(weighted_sum(nodes, nodes.len(), factor_of(z)), lagrange_at_zero(z, nodes)) == 1,
    decreases nodes.len(),
{
    if nodes.len() == 0 {
        lemma_small_mod(1, group_order());
    } else {
        let earlier = nodes.drop_last();
        let b = nodes.last();
        let n = earlier.len();
        lemma_distinct_parts(nodes, z);
        assert(nodes =~= earlier.push(b));
        lemma_partition(earlier, b);
        lemma_partition(earlier, z);
        let fb = weighted_sum(earlier, n, factor_of(b));
        let gb = lagrange_at_zero(b, earlier);
        let fz = weighted_sum(earlier, n, factor_of(z));
        let gz = lagrange_at_zero(z, earlier);
        // The sum over the earlier nodes.
        assert forall|k: int| 0 <= k < n implies factor_pair(b, z)(#[trigger] earlier[k])
            == mul_mod(factor(b, earlier[k]), factor_of(z)(earlier[k])) by {}
        lemma_weighted_sum_push(earlier, b, n, factor_of(z), factor_pair(b, z));
        assert forall|k: int| 0 <= k < n implies factor_pair(b, z)(#[trigger] earlier[k])
            == add_mod(
            mul_mod(split_first(b, z), factor_of(b)(earlier[k])),
            mul_mod(split_second(b, z), factor_of(z)(earlier[k])),
        ) by {
            assert(earlier[k] == nodes[k]);
            lemma_partial_fractions(earlier[k], b, z);
        }
        lemma_weighted_sum_linear(
            earlier,
            n,
            factor_pair(b, z),
            split_first(b, z),
            factor_of(b),
            split_second(b, z),
            factor_of(z),
        );
        // The last node and the new one.
        lemma_lagrange_push(b, earlier, b);
        lemma_lagrange_push(z, earlier, b);
        assert(nodes[nodes.len() - 1] == b);
        assert(factor_of(z)(b) == factor(z, b));
        lemma_partition_step(b, z, fb, gb, fz, gz);
    }
}

/// The function that gives each node its `k`-th power.
pub open spec fn power_of(k: nat) -> spec_fn(nat) -> nat {
    |x: nat| pow_mod(x, k)
}

/// The function that gives each node its factor towards `b` times its `k`-th
/// power.
pub open spec fn factor_power(b: nat, k: nat) -> spec_fn(nat) -> nat {
    |x: nat| mul_mod(factor(b, x), pow_mod(x, k))
}

/// Weighted sums of functions that agree on the nodes agree.
pub proof fn lemma_weighted_sum_agree(
    nodes: Seq<nat>,
    upto: nat,
    h1: spec_fn(nat) -> nat,
    h2: spec_fn(nat) -> nat,
)
    requires
        upto <= nodes.len(),
        forall|k: int| 0 <= k < upto ==> h1(#[trigger] nodes[k]) == h2(nodes[k]),
    ensures
        weighted_sum(nodes, upto, h1) == weighted_sum(nodes, upto, h2),
    decreases upto,
{
    if upto > 0 {
        lemma_weighted_sum_agree(nodes, (upto - 1) as nat, h1, h2);
    }
}

/// The factor of a node times its next power, as a combination of the factor
/// times the power before and of that power.
pub proof fn lemma_shift_step(b: nat, x: nat, p: nat)
    requires
        is_prime(group_order()),
        b < group_order(),
        x < group_order(),
        b != x,
    ensures
        mul_mod(factor(b, x), mul_mod(p, x)) == add_mod(
            mul_mod(b, mul_mod(factor(b, x), p)),
            mul_mod(sub_mod(0, b), p),
        ),
{
    let bi = b as int;
    let xi = x as int;
    let pi = p as int;
    let u = inv_mod(sub_mod(b, x)) as int;
    let f = factor(b, x);
    lemma_inverse_of_difference(b, x);
    // Both sides.
    lemma_lift_mul(p, pi, x, xi);
    lemma_lift_mul(f, bi * u, mul_mod(p, x), pi * xi);
    lemma_lift_mul(f, bi * u, p, pi);
    lemma_lift_mul(b, bi, mul_mod(f, p), (bi * u) * pi);
    lemma_lift_sub(0, 0, b, bi);
    lemma_lift_mul(sub_mod(0, b), 0 - bi, p, pi);
    lemma_lift_add(
        mul_mod(b, mul_mod(f, p)),
        bi * ((bi * u) * pi),
        mul_mod(sub_mod(0, b), p),
        (0 - bi) * pi,
    );
    // u * x is congruent to u * b - 1.
    lemma_mul_is_distributive_sub(u, bi, xi);
    lemma_eqm_sub(u * bi, u * bi, u * bi - u * xi, 1);
    assert(eqm(u * xi, u * bi - 1));
    // The left side is (b * p) * (u * x).
    lemma_mul_four_inner(bi, u, pi, xi);
    lemma_eqm_mul(bi * pi, bi * pi, u * xi, u * bi - 1);
    lemma_mul_is_distributive_sub(bi * pi, u * bi, 1);
    assert((bi * pi) * 1 == bi * pi);
    // The right side is (b * p) * (u * b) - b * p.
    lemma_mul_four_inner(bi, pi, u, bi);
    lemma_mul_is_commutative(pi, bi);
    lemma_mul_swap(bi * u, bi, pi);
    lemma_mul_negated(bi, pi);
    lemma_eqm_reduced(
        mul_mod(f, mul_mod(p, x)),
        add_mod(mul_mod(b, mul_mod(f, p)), mul_mod(sub_mod(0, b), p)),
    );
}

/// Modulo a prime order, the Lagrange coefficients of distinct nodes add up
/// to one, and weighted by the `k`-th powers of their nodes, for a `k` from
/// one on and below the number of nodes, they add up to zero.
pub proof fn lemma_moment(nodes: Seq<nat>, k: nat)
    requires
        is_prime(group_order()),
        distinct_nodes(nodes),
        k < nodes.len(),
    ensures
        weighted_sum(nodes, nodes.len(), power_of(k)) == if k == 0 {
            1nat
        } else {
            0nat
        },
    decreases nodes.len(), k,
{
    let earlier = nodes.drop_last();
    let b = nodes.last();
    let n = earlier.len();
    assert(nodes =~= earlier.push(b));
    assert(nodes[nodes.len() - 1] == b);
    let g = lagrange_at_zero(b, earlier);
    lemma_lagrange_push(b, earlier, b);
    lemma_lagrange_reduced(b, earlier);
    assert forall|j: int| 0 <= j < n implies factor_power(b, k)(#[trigger] earlier[j]) == mul_mod(
        factor(b, earlier[j]),
        power_of(k)(earlier[j]),
    ) by {}
    lemma_weighted_sum_push(earlier, b, n, power_of(k), factor_power(b, k));
    let shifted = weighted_sum(earlier, n, factor_power(b, k));
    assert(weighted_sum(nodes, nodes.len(), power_of(k)) == add_mod(
        shifted,
        mul_mod(g, pow_mod(b, k)),
    ));
    if k == 0 {
        assert forall|j: int| 0 <= j < n implies factor_power(b, 0)(#[trigger] earlier[j])
            == factor_of(b)(earlier[j]) by {
            let f = factor(b, earlier[j]);
            assert(f * 1 == f);
            lemma_small_mod(f, group_order());
        }
        lemma_weighted_sum_agree(earlier, n, factor_power(b, 0), factor_of(b));
        assert(g * 1 == g);
        lemma_small_mod(g, group_order());
        lemma_partition(earlier, b);
    } else {
        lemma_shifted_moment(earlier, b, k);
        let bk = pow_mod(b, k);
        let gi = g as int;
        let bki = bk as int;
        lemma_lift_mul(bk, bki, g, gi);
        lemma_lift_sub(0, 0, mul_mod(bk, g), bki * gi);
        lemma_lift_mul(g, gi, bk, bki);
        lemma_lift_add(shifted, 0 - bki * gi, mul_mod(g, bk), gi * bki);
        lemma_mul_is_commutative(gi, bki);
        lemma_eqm_reduced(add_mod(shifted, mul_mod(g, bk)), 0);
    }
}

/// Modulo a prime order, the Lagrange coefficients of distinct nodes, each
/// weighted by the factor of its node towards one more node `b` and by the
/// `k`-th power of its node, add up to the negated `k`-th power of `b` times
/// the coefficient of `b`, for a `k` from one up to the number of nodes.
pub proof fn lemma_shifted_moment(nodes: Seq<nat>, b: nat, k: nat)
    requires
        is_prime(group_order()),
        distinct_nodes(nodes.push(b)),
        1 <= k <= nodes.len(),
    ensures
        weighted_sum(nodes, nodes.len(), factor_power(b, k)) == sub_mod(
            0,
            mul_mod(pow_mod(b, k), lagrange_at_zero(b, nodes)),
        ),
    decreases nodes.len(), k,
{
    let n = nodes.len();
    let g = lagrange_at_zero(b, nodes);
    let before = (k - 1) as nat;
    let nb = sub_mod(0, b);
    lemma_distinct_parts(nodes, b);
    assert forall|j: int| 0 <= j < n implies factor_power(b, k)(#[trigger] nodes[j]) == add_mod(
        mul_mod(b, factor_power(b, before)(nodes[j])),
        mul_mod(nb, power_of(before)(nodes[j])),
    ) by {
        assert(nodes.push(b)[j] == nodes[j]);
        assert(nodes.push(b)[n as int] == b);
        lemma_shift_step(b, nodes[j], pow_mod(nodes[j], before));
    }
    lemma_weighted_sum_linear(
        nodes,
        n,
        factor_power(b, k),
        b,
        factor_power(b, before),
        nb,
        power_of(before),
    );
    lemma_moment(nodes, before);
    let t0 = weighted_sum(nodes, n, factor_power(b, before));
    let m0 = weighted_sum(nodes, n, power_of(before));
    let total = add_mod(mul_mod(b, t0), mul_mod(nb, m0));
    let bi = b as int;
    let gi = g as int;
    let ti = t0 as int;
    let pk = pow_mod(b, before);
    let pki = pk as int;
    lemma_lift_sub(0, 0, b, bi);
    lemma_lift_mul(pk, pki, b, bi);
    lemma_lift_mul(pow_mod(b, k), pki * bi, g, gi);
    lemma_lift_sub(0, 0, mul_mod(pow_mod(b, k), g), (pki * bi) * gi);
    if k == 1 {
        assert forall|j: int| 0 <= j < n implies factor_power(b, 0)(#[trigger] nodes[j])
            == factor_of(b)(nodes[j]) by {
            let f = factor(b, nodes[j]);
            assert(f * 1 == f);
            lemma_small_mod(f, group_order());
        }
        lemma_weighted_sum_agree(nodes, n, factor_power(b, 0), factor_of(b));
        lemma_partition(nodes, b);
        lemma_lift_add(t0, ti, g, gi);
        assert(eqm(ti + gi, 1));
        lemma_eqm_cancel(bi, ti + gi);
        lemma_mul_is_distributive_add(bi, ti, gi);
        lemma_eqm_sub(bi * ti + bi * gi, bi, bi * gi, bi * gi);
        assert(eqm(bi * ti, bi - bi * gi));
        lemma_lift_mul(b, bi, t0, ti);
        lemma_lift_mul(nb, 0 - bi, m0, 1);
        lemma_lift_add(mul_mod(b, t0), bi * ti, mul_mod(nb, m0), (0 - bi) * 1);
        lemma_eqm_add(bi * ti, bi - bi * gi, (0 - bi) * 1, 0 - bi);
        assert(pki == 1);
        assert((1 * bi) * gi == bi * gi);
        lemma_eqm_reduced(total, sub_mod(0, mul_mod(pow_mod(b, k), g)));
    } else {
        lemma_shifted_moment(nodes, b, before);
        lemma_lift_mul(pk, pki, g, gi);
        lemma_lift_sub(0, 0, mul_mod(pk, g), pki * gi);
        lemma_lift_mul(b, bi, t0, 0 - pki * gi);
        lemma_lift_mul(nb, 0 - bi, m0, 0);
        assert((0 - bi) * 0 == 0);
        lemma_lift_add(mul_mod(b, t0), bi * (0 - pki * gi), mul_mod(nb, m0), 0);
        lemma_mul_is_distributive_sub(bi, 0, pki * gi);
        assert(bi * 0 == 0);
        lemma_mul_swap(bi, pki, gi);
        lemma_mul_is_associative(pki, bi, gi);
        lemma_eqm_reduced(total, sub_mod(0, mul_mod(pow_mod(b, k), g)));
    }
}

/// The value at `x` of the polynomial with the coefficients `coeffs`, the
/// constant one first.
pub open spec fn poly_eval(coeffs: Seq<nat>, x: nat) -> nat
    decreases coeffs.len(),
{
    if coeffs.len() == 0 {
        0
    } else {
        add_mod(coeffs[0], mul_mod(x, poly_eval(coeffs.subrange(1, coeffs.len() as int), x)))
    }
}

/// The function that gives each node its `m`-th power times the value of the
/// polynomial at the node.
pub open spec fn shifted_poly(coeffs: Seq<nat>, m: nat) -> spec_fn(nat) -> nat {
    |x: nat| mul_mod(pow_mod(x, m), poly_eval(coeffs, x))
}

/// The value of a polynomial at zero is its constant coefficient.
pub proof fn lemma_poly_eval_at_zero(coeffs: Seq<nat>)
    ensures
        poly_eval(coeffs, 0) == if coeffs.len() == 0 {
            0
        } else {
            coeffs[0] % group_order()
        },
        poly_eval(coeffs, 0) < group_order(),
{
    if coeffs.len() > 0 {
        let rest = poly_eval(coeffs.subrange(1, coeffs.len() as int), 0);
        assert(0 * rest == 0);
        lemma_small_mod(0, group_order());
    }
}

/// The value of a polynomial is a reduced number.
pub proof fn lemma_poly_eval_reduced(coeffs: Seq<nat>, x: nat)
    ensures
        poly_eval(coeffs, x) < group_order(),
{
}

/// Modulo a prime order, the values of a polynomial at distinct nodes, each
/// times the `m`-th power of its node, add up with the Lagrange coefficients
/// to the constant coefficient where `m` is zero, and to zero else, as long
/// as `m` and the number of coefficients together do not exceed the number
/// of nodes.
pub proof fn lemma_interpolation(nodes: Seq<nat>, coeffs: Seq<nat>, m: nat)
    requires
        is_prime(group_order()),
        distinct_nodes(nodes),
        m + coeffs.len() <= nodes.len(),
    ensures
        weighted_sum(nodes, nodes.len(), shifted_poly(coeffs, m)) == if m == 0 && coeffs.len()
            > 0 {
            coeffs[0] % group_order()
        } else {
            0
        },
    decreases coeffs.len(),
{
    let n = nodes.len();
    if coeffs.len() == 0 {
        assert forall|j: int| 0 <= j < n implies shifted_poly(coeffs, m)(#[trigger] nodes[j])
            == add_mod(mul_mod(0, power_of(0)(nodes[j])), mul_mod(0, power_of(0)(nodes[j]))) by {
            let p = pow_mod(nodes[j], m);
            assert(p * 0 == 0);
            assert(0 * power_of(0)(nodes[j]) == 0);
        }
        lemma_weighted_sum_linear(
            nodes,
            n,
            shifted_poly(coeffs, m),
            0,
            power_of(0),
            0,
            power_of(0),
        );
        assert(0 * weighted_sum(nodes, n, power_of(0)) == 0);
    } else {
        let c0 = coeffs[0];
        let rest = coeffs.subrange(1, coeffs.len() as int);
        assert forall|j: int| 0 <= j < n implies shifted_poly(coeffs, m)(#[trigger] nodes[j])
            == add_mod(
            mul_mod(c0, power_of(m)(nodes[j])),
            mul_mod(1, shifted_poly(rest, m + 1)(nodes[j])),
        ) by {
            let x = nodes[j];
            let p = pow_mod(x, m);
            let e = poly_eval(rest, x);
            let ci = c0 as int;
            let xi = x as int;
            let pi = p as int;
            let ei = e as int;
            lemma_lift_mul(x, xi, e, ei);
            lemma_lift_add(c0, ci, mul_mod(x, e), xi * ei);
            lemma_lift_mul(p, pi, poly_eval(coeffs, x), ci + xi * ei);
            lemma_lift_mul(c0, ci, p, pi);
            lemma_lift_mul(p, pi, x, xi);
            lemma_lift_mul(pow_mod(x, m + 1), pi * xi, e, ei);
            lemma_lift_mul(1, 1, shifted_poly(rest, m + 1)(x), (pi * xi) * ei);
            lemma_lift_add(
                mul_mod(c0, p),
                ci * pi,
                mul_mod(1, shifted_poly(rest, m + 1)(x)),
                1 * ((pi * xi) * ei),
            );
            lemma_mul_is_distributive_add(pi, ci, xi * ei);
            lemma_mul_is_commutative(pi, ci);
            lemma_mul_is_associative(pi, xi, ei);
            lemma_eqm_reduced(
                shifted_poly(coeffs, m)(x),
                add_mod(mul_mod(c0, p), mul_mod(1, shifted_poly(rest, m + 1)(x))),
            );
        }
        lemma_weighted_sum_linear(
            nodes,
            n,
            shifted_poly(coeffs, m),
            c0,
            power_of(m),
            1,
            shifted_poly(rest, m + 1),
        );
        lemma_moment(nodes, m);
        lemma_interpolation(nodes, rest, m + 1);
        assert(1nat * 0nat == 0);
        lemma_small_mod(0, group_order());
        if m == 0 {
            assert(c0 * 1 == c0);
            assert((c0 % group_order() + 0) % group_order() == c0 % group_order()) by {
                lemma_mod_twice(c0 as int, group_order() as int);
            }
        } else {
            assert(c0 * 0 == 0);
        }
    }
}

} // verus!
