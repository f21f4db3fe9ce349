//! Congruences modulo the group order, and the inverses that a prime order
//! gives. The proofs of the laws of the scalar field rest on these lemmas.
use crate::field::{add_mod, div_mod, group_order, inv_mod, is_inverse, mul_mod, sub_mod};
use vstd::arithmetic::div_mod::{
    lemma_add_mod_noop, lemma_fundamental_div_mod, lemma_mod_bound, lemma_mod_multiples_vanish,
    lemma_mul_mod_noop_general, lemma_small_mod, lemma_sub_mod_noop,
};
use vstd::arithmetic::mul::{
    lemma_mul_is_associative, lemma_mul_is_commutative, lemma_mul_is_distributive_sub_other_way,
};
use vstd::prelude::*;

verus! {

/// Whether `a` and `b` leave the same remainder modulo the group order.
pub open spec fn eqm(a: int, b: int) -> bool {
    a % (group_order() as int) == b % (group_order() as int)
}

/// Whether `n` is a prime number.
pub open spec fn is_prime(n: nat) -> bool {
    &&& n > 1
    &&& forall|d: nat| 1 < d < n ==> #[trigger] (n % d) != 0
}

/// Sums of congruent numbers are congruent.
pub proof fn lemma_eqm_add(a: int, a2: int, b: int, b2: int)
    requires
        eqm(a, a2),
        eqm(b, b2),
    ensures
        eqm(a + b, a2 + b2),
{
    let m = group_order() as int;
    lemma_add_mod_noop(a, b, m);
    lemma_add_mod_noop(a2, b2, m);
}

/// Differences of congruent numbers are congruent.
pub proof fn lemma_eqm_sub(a: int, a2: int, b: int, b2: int)
    requires
        eqm(a, a2),
        eqm(b, b2),
    ensures
        eqm(a - b, a2 - b2),
{
    let m = group_order() as int;
    lemma_sub_mod_noop(a, b, m);
    lemma_sub_mod_noop(a2, b2, m);
}

/// Products of congruent numbers are congruent.
pub proof fn lemma_eqm_mul(a: int, a2: int, b: int, b2: int)
    requires
        eqm(a, a2),
        eqm(b, b2),
    ensures
        eqm(a * b, a2 * b2),
{
    let m = group_order() as int;
    lemma_mul_mod_noop_general(a, b, m);
    lemma_mul_mod_noop_general(a2, b2, m);
}

/// A multiple of a number that is congruent to zero is congruent to zero.
pub proof fn lemma_eqm_multiple(c: int, r: int)
    requires
        eqm(r, 0),
    ensures
        eqm(c * r, 0),
{
    lemma_eqm_mul(c, c, r, 0);
    assert(c * 0 == 0);
}

/// Two reduced numbers that are congruent are equal.
pub proof fn lemma_eqm_reduced(a: nat, b: nat)
    requires
        a < group_order(),
        b < group_order(),
        eqm(a as int, b as int),
    ensures
        a == b,
{
    lemma_small_mod(a, group_order());
    lemma_small_mod(b, group_order());
}

/// The sum of two scalars is congruent to the sum of numbers congruent to
/// them.
pub proof fn lemma_lift_add(a: nat, ai: int, b: nat, bi: int)
    requires
        eqm(a as int, ai),
        eqm(b as int, bi),
    ensures
        eqm(add_mod(a, b) as int, ai + bi),
        add_mod(a, b) < group_order(),
{
    let m = group_order() as int;
    lemma_eqm_add(a as int, ai, b as int, bi);
    assert(add_mod(a, b) as int == (a as int + b as int) % m);
    assert(((a as int + b as int) % m) % m == (a as int + b as int) % m);
}

/// The difference of two scalars is congruent to the difference of numbers
/// congruent to them.
pub proof fn lemma_lift_sub(a: nat, ai: int, b: nat, bi: int)
    requires
        eqm(a as int, ai),
        eqm(b as int, bi),
    ensures
        eqm(sub_mod(a, b) as int, ai - bi),
        sub_mod(a, b) < group_order(),
{
    let m = group_order() as int;
    let x = (a as int) % m + m - (b as int) % m;
    assert(sub_mod(a, b) as int == x % m);
    lemma_sub_mod_noop(a as int, b as int, m);
    lemma_mod_multiples_vanish(1, (a as int) % m - (b as int) % m, m);
    assert(x == m * 1 + ((a as int) % m - (b as int) % m));
    assert(x % m == (a as int - b as int) % m);
    lemma_eqm_sub(a as int, ai, b as int, bi);
    assert((x % m) % m == x % m);
}

/// The product of two scalars is congruent to the product of numbers
/// congruent to them.
pub proof fn lemma_lift_mul(a: nat, ai: int, b: nat, bi: int)
    requires
        eqm(a as int, ai),
        eqm(b as int, bi),
    ensures
        eqm(mul_mod(a, b) as int, ai * bi),
        mul_mod(a, b) < group_order(),
{
    let m = group_order() as int;
    lemma_eqm_mul(a as int, ai, b as int, bi);
    assert(mul_mod(a, b) as int == ((a as int) * (b as int)) % m);
    assert((((a as int) * (b as int)) % m) % m == ((a as int) * (b as int)) % m);
}

/// Modulo a prime order every scalar but zero has an inverse.
pub proof fn lemma_inverse_exists(a: nat)
    requires
        is_prime(group_order()),
        0 < a < group_order(),
    ensures
        exists|q: nat| is_inverse(a, q),
    decreases a,
{
    let n = group_order();
    let m = n as int;
    if a == 1 {
        assert((1nat * 1nat) % n == 1);
        assert(is_inverse(a, 1));
    } else {
        assert(n % a != 0);
        let k = n / a + 1;
        lemma_fundamental_div_mod(m, a as int);
        assert(m == (a as int) * (m / (a as int)) + m % (a as int));
        let a2 = (a - n % a) as nat;
        assert(0 < n % a < a) by {
            lemma_mod_bound(m, a as int);
        }
        assert(a * k == a * (n / a) + a) by (nonlinear_arith)
            requires
                k == n / a + 1,
        ;
        assert(a2 as int == (a as int) * (k as int) - m);
        lemma_inverse_exists(a2);
        let q2 = choose|q: nat| is_inverse(a2, q);
        let q = (q2 * k) % n;
        // q * a is congruent to q2 * k * a = q2 * (a2 + n), hence to q2 * a2.
        lemma_eqm_mul(q as int, (q2 * k) as int, a as int, a as int);
        assert((q2 * k) * a == q2 * a2 + q2 * n) by (nonlinear_arith)
            requires
                a2 == a * k - n,
        ;
        assert(eqm((q2 * n) as int, 0)) by {
            lemma_eqm_multiple(q2 as int, m);
        }
        lemma_eqm_add((q2 * a2) as int, (q2 * a2) as int, (q2 * n) as int, 0);
        assert(eqm((q * a) as int, (q2 * a2) as int));
        assert(is_inverse(a, q));
    }
}

/// Modulo a prime order the inverse of a scalar other than zero is an
/// inverse indeed.
pub proof fn lemma_inv_mod(a: nat)
    requires
        is_prime(group_order()),
        0 < a < group_order(),
    ensures
        is_inverse(a, inv_mod(a)),
        eqm((inv_mod(a) * a) as int, 1),
{
    lemma_inverse_exists(a);
}

/// A quotient is congruent to the product of a number congruent to the
/// dividend and the inverse of the divisor.
pub proof fn lemma_lift_div(a: nat, ai: int, d: nat)
    requires
        eqm(a as int, ai),
    ensures
        eqm(div_mod(a, d) as int, ai * inv_mod(d)),
        div_mod(a, d) < group_order(),
{
    lemma_lift_mul(a, ai, inv_mod(d), inv_mod(d) as int);
}

/// The difference of two distinct reduced numbers is not zero.
pub proof fn lemma_sub_mod_nonzero(a: nat, b: nat)
    requires
        a < group_order(),
        b < group_order(),
        a != b,
    ensures
        0 < sub_mod(a, b) < group_order(),
{
    let n = group_order();
    lemma_small_mod(a, n);
    lemma_small_mod(b, n);
    if a > b {
        lemma_small_mod((a - b) as nat, n);
        lemma_mod_multiples_vanish(1, a - b, n as int);
    } else {
        lemma_small_mod((a + n - b) as nat, n);
    }
}

/// A product of three numbers with its first two factors exchanged.
pub proof fn lemma_mul_swap(a: int, b: int, c: int)
    ensures
        a * (b * c) == b * (a * c),
{
    lemma_mul_is_associative(a, b, c);
    lemma_mul_is_associative(b, a, c);
    lemma_mul_is_commutative(a, b);
}

/// A product of two products with the inner factors exchanged.
pub proof fn lemma_mul_four_inner(a: int, b: int, c: int, d: int)
    ensures
        (a * b) * (c * d) == (a * c) * (b * d),
{
    lemma_mul_is_associative(a, b, c * d);
    lemma_mul_swap(b, c, d);
    lemma_mul_is_associative(a, c, b * d);
}

/// A product of two products with the first factors exchanged.
pub proof fn lemma_mul_four_outer(a: int, b: int, c: int, d: int)
    ensures
        (a * b) * (c * d) == (c * b) * (a * d),
{
    lemma_mul_is_commutative(a, b);
    lemma_mul_is_commutative(c, b);
    lemma_mul_is_associative(b, a, c * d);
    lemma_mul_swap(a, c, d);
    lemma_mul_is_associative(b, c, a * d);
}

/// The product of a negated number.
pub proof fn lemma_mul_negated(a: int, b: int)
    ensures
        (0 - a) * b == 0 - a * b,
{
    lemma_mul_is_distributive_sub_other_way(b, 0, a);
    assert(0 * b == 0);
}

/// A number times something congruent to one is congruent to the number.
pub proof fn lemma_eqm_cancel(t: int, r: int)
    requires
        eqm(r, 1),
    ensures
        eqm(t * r, t),
{
    lemma_eqm_mul(t, t, r, 1);
    assert(t * 1 == t);
}

} // verus!
