use vstd::prelude::*;
use vstd::arithmetic::power::pow;
use vstd::arithmetic::div_mod::{lemma_mul_mod_noop, lemma_mul_mod_noop_right, lemma_sub_mod_noop};
use vstd::arithmetic::mul::{lemma_mul_is_distributive_add, lemma_mul_is_distributive_sub, lemma_mul_is_distributive_sub_other_way, lemma_mul_is_commutative};

verus! {

/// The Lucas sequence `U_k(P, Q)`: `U_0 = 0`, `U_1 = 1`, `U_{k+2} = P U_{k+1} - Q U_k`.
pub open spec fn lucas_u(p: int, q: int, k: nat) -> int
    decreases k,
{
    if k == 0 {
        0
    } else if k == 1 {
        1
    } else {
        p * lucas_u(p, q, (k - 1) as nat) - q * lucas_u(p, q, (k - 2) as nat)
    }
}

/// The companion Lucas sequence `V_k(P, Q)`: `V_0 = 2`, `V_1 = P`, `V_{k+2} = P V_{k+1} - Q V_k`.
pub open spec fn lucas_v(p: int, q: int, k: nat) -> int
    decreases k,
{
    if k == 0 {
        2
    } else if k == 1 {
        p
    } else {
        p * lucas_v(p, q, (k - 1) as nat) - q * lucas_v(p, q, (k - 2) as nat)
    }
}

/// Single steps: `2 U_{k+1} = P U_k + V_k` and `2 V_{k+1} = D U_k + P V_k`, `D = P^2 - 4Q`.
pub proof fn lemma_lucas_step(p: int, q: int, k: nat)
    ensures
        2 * lucas_u(p, q, k + 1) == p * lucas_u(p, q, k) + 1 * lucas_v(p, q, k),
        2 * lucas_v(p, q, k + 1) == (p * p - 4 * q) * lucas_u(p, q, k) + p * lucas_v(p, q, k),
    decreases k,
{
    let d = p * p - 4 * q;
    if k == 0 {
        assert(lucas_u(p, q, 1) == 1);
        assert(lucas_v(p, q, 1) == p);
        assert(p * 0 == 0 && d * 0 == 0 && p * 2 == 2 * p) by (nonlinear_arith);
    } else if k == 1 {
        assert(lucas_u(p, q, 1) == 1 && lucas_u(p, q, 0) == 0);
        assert(lucas_v(p, q, 1) == p && lucas_v(p, q, 0) == 2);
        assert(lucas_u(p, q, 2) == p * 1 - q * 0);
        assert(lucas_v(p, q, 2) == p * p - q * 2);
        assert(2 * (p * 1 - q * 0) == p * 1 + 1 * p && 2 * (p * p - q * 2) == d * 1 + p * p) by (nonlinear_arith)
            requires
                d == p * p - 4 * q,
        ;
    } else {
        lemma_lucas_step(p, q, (k - 1) as nat);
        lemma_lucas_step(p, q, (k - 2) as nat);
        let u0 = lucas_u(p, q, (k - 2) as nat);
        let u1 = lucas_u(p, q, (k - 1) as nat);
        let u2 = lucas_u(p, q, k);
        let u3 = lucas_u(p, q, k + 1);
        let v0 = lucas_v(p, q, (k - 2) as nat);
        let v1 = lucas_v(p, q, (k - 1) as nat);
        let v2 = lucas_v(p, q, k);
        let v3 = lucas_v(p, q, k + 1);
        assert(u3 == p * u2 - q * u1);
        assert(v3 == p * v2 - q * v1);
        assert(u2 == p * u1 - q * u0);
        assert(v2 == p * v1 - q * v0);
        lemma_scale_combination(p, q, u2, u1);
        lemma_scale_combination(p, q, v2, v1);
        lemma_regroup(p, q, p, u1, u0, 1, v1, v0, 2 * u2, 2 * u1);
        lemma_regroup(p, q, d, u1, u0, p, v1, v0, 2 * v2, 2 * v1);
    }
}

/// Addition: `2 U_{m+n} = U_m V_n + V_m U_n` and `2 V_{m+n} = V_m V_n + D U_m U_n`.
pub proof fn lemma_lucas_add(p: int, q: int, m: nat, n: nat)
    ensures
        2 * lucas_u(p, q, m + n) == lucas_u(p, q, m) * lucas_v(p, q, n) + lucas_v(p, q, m) * lucas_u(p, q, n),
        2 * lucas_v(p, q, m + n) == lucas_v(p, q, m) * lucas_v(p, q, n) + (p * p - 4 * q) * lucas_u(p, q, m) * lucas_u(p, q, n),
    decreases n,
{
    let um = lucas_u(p, q, m);
    let vm = lucas_v(p, q, m);
    let d = p * p - 4 * q;
    if n == 0 {
        assert(um * 2 + vm * 0 == 2 * um && vm * 2 + d * um * 0 == 2 * vm) by (nonlinear_arith);
    } else if n == 1 {
        lemma_lucas_step(p, q, m);
        assert(lucas_u(p, q, 1) == 1);
        assert(lucas_v(p, q, 1) == p);
        assert(um * p + vm * 1 == p * um + 1 * vm && vm * p + d * um * 1 == d * um + p * vm) by (nonlinear_arith);
    } else {
        lemma_lucas_add(p, q, m, (n - 1) as nat);
        lemma_lucas_add(p, q, m, (n - 2) as nat);
        let a0 = lucas_u(p, q, (n - 2) as nat);
        let a1 = lucas_u(p, q, (n - 1) as nat);
        let a2 = lucas_u(p, q, n);
        let b0 = lucas_v(p, q, (n - 2) as nat);
        let b1 = lucas_v(p, q, (n - 1) as nat);
        let b2 = lucas_v(p, q, n);
        let s0 = lucas_u(p, q, (m + n - 2) as nat);
        let s1 = lucas_u(p, q, (m + n - 1) as nat);
        let s2 = lucas_u(p, q, m + n);
        let t0 = lucas_v(p, q, (m + n - 2) as nat);
        let t1 = lucas_v(p, q, (m + n - 1) as nat);
        let t2 = lucas_v(p, q, m + n);
        assert((m + n - 1) as nat == m + (n - 1) as nat);
        assert((m + n - 2) as nat == m + (n - 2) as nat);
        assert(s2 == p * s1 - q * s0);
        assert(t2 == p * t1 - q * t0);
        assert(a2 == p * a1 - q * a0);
        assert(b2 == p * b1 - q * b0);
        lemma_scale_combination(p, q, s1, s0);
        lemma_scale_combination(p, q, t1, t0);
        lemma_regroup(p, q, um, b1, b0, vm, a1, a0, 2 * s1, 2 * s0);
        lemma_regroup(p, q, vm, b1, b0, d * um, a1, a0, 2 * t1, 2 * t0);
    }
}

/// `V_k^2 - D U_k^2 = 4 Q^k`.
pub proof fn lemma_lucas_norm(p: int, q: int, k: nat)
    ensures
        lucas_v(p, q, k) * lucas_v(p, q, k) - (p * p - 4 * q) * lucas_u(p, q, k) * lucas_u(p, q, k) == 4 * pow(q, k),
    decreases k,
{
    let d = p * p - 4 * q;
    if k == 0 {
        vstd::arithmetic::power::lemma_pow0(q);
        assert(2 * 2 - d * 0 * 0 == 4) by (nonlinear_arith);
    } else {
        let j = (k - 1) as nat;
        lemma_lucas_norm(p, q, j);
        lemma_lucas_step(p, q, j);
        let u = lucas_u(p, q, j);
        let v = lucas_v(p, q, j);
        let u1 = lucas_u(p, q, k);
        let v1 = lucas_v(p, q, k);
        let pj = pow(q, j);
        assert(pow(q, k) == q * pj) by {
            vstd::arithmetic::power::lemma_pow_adds(q, 1, j);
            vstd::arithmetic::power::lemma_pow1(q);
        }
        assert(j + 1 == k);
        lemma_norm_identity(p, d, u, v, 2 * v1, 2 * u1);
        lemma_quadruple(v1, u1, d);
        assert(p * p - d == 4 * q);
        assert((4 * q) * (4 * pj) == 16 * (q * pj)) by (nonlinear_arith);
    }
}

/// Doubling: `U_{2k} = U_k V_k` and `V_{2k} = V_k^2 - 2 Q^k`.
pub proof fn lemma_lucas_double(p: int, q: int, k: nat)
    ensures
        lucas_u(p, q, 2 * k) == lucas_u(p, q, k) * lucas_v(p, q, k),
        lucas_v(p, q, 2 * k) == lucas_v(p, q, k) * lucas_v(p, q, k) - 2 * pow(q, k),
{
    lemma_lucas_add(p, q, k, k);
    lemma_lucas_norm(p, q, k);
    assert(k + k == 2 * k);
}

/// The sequences modulo `n` depend on `Q` modulo `n` only.
pub proof fn lemma_lucas_congruent(p: int, q1: int, q2: int, n: int, k: nat)
    requires
        n > 0,
        q1 % n == q2 % n,
    ensures
        lucas_u(p, q1, k) % n == lucas_u(p, q2, k) % n,
        lucas_v(p, q1, k) % n == lucas_v(p, q2, k) % n,
    decreases k,
{
    if k >= 2 {
        let a = (k - 1) as nat;
        let b = (k - 2) as nat;
        lemma_lucas_congruent(p, q1, q2, n, a);
        lemma_lucas_congruent(p, q1, q2, n, b);
        lemma_combination_congruent(p, lucas_u(p, q1, a), lucas_u(p, q2, a), q1, q2, lucas_u(p, q1, b), lucas_u(p, q2, b), n);
        lemma_combination_congruent(p, lucas_v(p, q1, a), lucas_v(p, q2, a), q1, q2, lucas_v(p, q1, b), lucas_v(p, q2, b), n);
    }
}

proof fn lemma_scale_combination(p: int, q: int, x1: int, x0: int)
    ensures
        2 * (p * x1 - q * x0) == p * (2 * x1) - q * (2 * x0),
{
    assert(2 * (p * x1 - q * x0) == p * (2 * x1) - q * (2 * x0)) by (nonlinear_arith);
}

proof fn lemma_swap_factors(a: int, b: int, c: int)
    ensures
        a * (b * c) == b * (a * c),
{
    assert(a * (b * c) == b * (a * c)) by (nonlinear_arith);
}

/// `P A1 - Q A0` regrouped, where `A1 = x y1 + z w1` and `A0 = x y0 + z w0`.
proof fn lemma_regroup(p: int, q: int, x: int, y1: int, y0: int, z: int, w1: int, w0: int, a1: int, a0: int)
    requires
        a1 == x * y1 + z * w1,
        a0 == x * y0 + z * w0,
    ensures
        p * a1 - q * a0 == x * (p * y1 - q * y0) + z * (p * w1 - q * w0),
{
    lemma_mul_is_distributive_add(p, x * y1, z * w1);
    lemma_mul_is_distributive_add(q, x * y0, z * w0);
    lemma_mul_is_distributive_sub(x, p * y1, q * y0);
    lemma_mul_is_distributive_sub(z, p * w1, q * w0);
    lemma_swap_factors(p, x, y1);
    lemma_swap_factors(p, z, w1);
    lemma_swap_factors(q, x, y0);
    lemma_swap_factors(q, z, w0);
}

proof fn lemma_square_sum(a: int, b: int)
    ensures
        (a + b) * (a + b) == a * a + 2 * (a * b) + b * b,
{
    assert((a + b) * (a + b) == a * a + 2 * (a * b) + b * b) by (nonlinear_arith);
}

proof fn lemma_pair_product(a: int, b: int, c: int, e: int)
    ensures
        (a * b) * (c * e) == (a * c) * (b * e),
{
    assert((a * b) * (c * e) == (a * c) * (b * e)) by (nonlinear_arith);
}

/// `X^2 - D Y^2 = (P^2 - D)(V^2 - D U^2)` for `X = D U + P V` and `Y = P U + V`.
proof fn lemma_norm_identity(p: int, d: int, u: int, v: int, x: int, y: int)
    requires
        x == d * u + p * v,
        y == p * u + 1 * v,
    ensures
        x * x - d * y * y == (p * p - d) * (v * v - d * u * u),
{
    let aa = u * u;
    let bb = v * v;
    let cc = u * v;
    lemma_square_sum(d * u, p * v);
    lemma_pair_product(d, u, d, u);
    lemma_pair_product(d, u, p, v);
    lemma_pair_product(p, v, p, v);
    assert(x * x == (d * d) * aa + 2 * ((d * p) * cc) + (p * p) * bb);
    lemma_square_sum(p * u, v);
    lemma_pair_product(p, u, p, u);
    assert((p * u) * v == p * (u * v)) by (nonlinear_arith);
    assert(y * y == (p * p) * aa + 2 * (p * cc) + bb);
    assert(d * y * y == d * (y * y)) by (nonlinear_arith);
    lemma_mul_is_distributive_add(d, (p * p) * aa + 2 * (p * cc), bb);
    lemma_mul_is_distributive_add(d, (p * p) * aa, 2 * (p * cc));
    assert(d * ((p * p) * aa) == (d * (p * p)) * aa) by (nonlinear_arith);
    assert(d * (2 * (p * cc)) == 2 * ((d * p) * cc)) by (nonlinear_arith);
    assert(d * y * y == (d * (p * p)) * aa + 2 * ((d * p) * cc) + d * bb);
    lemma_mul_is_distributive_sub(p * p - d, bb, d * u * u);
    assert(d * u * u == d * (u * u)) by (nonlinear_arith);
    lemma_mul_is_distributive_sub_other_way(bb, p * p, d);
    lemma_mul_is_distributive_sub_other_way(d * aa, p * p, d);
    assert((p * p) * (d * aa) == (d * (p * p)) * aa) by (nonlinear_arith);
    assert(d * (d * aa) == (d * d) * aa) by (nonlinear_arith);
    lemma_mul_is_commutative(p * p, bb);
    lemma_mul_is_commutative(d, bb);
}

proof fn lemma_quadruple(v: int, u: int, d: int)
    ensures
        (2 * v) * (2 * v) - d * (2 * u) * (2 * u) == 4 * (v * v - d * u * u),
{
    assert((2 * v) * (2 * v) == 4 * (v * v)) by (nonlinear_arith);
    assert(d * (2 * u) * (2 * u) == 4 * (d * u * u)) by (nonlinear_arith);
}

proof fn lemma_combination_congruent(p: int, a1: int, a2: int, q1: int, q2: int, b1: int, b2: int, n: int)
    requires
        n > 0,
        a1 % n == a2 % n,
        q1 % n == q2 % n,
        b1 % n == b2 % n,
    ensures
        (p * a1 - q1 * b1) % n == (p * a2 - q2 * b2) % n,
{
    lemma_mul_mod_noop_right(p, a1, n);
    lemma_mul_mod_noop_right(p, a2, n);
    lemma_mul_mod_noop(q1, b1, n);
    lemma_mul_mod_noop(q2, b2, n);
    lemma_sub_mod_noop(p * a1, q1 * b1, n);
    lemma_sub_mod_noop(p * a2, q2 * b2, n);
}

} // verus!
