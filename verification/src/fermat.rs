use vstd::prelude::*;
use vstd::arithmetic::div_mod::{
    lemma_fundamental_div_mod, lemma_mod_multiples_basic, lemma_mul_mod_noop, lemma_sub_mod_noop,
    lemma_small_mod, lemma_mod_twice, lemma_add_mod_noop, lemma_mod_multiples_vanish,
};
use vstd::arithmetic::power::pow;
use vstd::arithmetic::mul::lemma_mul_is_commutative;

verus! {

/// `p` is a prime number.
pub open spec fn is_prime(p: int) -> bool {
    &&& p >= 2
    &&& forall|d: int| 2 <= d < p ==> #[trigger] (p % d) != 0
}

/// Greatest common divisor by Euclid's algorithm.
pub open spec fn gcd(a: nat, b: nat) -> nat
    decreases b,
{
    if b == 0 {
        a
    } else {
        gcd(b, a % b)
    }
}

/// The greatest common divisor divides both numbers.
proof fn lemma_gcd_divides(a: nat, b: nat)
    requires
        a > 0 || b > 0,
    ensures
        gcd(a, b) > 0,
        a % gcd(a, b) == 0,
        b % gcd(a, b) == 0,
    decreases b,
{
    if b == 0 {
        lemma_mod_self(a as int);
        lemma_small_mod(0, a);
    } else {
        lemma_gcd_divides(b, a % b);
        let g = gcd(b, a % b);
        lemma_fundamental_div_mod(a as int, b as int);
        let q = (a / b) as int;
        let r = (a % b) as int;
        assert(a == b * q + r);
        lemma_divides_combination(b as int, r, q, g as int);
    }
}

proof fn lemma_mod_self(a: int)
    requires
        a > 0,
    ensures
        a % a == 0,
{
    lemma_mod_multiples_basic(1, a);
}

/// If `g` divides `b` and `r`, it divides `b * q + r`.
proof fn lemma_divides_combination(b: int, r: int, q: int, g: int)
    requires
        g > 0,
        b % g == 0,
        r % g == 0,
    ensures
        (b * q + r) % g == 0,
{
    lemma_fundamental_div_mod(b, g);
    lemma_fundamental_div_mod(r, g);
    let bb = b / g;
    let rr = r / g;
    assert(b * q + r == g * (bb * q + rr)) by (nonlinear_arith)
        requires
            b == g * bb,
            r == g * rr,
    ;
    lemma_mod_multiples_basic(bb * q + rr, g);
    assert((bb * q + rr) * g == g * (bb * q + rr)) by (nonlinear_arith);
}

/// If `p` divides `x * c` and `y * c`, it divides `gcd(x, y) * c`.
proof fn lemma_gcd_multiple(x: nat, y: nat, c: int, p: int)
    requires
        p > 0,
        (x * c) % p == 0,
        (y * c) % p == 0,
    ensures
        (gcd(x, y) * c) % p == 0,
    decreases y,
{
    if y > 0 {
        lemma_fundamental_div_mod(x as int, y as int);
        let q = (x / y) as int;
        let r = (x % y) as int;
        assert(r * c == x * c - q * (y * c)) by (nonlinear_arith)
            requires
                x == y * q + r,
        ;
        lemma_fundamental_div_mod(y * c, p);
        let t = (y * c) / p;
        assert(q * (y * c) == p * (q * t)) by (nonlinear_arith)
            requires
                y * c == p * t + 0,
        ;
        lemma_mod_sub_multiples_vanish_general(x * c, q * t, p);
        lemma_gcd_multiple(y, (x % y) as nat, c, p);
    }
}

proof fn lemma_mod_sub_multiples_vanish_general(a: int, k: int, p: int)
    requires
        p > 0,
    ensures
        (a - p * k) % p == a % p,
{
    lemma_mul_is_commutative(p, k);
    lemma_mod_multiples_basic(k, p);
    lemma_sub_mod_noop(a, p * k, p);
    lemma_mod_twice(a, p);
    lemma_small_mod(0, p as nat);
}

/// Euclid's lemma: a prime dividing a product divides one of the factors.
pub proof fn lemma_euclid(p: int, a: int, b: int)
    requires
        is_prime(p),
        a >= 0,
        (a * b) % p == 0,
        a % p != 0,
    ensures
        b % p == 0,
{
    let g = gcd(a as nat, p as nat);
    lemma_gcd_divides(a as nat, p as nat);
    assert(g == 1) by {
        if g != 1 {
            assert(g >= 2);
            assert(g <= p) by {
                if g > p {
                    lemma_small_mod(p as nat, g);
                }
            }
            if g == p {
                assert(a % p == 0);
            } else {
                assert(p % (g as int) != 0);
            }
        }
    }
    lemma_mod_multiples_basic(b, p);
    assert(b * p == p * b) by (nonlinear_arith);
    lemma_gcd_multiple(a as nat, p as nat, b, p);
    assert(1 * b == b);
}

/// `b^(e+1) = b * b^e`.
proof fn lemma_pow_succ(b: int, e: nat)
    ensures
        pow(b, e + 1) == b * pow(b, e),
{
    reveal(pow);
    assert((e + 1) as nat - 1 == e);
}

/// Binomial coefficient `C(n, k)` by Pascal's rule, `0` outside `0 <= k <= n`.
pub open spec fn binom(n: nat, k: int) -> int
    decreases n,
{
    if k < 0 {
        0
    } else if k == 0 {
        1
    } else if n == 0 {
        0
    } else {
        binom((n - 1) as nat, k - 1) + binom((n - 1) as nat, k)
    }
}

proof fn lemma_pascal(n: nat, k: int)
    requires
        n >= 1,
    ensures
        binom(n, k) == binom((n - 1) as nat, k - 1) + binom((n - 1) as nat, k),
{
    if k == 0 {
        assert(binom((n - 1) as nat, -1) == 0);
        assert(binom((n - 1) as nat, 0) == 1);
    }
}

proof fn lemma_binom_above(n: nat, k: int)
    requires
        k > n,
    ensures
        binom(n, k) == 0,
    decreases n,
{
    if n > 0 {
        lemma_binom_above((n - 1) as nat, k - 1);
        lemma_binom_above((n - 1) as nat, k);
    }
}

proof fn lemma_binom_top(n: nat)
    ensures
        binom(n, n as int) == 1,
    decreases n,
{
    if n > 0 {
        lemma_binom_top((n - 1) as nat);
        lemma_binom_above((n - 1) as nat, n as int);
    }
}

/// Absorption: `k C(n, k) = n C(n - 1, k - 1)`.
proof fn lemma_binom_absorb(n: nat, k: int)
    requires
        n >= 1,
        k >= 1,
    ensures
        k * binom(n, k) == n * binom((n - 1) as nat, k - 1),
    decreases n,
{
    if n == 1 {
        if k == 1 {
            assert(binom(1, 1) == binom(0, 0) + binom(0, 1));
        } else {
            lemma_binom_above(1, k);
            lemma_binom_above(0, k - 1);
        }
    } else {
        let a = binom((n - 1) as nat, k - 1);
        let b = binom((n - 1) as nat, k);
        let c = binom((n - 2) as nat, k - 2);
        let e = binom((n - 2) as nat, k - 1);
        lemma_pascal(n, k);
        lemma_pascal((n - 1) as nat, k - 1);
        lemma_binom_absorb((n - 1) as nat, k);
        if k >= 2 {
            lemma_binom_absorb((n - 1) as nat, k - 1);
        } else {
            assert(c == 0);
        }
        assert((k - 1) * a == (n - 1) * c);
        assert(k * b == (n - 1) * e);
        assert(k * (a + b) == n * a) by (nonlinear_arith)
            requires
                a == c + e,
                k * b == (n - 1) * e,
                (k - 1) * a == (n - 1) * c,
        ;
    }
}

/// A prime divides the binomial coefficients `C(p, k)` with `0 < k < p`.
pub proof fn lemma_prime_divides_binom(p: int, k: int)
    requires
        is_prime(p),
        0 < k < p,
    ensures
        binom(p as nat, k) % p == 0,
{
    lemma_binom_absorb(p as nat, k);
    let t = binom((p - 1) as nat, k - 1);
    lemma_mod_multiples_basic(t, p);
    assert(t * p == p * t) by (nonlinear_arith);
    lemma_small_mod(k as nat, p as nat);
    lemma_euclid(p, k, binom(p as nat, k));
}

/// `sum_{j < k} C(n, j) a^j`.
pub open spec fn binom_sum(n: nat, a: int, k: nat) -> int
    decreases k,
{
    if k == 0 {
        0
    } else {
        binom_sum(n, a, (k - 1) as nat) + binom(n, k - 1) * pow(a, (k - 1) as nat)
    }
}

proof fn lemma_binom_sum_shift(n: nat, a: int, k: nat)
    ensures
        binom_sum(n + 1, a, k + 1) == a * binom_sum(n, a, k) + binom_sum(n, a, k + 1),
    decreases k,
{
    if k == 0 {
        assert(binom_sum(n + 1, a, 1) == binom_sum(n + 1, a, 0) + binom(n + 1, 0) * pow(a, 0));
        assert(binom_sum(n, a, 1) == binom_sum(n, a, 0) + binom(n, 0) * pow(a, 0));
    } else {
        lemma_binom_sum_shift(n, a, (k - 1) as nat);
        lemma_pascal(n + 1, k as int);
        lemma_pow_succ(a, (k - 1) as nat);
        let sk1 = binom_sum(n, a, (k - 1) as nat);
        let sk = binom_sum(n, a, k);
        let ck1 = binom(n, k - 1);
        let ck = binom(n, k as int);
        let pk1 = pow(a, (k - 1) as nat);
        let pk = pow(a, k);
        assert(sk == sk1 + ck1 * pk1);
        assert(binom_sum(n, a, k + 1) == sk + ck * pk);
        assert(binom_sum(n + 1, a, k + 1) == binom_sum(n + 1, a, k) + binom(n + 1, k as int) * pk);
        assert(binom(n + 1, k as int) == ck1 + ck);
        assert(a * sk1 + sk + (ck1 + ck) * pk == a * sk + (sk + ck * pk)) by (nonlinear_arith)
            requires
                sk == sk1 + ck1 * pk1,
                pk == a * pk1,
        ;
    }
}

/// The binomial theorem for `(a + 1)^n`.
pub proof fn lemma_binomial_theorem(a: int, n: nat)
    ensures
        pow(a + 1, n) == binom_sum(n, a, n + 1),
    decreases n,
{
    if n == 0 {
        reveal(pow);
        assert(binom_sum(0, a, 1) == binom_sum(0, a, 0) + binom(0, 0) * pow(a, 0));
    } else {
        let m = (n - 1) as nat;
        lemma_binomial_theorem(a, m);
        lemma_pow_succ(a + 1, m);
        lemma_binom_sum_shift(m, a, m + 1);
        lemma_binom_above(m, (m + 1) as int);
        assert(binom_sum(m, a, m + 2) == binom_sum(m, a, m + 1) + binom(m, (m + 1) as int) * pow(a, m + 1));
        let t = binom_sum(m, a, m + 1);
        assert((a + 1) * t == a * t + t) by (nonlinear_arith);
        assert(m + 1 == n);
    }
}

/// The inner terms of `(a + 1)^p` vanish modulo a prime `p`.
proof fn lemma_binom_sum_mod_prime(p: int, a: int, k: nat)
    requires
        is_prime(p),
        1 <= k <= p,
    ensures
        binom_sum(p as nat, a, k) % p == 1,
    decreases k,
{
    if k == 1 {
        reveal(pow);
        assert(binom_sum(p as nat, a, 1) == binom_sum(p as nat, a, 0) + binom(p as nat, 0) * pow(a, 0));
        lemma_small_mod(1, p as nat);
    } else {
        lemma_binom_sum_mod_prime(p, a, (k - 1) as nat);
        let j = k - 1;
        lemma_prime_divides_binom(p, j);
        let c = binom(p as nat, j);
        let x = pow(a, j as nat);
        lemma_mul_mod_noop(c, x, p);
        lemma_small_mod(0, p as nat);
        assert((c % p) * (x % p) == 0);
        lemma_add_mod_noop(binom_sum(p as nat, a, (k - 1) as nat), c * x, p);
        lemma_small_mod(1, p as nat);
    }
}

/// Fermat's little theorem: `a^p = a (mod p)` for a prime `p` and `a >= 0`.
pub proof fn lemma_fermat(p: int, a: int)
    requires
        is_prime(p),
        a >= 0,
    ensures
        pow(a, p as nat) % p == a % p,
    decreases a,
{
    if a == 0 {
        lemma_pow_succ(0, (p - 1) as nat);
        assert(((p - 1) as nat + 1) as nat == p as nat);
        assert(pow(0, p as nat) == 0);
        lemma_small_mod(0, p as nat);
    } else {
        let b = a - 1;
        lemma_fermat(p, b);
        lemma_binomial_theorem(b, p as nat);
        lemma_binom_top(p as nat);
        let inner = binom_sum(p as nat, b, p as nat);
        let pb = pow(b, p as nat);
        assert(binom_sum(p as nat, b, (p + 1) as nat) == inner + binom(p as nat, p) * pb);
        assert(pow(a, p as nat) == inner + pb);
        lemma_binom_sum_mod_prime(p, b, p as nat);
        lemma_add_mod_noop(inner, pb, p);
        assert((inner + pb) % p == (1 + b % p) % p);
        lemma_add_mod_noop(1, b, p);
        lemma_small_mod(1, p as nat);
        assert((1 + b) % p == (1 + b % p) % p);
        assert(b + 1 == a);
    }
}

/// Fermat's little theorem for a unit: `a^(p-1) = 1 (mod p)` when `p` does not divide `a`.
pub proof fn lemma_fermat_unit(p: int, a: int)
    requires
        is_prime(p),
        a >= 0,
        a % p != 0,
    ensures
        pow(a, (p - 1) as nat) % p == 1,
{
    let e = pow(a, (p - 1) as nat);
    lemma_fermat(p, a);
    lemma_pow_succ(a, (p - 1) as nat);
    assert(((p - 1) as nat + 1) as nat == p as nat);
    assert(pow(a, p as nat) == a * e);
    lemma_sub_mod_noop(a * e, a, p);
    lemma_small_mod(0, p as nat);
    assert((a * e - a) % p == 0);
    assert(a * (e - 1) == a * e - a) by (nonlinear_arith);
    lemma_euclid(p, a, e - 1);
    lemma_fundamental_div_mod(e - 1, p);
    let k = (e - 1) / p;
    assert(e == p * k + 1);
    lemma_mod_multiples_vanish(k, 1, p);
    lemma_small_mod(1, p as nat);
}

/// The only square roots of 1 modulo a prime are `1` and `p - 1`.
pub proof fn lemma_square_root_of_one(p: int, x: int)
    requires
        is_prime(p),
        0 <= x < p,
        (x * x) % p == 1,
    ensures
        x == 1 || x == p - 1,
{
    if x == 0 {
        assert(x * x == 0);
        lemma_small_mod(0, p as nat);
    } else {
        lemma_sub_mod_noop(x * x, 1, p);
        lemma_small_mod(1, p as nat);
        lemma_small_mod(0, p as nat);
        assert((x * x - 1) % p == 0);
        assert((x - 1) * (x + 1) == x * x - 1) by (nonlinear_arith);
        lemma_small_mod((x - 1) as nat, p as nat);
        if (x - 1) % p != 0 {
            lemma_euclid(p, x - 1, x + 1);
            if x + 1 < p {
                lemma_small_mod((x + 1) as nat, p as nat);
            }
        }
    }
}

} // verus!
