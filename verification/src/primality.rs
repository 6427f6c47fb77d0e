use vstd::prelude::*;
use vstd::arithmetic::power::{pow, lemma_pow_adds, lemma_pow_multiplies, lemma_pow_mod_noop, lemma_square_is_pow2, lemma_pow0, lemma_pow1};
use vstd::arithmetic::power2::{pow2, lemma_pow2_unfold, lemma_pow2};
use vstd::arithmetic::power2::lemma_pow2_pos;
use vstd::arithmetic::div_mod::{lemma_mul_mod_noop_general, lemma_small_mod, lemma_mod_twice, lemma_fundamental_div_mod, lemma_mod_multiples_basic, lemma_fundamental_div_mod_converse_mod, lemma_fundamental_div_mod_converse_div, lemma_sub_mod_noop, lemma_mod_add_multiples_vanish, lemma_mul_mod_noop_left, lemma_mul_mod_noop_right, lemma_mul_mod_noop, lemma_mod_multiples_vanish, lemma_add_mod_noop, lemma_div_denominator, lemma_mod_self_0};
use vstd::std_specs::bits::u64_leading_zeros;
use vstd::bits::lemma_u64_shr_is_div;
use crate::fermat::{is_prime, lemma_fermat_unit, lemma_square_root_of_one};
use crate::lucas::{lucas_u, lucas_v, lemma_lucas_double, lemma_lucas_step, lemma_lucas_congruent};

verus! {

/// Small primes for trial division.
pub const SMALL_PRIMES: [u64; 25] = [
    2, 3, 5, 7, 11, 13, 17, 19, 23, 29, 31, 37, 41, 43, 47, 53, 59, 61, 67, 71, 73, 79, 83, 89, 97,
];

/// `m` written as `d * 2^s` with `d` odd (for `m > 0`): the pair `(d, s)`.
pub open spec fn odd_part(m: nat) -> (nat, nat)
    decreases m,
{
    if m > 0 && m % 2 == 0 {
        let (d, s) = odd_part(m / 2);
        (d, s + 1)
    } else {
        (m, 0)
    }
}

/// `n` is a strong probable prime to base `a`: with `n - 1 = d * 2^s`, `d` odd,
/// `a^d = 1 (mod n)` or `a^(d * 2^r) = -1 (mod n)` for some `0 <= r < s`.
pub open spec fn strong_probable_prime(n: int, a: int) -> bool {
    let (d, s) = odd_part((n - 1) as nat);
    pow(a, d) % n == 1 || exists|r: nat| r < s && #[trigger] squared_power(a, d, r) % n == n - 1
}

/// `a^(d * 2^r)`.
pub open spec fn squared_power(a: int, d: nat, r: nat) -> int {
    pow(a, d * pow2(r))
}

/// `odd_part(m) = (d, s)` writes `m = d * 2^s`.
pub proof fn lemma_odd_part(m: nat)
    ensures
        odd_part(m).0 * pow2(odd_part(m).1) == m,
    decreases m,
{
    if m > 0 && m % 2 == 0 {
        lemma_odd_part(m / 2);
        let (d, s) = odd_part(m / 2);
        lemma_pow2_unfold(s + 1);
        assert(d * pow2(s + 1) == 2 * (d * pow2(s))) by (nonlinear_arith)
            requires
                pow2(s + 1) == 2 * pow2(s),
        ;
        assert(odd_part(m) == (d, s + 1));
        assert(m == 2 * (m / 2));
        assert(odd_part(m).0 * pow2(odd_part(m).1) == d * pow2(s + 1));
    } else {
        lemma_pow2(0);
        lemma_pow0(2);
        assert(pow2(0) == 1);
        assert(odd_part(m) == (m, 0nat));
        assert(m * pow2(0) == m) by (nonlinear_arith)
            requires
                pow2(0) == 1,
        ;
    }
}

/// Squaring steps through the powers `a^(d 2^r)`: from a power that is 1 modulo the
/// prime `n`, either `a^d = 1` or an earlier power is `-1`.
proof fn lemma_first_one(n: int, a: int, d: nat, r: nat)
    requires
        is_prime(n),
        squared_power(a, d, r) % n == 1,
    ensures
        pow(a, d) % n == 1 || exists|t: nat| t < r && #[trigger] squared_power(a, d, t) % n == n - 1,
    decreases r,
{
    if r == 0 {
        lemma_pow2(0);
        lemma_pow0(2);
        assert(d * pow2(0) == d);
    } else {
        let t = (r - 1) as nat;
        let e = d * pow2(t);
        let x = squared_power(a, d, t);
        lemma_pow2_unfold(r);
        assert(d * pow2(r) == e * 2) by (nonlinear_arith)
            requires
                e == d * pow2(t),
                pow2(r) == 2 * pow2(t),
        ;
        lemma_pow_multiplies(a, e, 2);
        lemma_square_is_pow2(x);
        assert(squared_power(a, d, r) == x * x);
        lemma_mul_mod_noop_general(x, x, n);
        lemma_mul_mod_noop(x, x, n);
        lemma_square_root_of_one(n, x % n);
        if x % n == 1 {
            lemma_first_one(n, a, d, t);
        } else {
            assert(squared_power(a, d, t) % n == n - 1);
        }
    }
}

/// Every odd prime is a strong probable prime to every base that it does not divide, so
/// the strong Miller-Rabin test accepts every odd prime.
pub proof fn lemma_primes_are_strong_probable_primes(n: int, a: int)
    requires
        is_prime(n),
        n > 2,
        a >= 0,
        a % n != 0,
    ensures
        strong_probable_prime(n, a),
{
    let (d, s) = odd_part((n - 1) as nat);
    lemma_odd_part((n - 1) as nat);
    lemma_fermat_unit(n, a);
    assert(d * pow2(s) == n - 1);
    assert(squared_power(a, d, s) == pow(a, (n - 1) as nat));
    lemma_first_one(n, a, d, s);
}

/// Modular multiplication: `(a * b) mod m`, computed in 128 bits.
fn mod_mul(a: u64, b: u64, m: u64) -> (r: u64)
    requires
        m > 0,
    ensures
        r == (a * b) % (m as int),
{
    assert((a as int) * (b as int) <= 0xffff_ffff_ffff_ffff_ffff_ffff_ffff_ffff) by (nonlinear_arith)
        requires
            a <= 0xffff_ffff_ffff_ffff,
            b <= 0xffff_ffff_ffff_ffff,
            a >= 0,
            b >= 0;
    ((a as u128 * b as u128) % m as u128) as u64
}

proof fn lemma_pow_halve(b: int, e: nat)
    ensures
        pow(b, e) == pow(b * b, e / 2) * (if e % 2 == 1 { b } else { 1 }),
{
    let q = e / 2;
    let r = e % 2;
    lemma_pow_adds(b, 2 * q, r);
    lemma_pow_multiplies(b, 2, q);
    lemma_square_is_pow2(b);
    assert(2 * q + r == e);
    assert(pow(b, (2 * q) as nat) == pow(b * b, q)) by {
        assert(2 * q == q * 2) by (nonlinear_arith);
        lemma_pow_multiplies(b, 2, q);
    }
    if r == 1 {
        lemma_pow1(b);
    } else {
        lemma_pow0(b);
    }
}

/// Modular exponentiation: `base^exp mod m`.
fn mod_pow(base: u64, exp: u64, m: u64) -> (r: u64)
    requires
        m > 0,
    ensures
        r == pow(base as int, exp as nat) % (m as int),
{
    if m == 1 {
        return 0;
    }
    let ghost b0 = base as int;
    let ghost e0 = exp as nat;
    let mut result = 1u64;
    let mut base = base % m;
    let mut exp = exp;
    proof {
        lemma_pow_mod_noop(b0, e0, m as int);
        lemma_small_mod(1, m as nat);
        assert((1 * pow(base as int, exp as nat)) % (m as int) == pow(b0, e0) % (m as int));
    }
    while exp > 0
        invariant
            m > 1,
            result < m,
            base < m,
            (result * pow(base as int, exp as nat)) % (m as int) == pow(b0, e0) % (m as int),
        decreases exp,
    {
        let ghost ob = base as int;
        let ghost oe = exp as nat;
        let ghost oe64 = exp;
        let ghost or = result as int;
        assert((exp & 1 == 1) == (exp % 2 == 1)) by (bit_vector);
        let odd = exp & 1 == 1;
        if odd {
            result = mod_mul(result, base, m);
        }
        exp = exp >> 1;
        assert(exp == oe64 / 2) by (bit_vector)
            requires
                exp == oe64 >> 1;
        base = mod_mul(base, base, m);
        proof {
            let mm = m as int;
            let f = if oe % 2 == 1 { ob } else { 1 };
            lemma_pow_halve(ob, oe);
            if oe % 2 != 1 {
                lemma_small_mod(or as nat, mm as nat);
            }
            assert(result == (or * f) % mm);
            lemma_pow_mod_noop(ob * ob, exp as nat, mm);
            let pq = pow(ob * ob, exp as nat);
            lemma_mul_mod_noop_general(or * f, pq, mm);
            lemma_mul_mod_noop_general(result as int, pq, mm);
            assert((result * pow(base as int, exp as nat)) % mm == (result * pq) % mm) by {
                lemma_mul_mod_noop_general(result as int, pow(base as int, exp as nat), mm);
                lemma_mul_mod_noop_general(result as int, pq, mm);
            }
            assert(or * f * pq == or * (pq * f)) by (nonlinear_arith);
        }
    }
    proof {
        lemma_pow0(base as int);
        lemma_small_mod(result as nat, m as nat);
    }
    result
}

/// Strong Miller-Rabin test for a single base: whether `n` is a strong probable prime
/// to base `base`.
pub fn miller_rabin_strong(n: u64, base: u64) -> (r: bool)
    requires
        n > 2,
        n % 2 == 1,
    ensures
        r == strong_probable_prime(n as int, base as int),
{
    let mut d = n - 1;
    let mut s = 0u32;
    proof {
        lemma_pow2(0);
        lemma_pow0(2);
        assert(pow2(64) == 0x1_0000_0000_0000_0000) by {
            vstd::arithmetic::power2::lemma2_to64();
        }
    }
    while d.is_multiple_of(2)
        invariant
            n > 2,
            d > 0,
            s <= 64,
            pow2(64) == 0x1_0000_0000_0000_0000,
            d as int * pow2(s as nat) == n - 1,
            odd_part((n - 1) as nat) == (odd_part(d as nat).0, (odd_part(d as nat).1 + s) as nat),
        decreases d,
    {
        let ghost od = d;
        d = d / 2;
        proof {
            lemma_pow2_unfold((s + 1) as nat);
            assert(d as int * pow2((s + 1) as nat) == od as int * pow2(s as nat)) by (nonlinear_arith)
                requires
                    od == 2 * d,
                    pow2((s + 1) as nat) == 2 * pow2(s as nat);
            if s == 64 {
                assert(od as int * pow2(64) >= pow2(64)) by (nonlinear_arith)
                    requires
                        od >= 1,
                        pow2(64) > 0;
            }
        }
        s += 1;
    }
    let ghost dd = d as nat;
    let ghost ss = s as nat;
    assert(odd_part((n - 1) as nat) == (dd, ss));
    let mut x = mod_pow(base, d, n);
    proof {
        lemma_pow2(0);
        lemma_pow0(2);
        assert(dd * pow2(0) == dd);
        assert(squared_power(base as int, dd, 0) == pow(base as int, dd));
    }
    if x == 1 || x == n - 1 {
        return true;
    }
    let mut i: u32 = 1;
    while i < s
        invariant
            n > 2,
            1 <= i,
            i <= s || s == 0,
            s == ss,
            d == dd,
            odd_part((n - 1) as nat) == (dd, ss),
            x < n,
            x == squared_power(base as int, dd, (i - 1) as nat) % (n as int),
            pow(base as int, dd) % (n as int) != 1,
            forall|r: nat| r < i ==> #[trigger] squared_power(base as int, dd, r) % (n as int) != n - 1,
        decreases s - i,
    {
        let ghost prev = squared_power(base as int, dd, (i - 1) as nat);
        x = mod_mul(x, x, n);
        proof {
            let nn = n as int;
            let e = dd * pow2((i - 1) as nat);
            lemma_mul_mod_noop_general(prev, prev, nn);
            lemma_square_is_pow2(prev);
            lemma_pow_multiplies(base as int, e, 2);
            lemma_pow2_unfold(i as nat);
            assert(e * 2 == dd * pow2(i as nat)) by (nonlinear_arith)
                requires
                    e == dd * pow2((i - 1) as nat),
                    pow2(i as nat) == 2 * pow2((i - 1) as nat);
            assert(x == squared_power(base as int, dd, i as nat) % nn);
        }
        if x == n - 1 {
            return true;
        }
        i += 1;
    }
    false
}

/// `(2/n)`: `-1` when `n = 3` or `5 (mod 8)`, else `1`.
pub open spec fn jacobi_two(n: int) -> int {
    if n % 8 == 3 || n % 8 == 5 {
        -1
    } else {
        1
    }
}

/// The sign that quadratic reciprocity puts between `(a/n)` and `(n/a)` for odd `a` and `n`:
/// `-1` when both are `3 (mod 4)`, else `1`.
pub open spec fn reciprocity_sign(a: int, n: int) -> int {
    if a % 4 == 3 && n % 4 == 3 {
        -1
    } else {
        1
    }
}

/// The Jacobi symbol `(a/n)` for odd `n > 0`, given by its reduction laws: it depends on
/// `a mod n` only; `(0/n)` is `1` for `n = 1` and `0` otherwise; `(2b/n) = (2/n)(b/n)`;
/// and `(b/n) = ±(n/b)` for odd `b` by quadratic reciprocity.
pub open spec fn jacobi_symbol(a: int, n: int) -> int
    decreases n, a % n,
    when n > 0
{
    let r = a % n;
    if r == 0 {
        if n == 1 {
            1
        } else {
            0
        }
    } else if r % 2 == 0 {
        proof {
            lemma_small_mod((r / 2) as nat, n as nat);
        }
        jacobi_two(n) * jacobi_symbol(r / 2, n)
    } else {
        reciprocity_sign(r, n) * jacobi_symbol(n, r)
    }
}

proof fn lemma_jacobi_mod(a: int, n: int)
    requires
        n > 0,
    ensures
        jacobi_symbol(a, n) == jacobi_symbol(a % n, n),
{
    lemma_mod_twice(a, n);
}

/// Rust's remainder of a negative `a`, moved into `[0, n)`, is `a mod n`.
proof fn lemma_negative_rem(a: int, n: int)
    requires
        n > 0,
        a < 0,
    ensures
        (-((-a) % n)) + (if (-((-a) % n)) < 0 { n } else { 0 }) == a % n,
{
    let t = (-a) % n;
    let q = (-a) / n;
    lemma_fundamental_div_mod(-a, n);
    if t == 0 {
        assert(a == n * (-q)) by (nonlinear_arith)
            requires
                -a == n * q + t,
                t == 0,
        ;
        lemma_mod_multiples_basic(-q, n);
        assert((-q) * n == n * (-q)) by (nonlinear_arith);
    } else {
        assert(a == n * (-q - 1) + (n - t)) by (nonlinear_arith)
            requires
                -a == n * q + t,
        ;
        lemma_fundamental_div_mod_converse_mod(a, n, -q - 1, n - t);
    }
}

/// The Jacobi symbol `(a/n)` for odd `n`.
fn jacobi(a: i64, n: u64) -> (r: i64)
    requires
        n % 2 == 1,
    ensures
        r == jacobi_symbol(a as int, n as int),
{
    let ghost a0 = a as int;
    let ghost n0 = n as int;
    let mut a = a as i128;
    let mut n = n as i128;
    let mut result = 1i64;
    a = a % n;
    if a < 0 {
        a += n;
    }
    proof {
        if a0 < 0 {
            lemma_negative_rem(a0, n0);
        }
        lemma_jacobi_mod(a0, n0);
    }
    while a != 0
        invariant
            n > 0,
            n % 2 == 1,
            0 <= a < n,
            result == 1 || result == -1,
            result * jacobi_symbol(a as int, n as int) == jacobi_symbol(a0, n0),
        decreases n,
    {
        while a % 2 == 0
            invariant
                n > 0,
                n % 2 == 1,
                0 < a < n,
                result == 1 || result == -1,
                result * jacobi_symbol(a as int, n as int) == jacobi_symbol(a0, n0),
            decreases a,
        {
            let ghost oa = a as int;
            let ghost or = result as int;
            a = a / 2;
            let n_mod_8 = ((n % 8) + 8) % 8;
            if n_mod_8 == 3 || n_mod_8 == 5 {
                result = -result;
            }
            proof {
                lemma_small_mod(oa as nat, n as nat);
                assert(jacobi_symbol(oa, n as int) == jacobi_two(n as int) * jacobi_symbol(oa / 2, n as int));
                assert(n_mod_8 == n % 8);
                assert(or * (jacobi_two(n as int) * jacobi_symbol(a as int, n as int)) == (or * jacobi_two(n as int)) * jacobi_symbol(a as int, n as int)) by (nonlinear_arith);
            }
        }
        let ghost oa = a as int;
        let ghost on = n as int;
        let ghost or = result as int;
        proof {
            lemma_small_mod(oa as nat, on as nat);
            assert(jacobi_symbol(oa, on) == reciprocity_sign(oa, on) * jacobi_symbol(on, oa));
        }
        std::mem::swap(&mut a, &mut n);
        if a % 4 == 3 && n % 4 == 3 {
            result = -result;
        }
        a = a % n;
        proof {
            lemma_jacobi_mod(on, oa);
            assert(or * (reciprocity_sign(oa, on) * jacobi_symbol(on, oa)) == (or * reciprocity_sign(oa, on)) * jacobi_symbol(on, oa)) by (nonlinear_arith);
        }
    }
    if n == 1 {
        result
    } else {
        0
    }
}

/// `(a + n - b) mod n` for residues `a` and `b`, computed without leaving 64 bits.
fn sub_mod(a: u64, b: u64, n: u64) -> (r: u64)
    requires
        a < n,
        b < n,
    ensures
        r == ((a as int) + n - b) % (n as int),
{
    if a >= b {
        proof {
            lemma_small_mod((a - b) as nat, n as nat);
            lemma_mod_add_multiples_vanish(a - b, n as int);
        }
        a - b
    } else {
        proof {
            lemma_small_mod((a + n - b) as nat, n as nat);
        }
        a + (n - b)
    }
}

/// `(a + b) mod n` for residues `a` and `b`, computed without leaving 64 bits.
fn add_mod(a: u64, b: u64, n: u64) -> (r: u64)
    requires
        a < n,
        b < n,
    ensures
        r == ((a as int) + b) % (n as int),
{
    if a >= n - b {
        proof {
            lemma_small_mod((a + b - n) as nat, n as nat);
            lemma_mod_add_multiples_vanish(a + b - n, n as int);
        }
        a - (n - b)
    } else {
        proof {
            lemma_small_mod((a + b) as nat, n as nat);
        }
        a + b
    }
}

/// `((x mod n) + n - (y mod n)) mod n` is `(x - y) mod n`.
proof fn lemma_mod_sub_wrap(x: int, y: int, n: int)
    requires
        n > 0,
    ensures
        ((x % n) + n - (y % n)) % n == (x - y) % n,
{
    lemma_sub_mod_noop(x, y, n);
    lemma_mod_add_multiples_vanish((x % n) - (y % n), n);
    assert(n + ((x % n) - (y % n)) == (x % n) + n - (y % n));
}

/// Multiplying `2w mod n` by `half = (n + 1) / 2` gives back `w mod n`.
proof fn lemma_halve(w: int, n: int, half: int)
    requires
        n > 0,
        2 * half == n + 1,
    ensures
        (((2 * w) % n) * half) % n == w % n,
{
    lemma_mul_mod_noop_left(2 * w, half, n);
    assert((2 * w) * half == n * w + w) by (nonlinear_arith)
        requires
            2 * half == n + 1,
    ;
    lemma_mod_multiples_vanish(w, w, n);
}

/// `2^(b-1) <= k < 2^b` for `b = 64 - k.leading_zeros()` and `k > 0`.
proof fn lemma_bit_length(k: u64)
    requires
        k > 0,
    ensures
        1 <= 64 - u64_leading_zeros(k) <= 64,
        pow2((64 - u64_leading_zeros(k) - 1) as nat) <= k,
        k < pow2((64 - u64_leading_zeros(k)) as nat),
    decreases k,
{
    reveal(u64_leading_zeros);
    if k == 1 {
        assert(u64_leading_zeros(0) == 64);
        lemma_pow2(0);
        lemma_pow2(1);
        lemma_pow0(2);
        lemma_pow1(2);
    } else {
        let h = (k / 2) as u64;
        lemma_bit_length(h);
        let b = 64 - u64_leading_zeros(k);
        assert(u64_leading_zeros(k) == u64_leading_zeros(h) - 1);
        lemma_pow2_unfold((b - 1) as nat);
        lemma_pow2_unfold(b as nat);
    }
}

/// `U_k` and `V_k` of the Lucas sequences with parameters `p`, `q`, modulo `n`, by the binary
/// chain over the bits of `k`.
fn lucas_chain(k: u64, p: u64, q: u64, n: u64) -> (r: (u64, u64))
    requires
        n > 2,
        n % 2 == 1,
    ensures
        r.0 == lucas_u(p as int, q as int, k as nat) % (n as int),
        r.1 == lucas_v(p as int, q as int, k as nat) % (n as int),
{
    let ghost pp = p as int;
    let ghost qq = q as int;
    let ghost nn = n as int;
    if k == 0 {
        proof {
            lemma_small_mod(0, nn as nat);
        }
        return (0, 2 % n);
    }
    let mut u = 1u64;
    let mut v = p % n;
    let mut qk = q % n;
    let bits = 64 - k.leading_zeros();
    proof {
        lemma_bit_length(k);
        let t = pow2((bits - 1) as nat);
        lemma_pow2_unfold(bits as nat);
        lemma_fundamental_div_mod_converse_div(k as int, t as int, 1, k - t);
        lemma_small_mod(1, nn as nat);
        lemma_pow1(qq);
        assert(lucas_u(pp, qq, 1) == 1);
        assert(lucas_v(pp, qq, 1) == pp);
    }
    let mut i = bits - 1;
    while i > 0
        invariant
            n > 2,
            n % 2 == 1,
                nn == n,
            pp == p,
            qq == q,
            i < 64,
            (k as nat) / pow2(i as nat) >= 1,
            u == lucas_u(pp, qq, (k as nat) / pow2(i as nat)) % nn,
            v == lucas_v(pp, qq, (k as nat) / pow2(i as nat)) % nn,
            qk == pow(qq, (k as nat) / pow2(i as nat)) % nn,
        decreases i,
    {
        let ghost jj: nat = (k as nat) / pow2(i as nat);
        let ghost uu = lucas_u(pp, qq, jj);
        let ghost vv = lucas_v(pp, qq, jj);
        let ghost qj = pow(qq, jj);
        i -= 1;
        let u2 = mod_mul(u, v, n);
        let v2 = sub_mod(mod_mul(v, v, n), mod_mul(2, qk, n), n);
        let qk2 = mod_mul(qk, qk, n);
        proof {
            lemma_mul_mod_noop(uu, vv, nn);
            lemma_mul_mod_noop(vv, vv, nn);
            lemma_mul_mod_noop_right(2, qj, nn);
            lemma_mul_mod_noop(qj, qj, nn);
            lemma_mod_sub_wrap(vv * vv, 2 * qj, nn);
            lemma_lucas_double(pp, qq, jj);
            lemma_pow_adds(qq, jj, jj);
            assert(jj + jj == 2 * jj);
        }
        let bit = (k >> i) & 1;
        proof {
            let i64v = i as u64;
            assert(k >> i == k >> i64v) by (bit_vector)
                requires
                    i < 64,
                    i64v == i,
            ;
            lemma_u64_shr_is_div(k, i64v);
            assert((k >> i) & 1 == (k >> i) % 2) by (bit_vector);
            lemma_pow2_unfold((i + 1) as nat);
            lemma_pow2_pos(i as nat);
            lemma_div_denominator(k as int, pow2(i as nat) as int, 2);
            assert(pow2(i as nat) * 2 == pow2((i + 1) as nat));
            let jn = (k as nat) / pow2(i as nat);
            lemma_fundamental_div_mod(jn as int, 2);
            assert(jn == 2 * jj + bit);
        }
        if bit == 0 {
            u = u2;
            v = v2;
            qk = qk2;
        } else {
            let half = n / 2 + 1;
            let d_val = sub_mod(mod_mul(p, p, n), mod_mul(4, q, n), n);
            let ghost u2i = lucas_u(pp, qq, 2 * jj);
            let ghost v2i = lucas_v(pp, qq, 2 * jj);
            let ghost dd = pp * pp - 4 * qq;
            let x = add_mod(mod_mul(p, u2, n), v2, n);
            let y = add_mod(mod_mul(d_val, u2, n), mod_mul(p, v2, n), n);
            proof {
                lemma_mod_sub_wrap(pp * pp, 4 * qq, nn);
                lemma_lucas_step(pp, qq, 2 * jj);
                lemma_mul_mod_noop_right(pp, u2i, nn);
                lemma_add_mod_noop(pp * u2i, 1 * v2i, nn);
                assert(x == (2 * lucas_u(pp, qq, 2 * jj + 1)) % nn);
                lemma_mul_mod_noop(dd, u2i, nn);
                lemma_mul_mod_noop_right(pp, v2i, nn);
                lemma_add_mod_noop(dd * u2i, pp * v2i, nn);
                assert(y == (2 * lucas_v(pp, qq, 2 * jj + 1)) % nn);
                lemma_halve(lucas_u(pp, qq, 2 * jj + 1), nn, half as int);
                lemma_halve(lucas_v(pp, qq, 2 * jj + 1), nn, half as int);
                lemma_mul_mod_noop_left(pow(qq, 2 * jj), qq, nn);
                lemma_pow_adds(qq, 2 * jj, 1);
                lemma_pow1(qq);
            }
            u = mod_mul(x, half, n);
            v = mod_mul(y, half, n);
            qk = mod_mul(qk2, q, n);
        }
    }
    proof {
        lemma_pow2(0);
        lemma_pow0(2);
        assert((k as nat) / pow2(0) == k as nat);
    }
    (u, v)
}

/// How Selfridge's method A ends for `n`, scanning `D = 5, -7, 9, -11, ...` from `|D| = d_abs`
/// with sign `sign`, up to `|D| = 999_999`.
pub enum SelfridgeOutcome {
    /// Some `D` with `|D| != n` has `(D/n) = 0`: `n` has a factor in common with it.
    Composite,
    /// The first `D` with `(D/n) = -1`.
    Parameter(int),
    /// No candidate decided.
    Exhausted,
}

/// The outcome of Selfridge's method A for `n` from the candidate `d_abs * sign` on.
pub open spec fn selfridge(n: int, d_abs: int, sign: int) -> SelfridgeOutcome
    decreases 1_000_000 - d_abs,
{
    let j = jacobi_symbol(d_abs * sign, n);
    if j == 0 && d_abs != n {
        SelfridgeOutcome::Composite
    } else if j == -1 {
        SelfridgeOutcome::Parameter(d_abs * sign)
    } else if d_abs + 2 > 1_000_000 {
        SelfridgeOutcome::Exhausted
    } else {
        selfridge(n, d_abs + 2, -sign)
    }
}

/// `n` is a strong Lucas probable prime for `P = 1`, `Q = (1 - D) / 4`: with `n + 1 = d * 2^s`,
/// `d` odd, `U_d = 0 (mod n)` or `V_{d * 2^r} = 0 (mod n)` for some `0 <= r < s`.
pub open spec fn strong_lucas_probable_prime(n: int, disc: int) -> bool {
    let q = (1 - disc) / 4;
    let (d, s) = odd_part((n + 1) as nat);
    lucas_u(1, q, d) % n == 0 || exists|r: nat| r < s && #[trigger] lucas_v(1, q, d * pow2(r)) % n == 0
}

/// What the strong Lucas-Selfridge test answers for odd `n > 2`.
pub open spec fn passes_strong_lucas(n: int) -> bool {
    match selfridge(n, 5, 1) {
        SelfridgeOutcome::Composite => false,
        SelfridgeOutcome::Parameter(disc) => strong_lucas_probable_prime(n, disc),
        SelfridgeOutcome::Exhausted => true,
    }
}

/// What the scan of Selfridge's method A from `|D| = d_abs` finds: a parameter `D` is
/// `1 (mod 4)` with `(D/n) = -1`; when the scan runs out, no candidate `D = 1 (mod 4)`
/// with `d_abs <= |D| <= 999_999` has `(D/n) = -1`.
proof fn lemma_selfridge_scan(n: int, d_abs: int, sign: int)
    requires
        n > 0,
        d_abs >= 5,
        d_abs % 2 == 1,
        sign == 1 || sign == -1,
        (d_abs * sign) % 4 == 1,
    ensures
        selfridge(n, d_abs, sign) matches SelfridgeOutcome::Parameter(disc) ==> disc % 4 == 1 && jacobi_symbol(disc, n) == -1,
        selfridge(n, d_abs, sign) is Exhausted ==> forall|disc: int|
            disc % 4 == 1 && d_abs <= (if disc >= 0 { disc } else { -disc }) <= 999_999 ==> #[trigger] jacobi_symbol(disc, n) != -1,
    decreases 1_000_000 - d_abs,
{
    assert(d_abs * sign == if sign == 1 { d_abs } else { -d_abs }) by (nonlinear_arith)
        requires sign == 1 || sign == -1;
    assert((d_abs + 2) * -sign == if sign == 1 { -(d_abs + 2) } else { d_abs + 2 }) by (nonlinear_arith)
        requires sign == 1 || sign == -1;
    let j = jacobi_symbol(d_abs * sign, n);
    if j == 0 && d_abs != n {
    } else if j == -1 {
    } else if d_abs + 2 > 1_000_000 {
        assert forall|disc: int|
            disc % 4 == 1 && d_abs <= (if disc >= 0 { disc } else { -disc }) <= 999_999 implies #[trigger] jacobi_symbol(disc, n) != -1 by {
            if disc >= 0 {
                assert(disc == d_abs);
            } else {
                assert(-disc == d_abs);
            }
            if disc != d_abs * sign {
                assert(disc == -(d_abs * sign));
                assert(false);
            }
        }
    } else {
        assert(((d_abs + 2) * -sign) % 4 == 1);
        lemma_selfridge_scan(n, d_abs + 2, -sign);
        assert(selfridge(n, d_abs, sign) == selfridge(n, d_abs + 2, -sign));
        if selfridge(n, d_abs, sign) is Exhausted {
            assert forall|disc: int|
                disc % 4 == 1 && d_abs <= (if disc >= 0 { disc } else { -disc }) <= 999_999 implies #[trigger] jacobi_symbol(disc, n) != -1 by {
                let a = if disc >= 0 { disc } else { -disc };
                if a == d_abs {
                    if disc != d_abs * sign {
                        assert(disc == -(d_abs * sign));
                        assert(false);
                    }
                } else {
                    assert(a != d_abs + 1) by {
                        if disc >= 0 {
                            assert(disc % 2 == 1);
                        } else {
                            assert((-disc) % 2 == 1);
                        }
                    }
                }
            }
        }
    }
}

/// `U_k = 0 (mod n)` or `V_k = 0 (mod n)` gives `U_{2k} = 0 (mod n)`, as `U_{2k} = U_k V_k`.
proof fn lemma_lucas_u_double_zero(q: int, n: int, k: nat)
    requires
        n > 0,
        lucas_u(1, q, k) % n == 0 || lucas_v(1, q, k) % n == 0,
    ensures
        lucas_u(1, q, 2 * k) % n == 0,
{
    lemma_lucas_double(1, q, k);
    let u = lucas_u(1, q, k);
    let v = lucas_v(1, q, k);
    if u % n == 0 {
        lemma_mul_mod_noop_left(u, v, n);
        assert((u % n) * v == 0);
    } else {
        lemma_mul_mod_noop_right(u, v, n);
        assert(u * (v % n) == 0);
    }
}

/// `U_{d 2^r} = 0 (mod n)` carries over to `U_{d 2^s} = 0 (mod n)` for `s >= r`.
proof fn lemma_lucas_u_zero_up(q: int, n: int, d: nat, r: nat, s: nat)
    requires
        n > 0,
        r <= s,
        lucas_u(1, q, d * pow2(r)) % n == 0,
    ensures
        lucas_u(1, q, d * pow2(s)) % n == 0,
    decreases s - r,
{
    if r < s {
        lemma_lucas_u_double_zero(q, n, d * pow2(r));
        lemma_pow2_unfold(r + 1);
        assert(d * pow2(r + 1) == 2 * (d * pow2(r))) by (nonlinear_arith)
            requires pow2(r + 1) == 2 * pow2(r);
        lemma_lucas_u_zero_up(q, n, d, r + 1, s);
    }
}

/// What the strong Lucas-Selfridge test accepts is a Lucas probable prime: for some `D`,
/// `1 (mod 4)`, with Jacobi symbol `(D/n) = -1`, `U_{n+1}(1, (1 - D)/4) = 0 (mod n)`;
/// unless no candidate `D = 1 (mod 4)` with `5 <= |D| <= 999_999` has `(D/n) = -1`.
pub proof fn lemma_strong_lucas_is_lucas(n: int)
    requires
        n > 2,
        n % 2 == 1,
        passes_strong_lucas(n),
    ensures
        (exists|disc: int| disc % 4 == 1 && jacobi_symbol(disc, n) == -1
            && #[trigger] lucas_u(1, (1 - disc) / 4, (n + 1) as nat) % n == 0)
        || (forall|disc: int| disc % 4 == 1 && 5 <= (if disc >= 0 { disc } else { -disc }) <= 999_999
            ==> #[trigger] jacobi_symbol(disc, n) != -1),
{
    lemma_selfridge_scan(n, 5, 1);
    match selfridge(n, 5, 1) {
        SelfridgeOutcome::Parameter(disc) => {
            let q = (1 - disc) / 4;
            let (d, s) = odd_part((n + 1) as nat);
            lemma_odd_part((n + 1) as nat);
            assert(strong_lucas_probable_prime(n, disc));
            lemma_pow2(0);
            lemma_pow0(2);
            assert(d * pow2(0) == d);
            if lucas_u(1, q, d) % n == 0 {
                lemma_lucas_u_zero_up(q, n, d, 0, s);
            } else {
                let r = choose|r: nat| r < s && #[trigger] lucas_v(1, q, d * pow2(r)) % n == 0;
                lemma_lucas_u_double_zero(q, n, d * pow2(r));
                lemma_pow2_unfold(r + 1);
                assert(d * pow2(r + 1) == 2 * (d * pow2(r))) by (nonlinear_arith)
                    requires pow2(r + 1) == 2 * pow2(r);
                lemma_lucas_u_zero_up(q, n, d, r + 1, s);
            }
            assert(lucas_u(1, q, (n + 1) as nat) % n == 0);
        },
        SelfridgeOutcome::Exhausted => {},
        SelfridgeOutcome::Composite => {},
    }
}

/// Strong Lucas-Selfridge test: Selfridge's method A picks `D`, then the strong Lucas test
/// runs with `P = 1`, `Q = (1 - D) / 4`.
pub fn strong_lucas_test(n: u64) -> (r: bool)
    requires
        n > 2,
        n % 2 == 1,
        n < 0xffff_ffff_ffff_ffff,
    ensures
        r == passes_strong_lucas(n as int),
        r ==> (exists|disc: int| disc % 4 == 1 && jacobi_symbol(disc, n as int) == -1
            && #[trigger] lucas_u(1, (1 - disc) / 4, (n + 1) as nat) % (n as int) == 0)
            || (forall|disc: int| disc % 4 == 1 && 5 <= (if disc >= 0 { disc } else { -disc }) <= 999_999
            ==> #[trigger] jacobi_symbol(disc, n as int) != -1),
{
    let r = strong_lucas_scan(n);
    proof {
        if r {
            lemma_strong_lucas_is_lucas(n as int);
        }
    }
    r
}

/// The test itself, as `strong_lucas_test` runs it.
fn strong_lucas_scan(n: u64) -> (r: bool)
    requires
        n > 2,
        n % 2 == 1,
        n < 0xffff_ffff_ffff_ffff,
    ensures
        r == passes_strong_lucas(n as int),
{
    let ghost nn = n as int;
    let mut d_abs = 5i64;
    let mut sign: i64 = 1;
    let mut d_found: i64 = 0;
    loop
        invariant_except_break
            n > 2,
            n % 2 == 1,
            n < 0xffff_ffff_ffff_ffff,
            nn == n,
            5 <= d_abs <= 1_000_000,
            sign == 1 || sign == -1,
            sign == 1 ==> d_abs % 4 == 1,
            sign == -1 ==> d_abs % 4 == 3,
            selfridge(nn, 5, 1) == selfridge(nn, d_abs as int, sign as int),
        ensures
            selfridge(nn, 5, 1) == SelfridgeOutcome::Parameter(d_found as int),
            (1 - d_found) % 4 == 0,
            -1_000_000 <= d_found <= 1_000_000,
        decreases 1_000_000 - d_abs,
    {
        assert(d_abs * sign == if sign == 1 { d_abs as int } else { -d_abs }) by (nonlinear_arith)
            requires
                sign == 1 || sign == -1,
        ;
        let d_candidate = d_abs * sign;
        let j = jacobi(d_candidate, n);
        if j == 0 && d_abs as u64 != n {
            return false;
        }
        if j == -1 {
            d_found = d_candidate;
            break;
        }
        d_abs += 2;
        sign = -sign;
        if d_abs > 1_000_000 {
            return true;
        }
    }
    let q_raw = (1 - d_found) / 4;
    let q = if q_raw >= 0 {
        q_raw as u64 % n
    } else {
        n - ((-q_raw) as u64 % n)
    };
    let ghost qq = q_raw as int;
    proof {
        if q_raw < 0 {
            lemma_negative_rem(qq, nn);
            if (-q_raw) as u64 % n == 0 {
                lemma_mod_self_0(nn);
            } else {
                lemma_small_mod((n - ((-q_raw) as u64 % n)) as nat, nn as nat);
            }
        } else {
            lemma_mod_twice(qq, nn);
        }
        assert(q as int % nn == qq % nn);
        assert(qq == (1 - d_found as int) / 4);
    }
    let mut d = n + 1;
    let mut s = 0u32;
    proof {
        lemma_pow2(0);
        lemma_pow0(2);
        assert(pow2(64) == 0x1_0000_0000_0000_0000) by {
            vstd::arithmetic::power2::lemma2_to64();
        }
    }
    while d.is_multiple_of(2)
        invariant
            n > 2,
            n < 0xffff_ffff_ffff_ffff,
            d > 0,
            s <= 64,
            pow2(64) == 0x1_0000_0000_0000_0000,
            d as int * pow2(s as nat) == n + 1,
            odd_part((n + 1) as nat) == (odd_part(d as nat).0, (odd_part(d as nat).1 + s) as nat),
        decreases d,
    {
        let ghost od = d;
        d = d / 2;
        proof {
            lemma_pow2_unfold((s + 1) as nat);
            assert(d as int * pow2((s + 1) as nat) == od as int * pow2(s as nat)) by (nonlinear_arith)
                requires
                    od == 2 * d,
                    pow2((s + 1) as nat) == 2 * pow2(s as nat);
            if s == 64 {
                assert(od as int * pow2(64) >= pow2(64)) by (nonlinear_arith)
                    requires
                        od >= 1,
                        pow2(64) > 0;
            }
        }
        s += 1;
    }
    let ghost dd = d as nat;
    let ghost ss = s as nat;
    assert(odd_part((n + 1) as nat) == (dd, ss));
    let (u, v) = lucas_chain(d, 1, q, n);
    proof {
        lemma_lucas_congruent(1, q as int, qq, nn, dd);
    }
    if u == 0 {
        return true;
    }
    let mut vr = v;
    let mut qkr = mod_pow(q, d, n);
    proof {
        lemma_pow_mod_noop(q as int, dd, nn);
        lemma_pow_mod_noop(qq, dd, nn);
        assert(dd * pow2(0) == dd);
    }
    let mut r: u32 = 0;
    while r < s
        invariant
            n > 2,
            n < 0xffff_ffff_ffff_ffff,
            nn == n,
            s == ss,
            d == dd,
            qq == (1 - d_found as int) / 4,
            selfridge(nn, 5, 1) == SelfridgeOutcome::Parameter(d_found as int),
            odd_part((n + 1) as nat) == (dd, ss),
            lucas_u(1, qq, dd) % nn != 0,
            r <= s,
            vr < n,
            qkr < n,
            vr == lucas_v(1, qq, dd * pow2(r as nat)) % nn,
            qkr == pow(qq, dd * pow2(r as nat)) % nn,
            forall|t: nat| t < r ==> #[trigger] lucas_v(1, qq, dd * pow2(t)) % nn != 0,
        decreases s - r,
    {
        if vr == 0 {
            return true;
        }
        let ghost k: nat = dd * pow2(r as nat);
        let ghost vk = lucas_v(1, qq, k);
        let ghost qk = pow(qq, k);
        vr = sub_mod(mod_mul(vr, vr, n), mod_mul(2, qkr, n), n);
        qkr = mod_mul(qkr, qkr, n);
        proof {
            lemma_mul_mod_noop(vk, vk, nn);
            lemma_mul_mod_noop_right(2, qk, nn);
            lemma_mod_sub_wrap(vk * vk, 2 * qk, nn);
            lemma_lucas_double(1, qq, k);
            lemma_mul_mod_noop(qk, qk, nn);
            lemma_pow_adds(qq, k, k);
            lemma_pow2_unfold((r + 1) as nat);
            assert(2 * k == dd * pow2((r + 1) as nat)) by (nonlinear_arith)
                requires
                    k == dd * pow2(r as nat),
                    pow2((r + 1) as nat) == 2 * pow2(r as nat);
            assert(k + k == 2 * k);
        }
        r += 1;
    }
    false
}

/// Whether `n` is prime by the Baillie-PSW test: `n` is one of the trial primes (no smaller
/// one divides it), or no trial prime divides `n` and `n` is a strong probable prime to
/// base 2 and a strong Lucas probable prime.
pub open spec fn bpsw_prime(n: int) -> bool {
    &&& n >= 2
    &&& {
        ||| exists|i: int| 0 <= i < 25 && n == #[trigger] SMALL_PRIMES@[i] && forall|j: int| 0 <= j < i ==> n % (#[trigger] SMALL_PRIMES@[j] as int) != 0
        ||| {
            &&& forall|i: int| 0 <= i < 25 ==> n % (#[trigger] SMALL_PRIMES@[i] as int) != 0
            &&& strong_probable_prime(n, 2)
            &&& passes_strong_lucas(n)
        }
    }
}

/// Every number from 2 to 100 is divisible by 2, 3, 5 or 7, or is one of the trial primes
/// from 11 on.
proof fn lemma_small_numbers_covered(e: int)
    requires
        2 <= e <= 100,
    ensures
        exists|j: int| 0 <= j < 25 && e % (#[trigger] SMALL_PRIMES@[j] as int) == 0,
{
    if e % 2 == 0 {
        assert(e % (SMALL_PRIMES@[0] as int) == 0);
    } else if e % 3 == 0 {
        assert(e % (SMALL_PRIMES@[1] as int) == 0);
    } else if e % 5 == 0 {
        assert(e % (SMALL_PRIMES@[2] as int) == 0);
    } else if e % 7 == 0 {
        assert(e % (SMALL_PRIMES@[3] as int) == 0);
    } else {
        assert(e == 11 || e == 13 || e == 17 || e == 19 || e == 23 || e == 29 || e == 31 || e == 37
            || e == 41 || e == 43 || e == 47 || e == 53 || e == 59 || e == 61 || e == 67 || e == 71
            || e == 73 || e == 79 || e == 83 || e == 89 || e == 97);
        let j: int = choose|j: int| 4 <= j < 25 && SMALL_PRIMES@[j] == e;
        assert(e % (SMALL_PRIMES@[j] as int) == 0);
    }
}

/// A number with a divisor strictly between 1 and itself has one whose square is at most
/// the number.
proof fn lemma_divisor_below_root(n: int, d: int) -> (e: int)
    requires
        2 <= d < n,
        n % d == 0,
    ensures
        2 <= e,
        e * e <= n,
        n % e == 0,
{
    lemma_fundamental_div_mod(n, d);
    let q = n / d;
    assert(n == d * q);
    assert(q >= 2) by (nonlinear_arith)
        requires n == d * q, 2 <= d < n;
    if d * d <= n {
        d
    } else {
        assert(q * q < n) by (nonlinear_arith)
            requires n == d * q, d * d > n, q >= 2, d >= 2;
        assert(n % q == 0) by {
            lemma_mod_multiples_basic(d, q);
            assert(d * q == q * d) by (nonlinear_arith);
        }
        q
    }
}

/// If `e` divides `n` and `q` divides `e`, then `q` divides `n`.
proof fn lemma_divides_trans(n: int, e: int, q: int)
    requires
        n >= 0,
        e >= 1,
        q >= 1,
        n % e == 0,
        e % q == 0,
    ensures
        n % q == 0,
{
    lemma_fundamental_div_mod(n, e);
    lemma_fundamental_div_mod(e, q);
    let a = n / e;
    let b = e / q;
    assert(n == q * (b * a)) by (nonlinear_arith)
        requires n == e * a, e == q * b;
    lemma_mod_multiples_basic(b * a, q);
    assert(q * (b * a) == (b * a) * q) by (nonlinear_arith);
}

/// What the test accepts has no divisor from 2 to 100 other than itself: trial division
/// leaves nothing with a small factor through. Below `101 * 101` this makes every
/// accepted number prime: no composite below 10201 passes.
pub proof fn lemma_bpsw_accepts_no_small_composite(n: int)
    requires
        bpsw_prime(n),
    ensures
        forall|d: int| 2 <= d <= 100 && d < n ==> #[trigger] (n % d) != 0,
        n < 10201 ==> is_prime(n),
{
    assert forall|d: int| 2 <= d <= 100 && d < n implies #[trigger] (n % d) != 0 by {
        if n % d == 0 {
            lemma_small_numbers_covered(d);
            let j = choose|j: int| 0 <= j < 25 && d % (#[trigger] SMALL_PRIMES@[j] as int) == 0;
            let q = SMALL_PRIMES@[j] as int;
            lemma_divides_trans(n, d, q);
            lemma_no_trial_factor(n, q, j);
            if q > d {
                lemma_small_mod(d as nat, q as nat);
            }
        }
    }
    if n < 10201 {
        assert forall|d: int| 2 <= d < n implies #[trigger] (n % d) != 0 by {
            if n % d == 0 {
                let e = lemma_divisor_below_root(n, d);
                assert(e <= 100) by (nonlinear_arith)
                    requires e * e <= n, n < 10201, e >= 2;
                assert(e < n) by (nonlinear_arith)
                    requires e * e <= n, e >= 2;
                assert(n % e != 0);
            }
        }
    }
}

/// A trial prime `q` (at index `j`) that divides an accepted `n` is not below `n`.
proof fn lemma_no_trial_factor(n: int, q: int, j: int)
    requires
        bpsw_prime(n),
        0 <= j < 25,
        q == SMALL_PRIMES@[j],
        n % q == 0,
    ensures
        q >= n,
{
    if q < n {
        if exists|i: int| 0 <= i < 25 && n == #[trigger] SMALL_PRIMES@[i] && forall|k: int| 0 <= k < i ==> n % (#[trigger] SMALL_PRIMES@[k] as int) != 0 {
            let i = choose|i: int| 0 <= i < 25 && n == #[trigger] SMALL_PRIMES@[i] && forall|k: int| 0 <= k < i ==> n % (#[trigger] SMALL_PRIMES@[k] as int) != 0;
            assert(forall|a: int, b: int| 0 <= a < b < 25 ==> SMALL_PRIMES@[a] < SMALL_PRIMES@[b]);
            assert(j < i);
            assert(n % (SMALL_PRIMES@[j] as int) != 0);
        } else {
            assert(n % (SMALL_PRIMES@[j] as int) != 0);
        }
    }
}

/// Every prime up to 97 is accepted: it is one of the trial primes and no smaller one
/// divides it.
pub proof fn lemma_bpsw_accepts_small_primes(n: int)
    requires
        is_prime(n),
        n <= 97,
    ensures
        bpsw_prime(n),
{
    lemma_small_numbers_covered(n);
    let j = choose|j: int| 0 <= j < 25 && n % (#[trigger] SMALL_PRIMES@[j] as int) == 0;
    let q = SMALL_PRIMES@[j] as int;
    assert(q >= 2);
    if q < n {
        assert(n % q != 0);
    }
    assert(q <= n) by {
        if q > n {
            lemma_small_mod(n as nat, q as nat);
        }
    }
    assert(n == SMALL_PRIMES@[j]);
    assert(forall|a: int, b: int| 0 <= a < b < 25 ==> SMALL_PRIMES@[a] < SMALL_PRIMES@[b]);
    assert forall|k: int| 0 <= k < j implies n % (#[trigger] SMALL_PRIMES@[k] as int) != 0 by {
        assert(2 <= SMALL_PRIMES@[k] < n);
    }
}

/// Baillie-PSW primality test: trial division by the small primes, then a strong
/// Miller-Rabin test to base 2 and a strong Lucas-Selfridge test.
pub fn is_prime_bpsw(n: u64) -> (r: bool)
    ensures
        r == bpsw_prime(n as int),
        r ==> forall|d: int| 2 <= d <= 100 && d < n ==> #[trigger] (n as int % d) != 0,
        r && n < 10201 ==> is_prime(n as int),
        is_prime(n as int) && n <= 97 ==> r,
{
    let r = is_prime_bpsw_impl(n);
    proof {
        if r {
            lemma_bpsw_accepts_no_small_composite(n as int);
        }
        if is_prime(n as int) && n <= 97 {
            lemma_bpsw_accepts_small_primes(n as int);
        }
    }
    r
}

/// The test itself, as `is_prime_bpsw` runs it.
fn is_prime_bpsw_impl(n: u64) -> (r: bool)
    ensures
        r == bpsw_prime(n as int),
{
    if n < 2 {
        return false;
    }
    let mut i: usize = 0;
    while i < 25
        invariant
            n >= 2,
            i <= 25,
            forall|j: int| 0 <= j < i ==> n % #[trigger] SMALL_PRIMES@[j] != 0 && n != SMALL_PRIMES@[j],
        decreases 25 - i,
    {
        let p = SMALL_PRIMES[i];
        if n == p {
            return true;
        }
        if n.is_multiple_of(p) {
            proof {
                assert forall|k: int| 0 <= k < 25 && n == #[trigger] SMALL_PRIMES@[k] implies
                    exists|j: int| 0 <= j < k && n % #[trigger] SMALL_PRIMES@[j] == 0 by {
                    assert(k > i);
                    assert(n % SMALL_PRIMES@[i as int] == 0);
                }
            }
            return false;
        }
        i += 1;
    }
    assert(n % 2 == 1) by {
        assert(n % SMALL_PRIMES@[0] != 0);
    }
    if !miller_rabin_strong(n, 2) {
        return false;
    }
    assert(n < 0xffff_ffff_ffff_ffff) by {
        assert(n % SMALL_PRIMES@[1] != 0);
        assert(0xffff_ffff_ffff_ffffu64 % 3 == 0);
    }
    strong_lucas_test(n)
}

} // verus!
