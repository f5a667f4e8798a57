use vstd::arithmetic::div_mod::*;
use vstd::arithmetic::power::*;
use vstd::prelude::*;

verus! {

/// Greatest common divisor, by Euclid's recurrence.
pub open spec fn gcd_spec(a: nat, b: nat) -> nat
    decreases b,
{
    if b == 0 {
        a
    } else {
        gcd_spec(b, a % b)
    }
}

/// `x + y` reduced modulo `m`, for `x` and `y` already below `m`; never overflows.
pub(crate) fn add_mod(x: u128, y: u128, m: u128) -> (r: u128)
    requires
        x < m,
        y < m,
    ensures
        r == (x + y) % (m as int),
{
    if x >= m - y {
        let r = x - (m - y);
        proof {
            lemma_fundamental_div_mod_converse_mod(x + y, m as int, 1, r as int);
        }
        r
    } else {
        proof {
            lemma_fundamental_div_mod_converse_mod(x + y, m as int, 0, (x + y) as int);
        }
        x + y
    }
}

proof fn lemma_mod_congruent_add(x: int, y: int, z: int, m: int)
    requires
        m > 0,
        y % m == z % m,
    ensures
        (x + y) % m == (x + z) % m,
{
    lemma_add_mod_noop(x, y, m);
    lemma_add_mod_noop(x, z, m);
}

proof fn lemma_mod_congruent_mul(x: int, x2: int, y: int, y2: int, m: int)
    requires
        m > 0,
        x % m == x2 % m,
        y % m == y2 % m,
    ensures
        (x * y) % m == (x2 * y2) % m,
{
    lemma_mul_mod_noop(x, y, m);
    lemma_mul_mod_noop(x2, y2, m);
}

proof fn lemma_halving_step(acc: int, x: int, y: int, m: int)
    requires
        m > 0,
        y >= 0,
    ensures
        ((acc + x * (y % 2)) % m + ((2 * x) % m) * (y / 2)) % m == (acc + x * y) % m,
{
    let a = acc + x * (y % 2);
    let b = ((2 * x) % m) * (y / 2);
    let c = (2 * x) * (y / 2);
    lemma_mod_twice(a, m);
    lemma_mod_congruent_add(b, a % m, a, m);
    lemma_mul_mod_noop_left(2 * x, y / 2, m);
    lemma_mod_congruent_add(a, b, c, m);
    assert(y == 2 * (y / 2) + y % 2);
    assert(x * y == x * (y % 2) + (2 * x) * (y / 2)) by (nonlinear_arith)
        requires
            y == 2 * (y / 2) + y % 2,
    ;
}

/// `(a * b) mod m`, computed by doubling so that no intermediate value exceeds `m` twice over.
pub fn mulmod(a: u128, b: u128, m: u128) -> (r: u128)
    requires
        m > 0,
    ensures
        r as int == (a as int * b as int) % (m as int),
{
    let mut acc: u128 = 0;
    let mut x: u128 = a % m;
    let mut y: u128 = b;
    proof {
        lemma_mul_mod_noop_left(a as int, b as int, m as int);
    }
    while y > 0
        invariant
            m > 0,
            acc < m,
            x < m,
            (acc + x * y) % (m as int) == (a as int * b as int) % (m as int),
        decreases y,
    {
        proof {
            lemma_halving_step(acc as int, x as int, y as int, m as int);
        }
        let ghost y0 = y as int;
        let ghost x0 = x as int;
        let ghost acc0 = acc as int;
        if y % 2 == 1 {
            acc = add_mod(acc, x, m);
            assert(x0 * (y0 % 2) == x0) by (nonlinear_arith)
                requires
                    y0 % 2 == 1,
            ;
        } else {
            proof {
                lemma_small_mod(acc as nat, m as nat);
            }
            assert(x0 * (y0 % 2) == 0) by (nonlinear_arith)
                requires
                    y0 % 2 == 0,
            ;
        }
        assert(acc as int == (acc0 + x0 * (y0 % 2)) % (m as int));
        x = add_mod(x, x, m);
        assert(x as int == (2 * x0) % (m as int));
        y = y / 2;
    }
    proof {
        lemma_small_mod(acc as nat, m as nat);
    }
    acc
}

proof fn lemma_square_step(result: int, b: int, e: nat, m: int)
    requires
        m > 0,
    ensures
        ((result * pow(b, e % 2)) % m * pow((b * b) % m, e / 2)) % m == (result * pow(b, e)) % m,
{
    let h = e / 2;
    let t = e % 2;
    lemma_pow_mod_noop(b * b, h, m);
    lemma_mod_twice(result * pow(b, t), m);
    lemma_mod_congruent_mul(
        (result * pow(b, t)) % m,
        result * pow(b, t),
        pow((b * b) % m, h),
        pow(b * b, h),
        m,
    );
    assert(b * b == pow(b, 2)) by {
        lemma_pow1(b);
        lemma_pow_adds(b, 1, 1);
    }
    lemma_pow_multiplies(b, 2, h);
    lemma_pow_adds(b, t, 2 * h);
    assert(e == t + 2 * h);
    assert(result * pow(b, t) * pow(b, 2 * h) == result * (pow(b, t) * pow(b, 2 * h))) by (nonlinear_arith);
}

/// `base` raised to `exp`, reduced modulo `modulus`, by square-and-multiply.
pub fn mod_pow(base: u128, exp: u128, modulus: u128) -> (r: u128)
    requires
        modulus > 0,
    ensures
        r as int == pow(base as int, exp as nat) % (modulus as int),
{
    let m = modulus;
    let mut result: u128 = 1 % m;
    let mut b: u128 = base % m;
    let mut e: u128 = exp;
    proof {
        lemma_pow_mod_noop(base as int, exp as nat, m as int);
        lemma_mod_twice(1, m as int);
        lemma_mod_congruent_mul(1int % (m as int), 1int, pow(b as int, e as nat), pow(base as int, exp as nat), m as int);
    }
    while e > 0
        invariant
            m > 0,
            result < m,
            b < m,
            (result * pow(b as int, e as nat)) % (m as int) == pow(base as int, exp as nat) % (m as int),
        decreases e,
    {
        proof {
            lemma_square_step(result as int, b as int, e as nat, m as int);
            lemma_pow0(b as int);
            lemma_pow1(b as int);
        }
        if e % 2 == 1 {
            result = mulmod(result, b, m);
        } else {
            proof {
                lemma_small_mod(result as nat, m as nat);
            }
        }
        b = mulmod(b, b, m);
        e = e / 2;
    }
    proof {
        lemma_pow0(b as int);
        lemma_small_mod(result as nat, m as nat);
    }
    result
}

/// Greatest common divisor by the iterative Euclidean algorithm.
pub fn gcd(a: u128, b: u128) -> (r: u128)
    ensures
        r as nat == gcd_spec(a as nat, b as nat),
{
    let mut x: u128 = a;
    let mut y: u128 = b;
    while y != 0
        invariant
            gcd_spec(x as nat, y as nat) == gcd_spec(a as nat, b as nat),
        decreases y,
    {
        let t = y;
        y = x % y;
        x = t;
    }
    x
}

/// A nonzero common divisor: the gcd of two numbers, not both zero, is positive and divides both.
pub proof fn lemma_gcd_divides(a: nat, b: nat)
    requires
        a > 0 || b > 0,
    ensures
        gcd_spec(a, b) > 0,
        a % gcd_spec(a, b) == 0,
        b % gcd_spec(a, b) == 0,
    decreases b,
{
    if b == 0 {
        lemma_mod_self_0(a as int);
    } else {
        lemma_gcd_divides(b, a % b);
        let g = gcd_spec(a, b);
        let q = a / b;
        let r = a % b;
        lemma_fundamental_div_mod(a as int, b as int);
        lemma_fundamental_div_mod(b as int, g as int);
        lemma_fundamental_div_mod(r as int, g as int);
        let k = (b / g) * q + r / g;
        assert(a == k * g) by (nonlinear_arith)
            requires
                a == b * q + r,
                b == g * (b / g),
                r == g * (r / g),
                k == (b / g) * q + r / g,
        ;
        lemma_mod_multiples_basic(k as int, g as int);
    }
}

/// Exponent zero gives one for every modulus above one; a zero argument leaves
/// the other one as the gcd.
pub proof fn lemma_identities(a: nat, b: nat, base: int, m: int)
    requires
        m > 1,
    ensures
        pow(base, 0) % m == 1,
        gcd_spec(a, 0) == a,
        gcd_spec(0, b) == b,
{
    lemma_pow0(base);
    lemma_small_mod(1, m as nat);
    if b > 0 {
        lemma_small_mod(0, b);
        assert(gcd_spec(0, b) == gcd_spec(b, 0));
    }
}

} // verus!
