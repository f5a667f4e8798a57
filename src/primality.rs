use crate::modular::{mod_pow, mulmod};
use crate::random::random_below;
use vstd::arithmetic::div_mod::*;
use vstd::arithmetic::power::*;
use vstd::arithmetic::power2::*;
use vstd::prelude::*;

verus! {

/// The odd part of `m`: `m` with every factor two taken out (zero stays zero).
pub open spec fn odd_part(m: nat) -> nat
    decreases m,
{
    if m == 0 || m % 2 == 1 {
        m
    } else {
        odd_part(m / 2)
    }
}

/// How many times two divides `m` (zero for `m == 0`).
pub open spec fn twos(m: nat) -> nat
    decreases m,
{
    if m == 0 || m % 2 == 1 {
        0
    } else {
        1 + twos(m / 2)
    }
}

/// `a^(d * 2^r) mod n`: the value a witness reaches after `r` squarings.
pub open spec fn squared_power(n: int, a: int, d: nat, r: nat) -> int {
    pow(a, d * pow2(r)) % n
}

/// `n` is a strong probable prime to base `a`: writing `n - 1 = d * 2^s` with `d` odd,
/// either `a^d = 1 (mod n)` or `a^(d * 2^r) = n - 1 (mod n)` for some `r < s`.
pub open spec fn passes_base(n: int, a: int) -> bool {
    let d = odd_part((n - 1) as nat);
    let s = twos((n - 1) as nat);
    squared_power(n, a, d, 0) == 1 || exists|r: nat| r < s && #[trigger] squared_power(n, a, d, r) == n - 1
}

proof fn lemma_split(m: nat)
    requires
        m > 0,
    ensures
        m == odd_part(m) * pow2(twos(m)),
        odd_part(m) % 2 == 1,
    decreases m,
{
    if m % 2 == 1 {
        lemma_pow2(0);
        lemma_pow0(2);
        assert(pow2(twos(m)) == 1);
    } else {
        lemma_split(m / 2);
        lemma_pow2_unfold(twos(m));
        let o = odd_part(m / 2);
        let p = pow2(twos(m / 2));
        assert(twos(m) == 1 + twos(m / 2));
        assert(pow2(twos(m)) == 2 * p);
        assert(m == 2 * (m / 2));
        assert(o * (2 * p) == 2 * (o * p)) by (nonlinear_arith);
    }
}

proof fn lemma_square_next(n: int, a: int, d: nat, r: nat)
    requires
        n > 0,
    ensures
        squared_power(n, a, d, r + 1) == (squared_power(n, a, d, r) * squared_power(n, a, d, r)) % n,
{
    lemma_pow2_unfold(r + 1);
    let e = d * pow2(r);
    assert(d * pow2(r + 1) == e + e) by (nonlinear_arith)
        requires
            pow2(r + 1) == 2 * pow2(r),
            e == d * pow2(r),
    ;
    lemma_pow_adds(a, e, e);
    lemma_mul_mod_noop(pow(a, e), pow(a, e), n);
}

/// Splits `m > 0` as `d * 2^s` with `d` odd.
pub fn split_pow2(m: u128) -> (res: (u128, u128))
    requires
        m > 0,
    ensures
        res.0 == odd_part(m as nat),
        res.1 == twos(m as nat),
{
    let mut d: u128 = m;
    let mut s: u128 = 0;
    while d % 2 == 0
        invariant
            d > 0,
            s + d <= m,
            odd_part(d as nat) == odd_part(m as nat),
            s + twos(d as nat) == twos(m as nat),
        decreases d,
    {
        d = d / 2;
        s = s + 1;
    }
    (d, s)
}

/// One Miller–Rabin round: whether odd `n > 2` is a strong probable prime to base `a`.
pub fn passes_witness(n: u128, a: u128) -> (r: bool)
    requires
        n > 2,
        n % 2 == 1,
    ensures
        r == passes_base(n as int, a as int),
{
    let (d, s) = split_pow2(n - 1);
    let ghost dn = d as nat;
    proof {
        lemma_split((n - 1) as nat);
        lemma_pow2(0);
        reveal(pow);
        assert(dn * pow2(0) == dn);
    }
    let mut x = mod_pow(a, d, n);
    assert(x == squared_power(n as int, a as int, dn, 0));
    if x == 1 {
        return true;
    }
    if x == n - 1 {
        assert(squared_power(n as int, a as int, dn, 0) == n - 1);
        return true;
    }
    let mut i: u128 = 1;
    while i < s
        invariant
            n > 2,
            1 <= i,
            dn == odd_part((n - 1) as nat),
            s == twos((n - 1) as nat),
            x == squared_power(n as int, a as int, dn, (i - 1) as nat),
            squared_power(n as int, a as int, dn, 0) != 1,
            forall|r: nat| r < i ==> #[trigger] squared_power(n as int, a as int, dn, r) != n - 1,
        decreases s - i,
    {
        proof {
            lemma_square_next(n as int, a as int, dn, (i - 1) as nat);
        }
        x = mulmod(x, x, n);
        if x == n - 1 {
            assert(squared_power(n as int, a as int, dn, i as nat) == n - 1);
            return true;
        }
        i = i + 1;
    }
    false
}

/// Some base in `[2, n - 2]` finds `n` a strong probable prime.
pub open spec fn has_passing_base(n: int) -> bool {
    exists|a: int| 2 <= a <= n - 2 && #[trigger] passes_base(n, a)
}

/// Miller–Rabin with `k` random bases drawn from `[2, n - 2]`. A `false` answer is
/// certain: some base in that range shows `n` composite. A `true` answer means that
/// every drawn base passed; it is probable only, wrong with probability at most `4^-k`.
pub fn miller_rabin(n: u128, k: usize) -> (r: bool)
    requires
        k >= 1,
    ensures
        n < 2 ==> !r,
        n == 2 || n == 3 ==> r,
        n > 3 && n % 2 == 0 ==> !r,
        n > 3 && n % 2 == 1 && !r ==> exists|a: int| 2 <= a <= n - 2 && !passes_base(n as int, a),
        n > 3 && n % 2 == 1 && r ==> has_passing_base(n as int),
{
    if n < 2 {
        return false;
    }
    if n == 2 || n == 3 {
        return true;
    }
    if n % 2 == 0 {
        return false;
    }
    let mut i: usize = 0;
    while i < k
        invariant
            n > 3,
            n % 2 == 1,
            i <= k,
            i > 0 ==> has_passing_base(n as int),
        decreases k - i,
    {
        let a = random_below(2, n - 1);
        if !passes_witness(n, a) {
            return false;
        }
        assert(passes_base(n as int, a as int));
        i = i + 1;
    }
    true
}

} // verus!
