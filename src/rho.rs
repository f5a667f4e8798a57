use crate::modular::{add_mod, gcd, gcd_spec, lemma_gcd_divides, mulmod};
use crate::random::random_below;
use vstd::arithmetic::div_mod::*;
use vstd::prelude::*;

verus! {

/// Rounds of one Pollard's rho run before it gives up on its seed.
pub const RHO_ROUNDS: u64 = 1_000_000;

/// The pseudo-random map `t -> (t^2 + c) mod n`.
pub open spec fn rho_step(n: int, c: int, t: int) -> int {
    (t * t + c) % n
}

/// The `i`-th value of the sequence that starts at `x0` and follows `rho_step`.
pub open spec fn rho_value(n: int, c: int, x0: int, i: nat) -> int
    decreases i,
{
    if i == 0 {
        x0
    } else {
        rho_step(n, c, rho_value(n, c, x0, (i - 1) as nat))
    }
}

pub open spec fn abs_diff(a: int, b: int) -> nat {
    if a >= b {
        (a - b) as nat
    } else {
        (b - a) as nat
    }
}

/// The gcd that round `i` computes: of `n` and the distance between the tortoise
/// (at step `i`) and the hare (at step `2i`).
pub open spec fn rho_gcd(n: int, c: int, x0: int, i: nat) -> nat {
    gcd_spec(abs_diff(rho_value(n, c, x0, i), rho_value(n, c, x0, 2 * i)), n as nat)
}

/// Every round from the first up to `i` found only the trivial gcd one.
pub open spec fn rounds_trivial(n: int, c: int, x0: int, i: nat) -> bool {
    forall|j: nat| 1 <= j <= i ==> #[trigger] rho_gcd(n, c, x0, j) == 1
}

fn rho_next(n: u128, c: u128, t: u128) -> (r: u128)
    requires
        n > 0,
        c < n,
    ensures
        r == rho_step(n as int, c as int, t as int),
{
    let sq = mulmod(t, t, n);
    proof {
        lemma_small_mod(c as nat, n as nat);
        lemma_add_mod_noop((t * t) as int, c as int, n as int);
        lemma_mod_twice((t * t) as int, n as int);
    }
    add_mod(sq, c, n)
}

/// One Pollard's rho run from start `x0` with constant `c`, for at most `rounds`
/// rounds. It returns the first gcd other than one if that gcd is a proper factor
/// of `n`; `None` if that gcd is `n` itself or if every round gave one.
pub fn pollard_rho_from(n: u128, x0: u128, c: u128, rounds: u64) -> (r: Option<u128>)
    requires
        n > 2,
        x0 < n,
        c < n,
    ensures
        r matches Some(d) ==> {
            &&& 1 < d < n
            &&& n % d == 0
            &&& exists|i: nat|
                1 <= i <= rounds && rounds_trivial(n as int, c as int, x0 as int, (i - 1) as nat)
                    && #[trigger] rho_gcd(n as int, c as int, x0 as int, i) == d
        },
        r is None ==> rounds_trivial(n as int, c as int, x0 as int, rounds as nat) || exists|i: nat|
            1 <= i <= rounds && rounds_trivial(n as int, c as int, x0 as int, (i - 1) as nat)
                && #[trigger] rho_gcd(n as int, c as int, x0 as int, i) == n,
{
    let ghost nn = n as int;
    let ghost cc = c as int;
    let ghost xx = x0 as int;
    let mut x: u128 = x0;
    let mut y: u128 = x0;
    let mut i: u64 = 0;
    while i < rounds
        invariant
            n > 2,
            c < n,
            x < n,
            y < n,
            i <= rounds,
            nn == n as int,
            cc == c as int,
            xx == x0 as int,
            x == rho_value(nn, cc, xx, i as nat),
            y == rho_value(nn, cc, xx, 2 * i as nat),
            rounds_trivial(nn, cc, xx, i as nat),
        decreases rounds - i,
    {
        let ghost k = i as nat;
        x = rho_next(n, c, x);
        let y1 = rho_next(n, c, y);
        y = rho_next(n, c, y1);
        i = i + 1;
        assert(rho_value(nn, cc, xx, k + 1) == rho_step(nn, cc, rho_value(nn, cc, xx, k)));
        assert(x == rho_value(nn, cc, xx, k + 1));
        assert(rho_value(nn, cc, xx, 2 * k + 1) == rho_step(nn, cc, rho_value(nn, cc, xx, 2 * k)));
        assert(rho_value(nn, cc, xx, 2 * k + 2) == rho_step(nn, cc, rho_value(nn, cc, xx, 2 * k + 1)));
        assert(y == rho_value(nn, cc, xx, 2 * k + 2));
        assert(i as nat == k + 1);
        assert(2 * (i as nat) == 2 * k + 2);
        let diff = if x > y {
            x - y
        } else {
            y - x
        };
        let d = gcd(diff, n);
        assert(d == rho_gcd(nn, cc, xx, i as nat));
        proof {
            lemma_gcd_divides(diff as nat, n as nat);
        }
        if d != 1 {
            if d == n {
                return None;
            }
            proof {
                if d > n {
                    lemma_small_mod(n as nat, d as nat);
                }
            }
            return Some(d);
        }
        assert(rounds_trivial(nn, cc, xx, i as nat));
    }
    None
}

/// Looks for a factor of `n` with one Pollard's rho run from a random seed; 2 for
/// even `n`. `None` means only that this run found nothing.
pub fn pollard_rho(n: u128) -> (r: Option<u128>)
    ensures
        n < 2 ==> r is None,
        n >= 2 && n % 2 == 0 ==> r == Some(2u128),
        r matches Some(d) ==> 2 <= d && n % d == 0 && (n > 2 ==> d < n),
{
    if n < 2 {
        return None;
    }
    if n % 2 == 0 {
        return Some(2);
    }
    let x0 = random_below(0, n);
    let c = random_below(1, n);
    pollard_rho_from(n, x0, c, RHO_ROUNDS)
}

} // verus!
