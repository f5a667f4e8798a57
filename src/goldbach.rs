use crate::factor::{is_prime, lemma_divides_trans};
use crate::text::{base_digits, decimal, push_all, string_of};
use vstd::arithmetic::div_mod::*;
use vstd::prelude::*;

verus! {

/// The search for odd composites stops below this bound.
pub const SEARCH_LIMIT: u64 = 1_000_000;

/// `n` is a prime plus twice a positive square.
pub open spec fn prime_plus_twice_square(n: int) -> bool {
    exists|k: int| k >= 1 && 2 * k * k <= n - 2 && #[trigger] is_prime(n - 2 * k * k)
}

/// An odd composite number from nine on that is not a prime plus twice a square.
pub open spec fn is_counterexample(n: int) -> bool {
    n >= 9 && n % 2 == 1 && !is_prime(n) && !prime_plus_twice_square(n)
}

/// The counterexamples below `h`, in increasing order.
pub open spec fn counterexamples_below(h: nat) -> Seq<nat>
    decreases h,
{
    if h == 0 {
        Seq::empty()
    } else {
        let s = counterexamples_below((h - 1) as nat);
        if is_counterexample(h - 1) {
            s.push((h - 1) as nat)
        } else {
            s
        }
    }
}

proof fn lemma_below_prefix(a: nat, b: nat)
    requires
        a <= b,
    ensures
        counterexamples_below(a).len() <= counterexamples_below(b).len(),
        forall|i: int|
            0 <= i < counterexamples_below(a).len() ==> #[trigger] counterexamples_below(a)[i]
                == counterexamples_below(b)[i],
    decreases b - a,
{
    if a < b {
        lemma_below_prefix(a, (b - 1) as nat);
    }
}

/// Whether `n` is prime, by trial division with divisors `6k ± 1` up to its square root.
pub fn is_prime_u64(n: u64) -> (r: bool)
    ensures
        r == is_prime(n as int),
{
    if n <= 1 {
        return false;
    }
    if n <= 3 {
        assert(is_prime(n as int)) by {
            assert forall|d: int| 2 <= d < n implies #[trigger] ((n as int) % d) != 0 by {
                assert(d == 2 && n == 3);
            }
        }
        return true;
    }
    if n % 2 == 0 || n % 3 == 0 {
        assert((n as int) % 2 == 0 || (n as int) % 3 == 0);
        return false;
    }
    proof {
        if (n as int) % 4 == 0 {
            lemma_divides_trans(2, 4, n as int);
        }
    }
    let mut i: u64 = 5;
    let mut w: u64 = 2;
    while i <= n / i
        invariant
            n > 3,
            n % 2 != 0,
            n % 3 != 0,
            5 <= i <= n,
            (i % 6 == 5 && w == 2) || (i % 6 == 1 && w == 4),
            forall|d: int| 2 <= d < i ==> #[trigger] ((n as int) % d) != 0,
        decreases n - i,
    {
        proof {
            lemma_fundamental_div_mod(n as int, i as int);
            assert(i * i <= n) by (nonlinear_arith)
                requires
                    i <= n / i,
                    n == i * (n / i) + n % i,
                    n % i >= 0,
                    i > 0,
            ;
            assert(i < n) by (nonlinear_arith)
                requires
                    i * i <= n,
                    i >= 5,
            ;
        }
        if n % i == 0 {
            assert((n as int) % (i as int) == 0);
            return false;
        }
        let next = i + w;
        proof {
            assert forall|d: int| 2 <= d < next implies #[trigger] ((n as int) % d) != 0 by {
                if d >= i && d != i && (n as int) % d == 0 {
                    assert(d % 2 == 0 || d % 3 == 0);
                    if d % 2 == 0 {
                        lemma_divides_trans(2, d, n as int);
                    } else {
                        lemma_divides_trans(3, d, n as int);
                    }
                }
            }
            lemma_fundamental_div_mod(n as int, i as int);
            assert(i * i <= n) by (nonlinear_arith)
                requires
                    i <= n / i,
                    n == i * (n / i) + n % i,
                    n % i >= 0,
                    i > 0,
            ;
            assert(next <= n) by (nonlinear_arith)
                requires
                    i * i <= n,
                    i >= 5,
                    next <= i + 4,
            ;
        }
        i = next;
        w = 6 - w;
    }
    proof {
        lemma_fundamental_div_mod(n as int, i as int);
        assert forall|d: int| 2 <= d < n implies #[trigger] ((n as int) % d) != 0 by {
            if d >= i && (n as int) % d == 0 {
                let q = (n as int) / d;
                lemma_fundamental_div_mod(n as int, d);
                assert(n < i * i) by (nonlinear_arith)
                    requires
                        n / i < i,
                        n == i * (n / i) + n % i,
                        n % i < i,
                        i > 0,
                ;
                assert(2 <= q < i) by (nonlinear_arith)
                    requires
                        n == d * q,
                        i <= d < n,
                        n < i * i,
                ;
                lemma_mod_multiples_basic(d, q);
                assert(n == d * q);
            }
        }
    }
    true
}

/// Whether odd `n` is a prime plus twice a positive square.
fn has_square_form(n: u64) -> (r: bool)
    requires
        n <= SEARCH_LIMIT,
    ensures
        r == prime_plus_twice_square(n as int),
{
    let mut k: u64 = 1;
    while 2 * (k * k) + 2 <= n
        invariant
            1 <= k <= 1000,
            k * k <= 1_000_000,
            n <= SEARCH_LIMIT,
            forall|j: int| 1 <= j < k ==> !#[trigger] is_prime(n - 2 * j * j),
        decreases n - k,
    {
        assert(2 * (k * k) == 2 * k * k) by (nonlinear_arith);
        if is_prime_u64(n - 2 * (k * k)) {
            return true;
        }
        assert(k < 1000 && k < n && (k + 1) * (k + 1) <= 1_000_000) by (nonlinear_arith)
            requires
                2 * (k * k) + 2 <= n,
                n <= 1_000_000,
                k >= 1,
        ;
        k = k + 1;
    }
    assert forall|j: int| j >= 1 && 2 * j * j <= n - 2 implies !#[trigger] is_prime(n - 2 * j * j) by {
        if j >= k {
            assert(2 * j * j >= 2 * (k * k)) by (nonlinear_arith)
                requires
                    j >= k,
                    k >= 1,
            ;
        }
    }
    false
}

/// The text `a,b` of the first two counterexamples below `SEARCH_LIMIT`; empty where
/// there are fewer.
pub open spec fn goldbach_text() -> Seq<char> {
    let s = counterexamples_below(SEARCH_LIMIT as nat);
    if s.len() >= 2 {
        decimal(s[0]) + seq![','] + decimal(s[1])
    } else {
        Seq::empty()
    }
}

/// The two smallest odd composite numbers that are not a prime plus twice a square,
/// as `a,b`.
pub fn goldbach_conjecture() -> (r: String)
    ensures
        r@ == goldbach_text(),
{
    let mut results: Vec<u64> = Vec::new();
    let mut n: u64 = 9;
    assert(counterexamples_below(9) =~= Seq::<nat>::empty()) by {
        reveal_with_fuel(counterexamples_below, 10);
    }
    while results.len() < 2 && n < SEARCH_LIMIT
        invariant
            9 <= n <= SEARCH_LIMIT + 1,
            n % 2 == 1,
            results@.len() <= 2,
            results@.map_values(|v: u64| v as nat) == counterexamples_below(n as nat),
        decreases SEARCH_LIMIT + 1 - n,
    {
        let composite = !is_prime_u64(n);
        let found = composite && !has_square_form(n);
        assert(found == is_counterexample(n as int));
        let ghost before = results@;
        if found {
            results.push(n);
            assert(results@.map_values(|v: u64| v as nat) =~= before.map_values(|v: u64| v as nat).push(
                n as nat,
            ));
        }
        assert(!is_counterexample(n + 1));
        assert(counterexamples_below(n as nat + 2) == counterexamples_below(n as nat + 1));
        n = n + 2;
    }
    proof {
        if n <= SEARCH_LIMIT {
            lemma_below_prefix(n as nat, SEARCH_LIMIT as nat);
        } else {
            assert(counterexamples_below(SEARCH_LIMIT as nat + 1) == counterexamples_below(
                SEARCH_LIMIT as nat,
            ));
        }
    }
    let mut out: Vec<char> = Vec::new();
    if results.len() >= 2 {
        assert(results@[0] as nat == counterexamples_below(n as nat)[0]);
        assert(results@[1] as nat == counterexamples_below(n as nat)[1]);
        push_all(&mut out, &base_digits(results[0], 10));
        out.push(',');
        push_all(&mut out, &base_digits(results[1], 10));
    }
    assert(out@ =~= goldbach_text());
    string_of(&out)
}

} // verus!
