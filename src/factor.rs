use crate::primality::{has_passing_base, miller_rabin};
use crate::rho::pollard_rho;
use vstd::arithmetic::div_mod::*;
use vstd::prelude::*;

verus! {

/// Trial division tries every divisor from 2 up to, not including, this bound.
pub const TRIAL_LIMIT: u128 = 1000;

/// Miller–Rabin bases per primality decision in `find_max_prime_factor`.
pub const WITNESSES: usize = 20;

/// Pollard's rho runs, each from a fresh random seed, before a cofactor is given up.
pub const RHO_ATTEMPTS: u32 = 32;

/// Why no factorization was produced.
#[derive(Debug, Clone, Copy, PartialEq, Eq)]
pub enum FactorError {
    /// The input is below two and has no prime factors.
    EmptyFactorization,
    /// A composite cofactor resisted every Pollard's rho attempt.
    FactorizationExhausted,
}

pub open spec fn is_prime(n: int) -> bool {
    n >= 2 && forall|d: int| 2 <= d < n ==> #[trigger] (n % d) != 0
}

/// At least two, with no divisor below the trial bound other than itself.
pub open spec fn sieved(f: int) -> bool {
    f >= 2 && forall|d: int| 2 <= d < TRIAL_LIMIT && d < f ==> #[trigger] (f % d) != 0
}

/// At least two, with no divisor at all below the trial bound.
pub open spec fn rough(f: int) -> bool {
    f >= 2 && forall|d: int| 2 <= d < TRIAL_LIMIT ==> #[trigger] (f % d) != 0
}

pub open spec fn product(s: Seq<u128>) -> int
    decreases s.len(),
{
    if s.len() == 0 {
        1
    } else {
        product(s.drop_last()) * s.last()
    }
}

pub open spec fn total(s: Seq<u128>) -> nat
    decreases s.len(),
{
    if s.len() == 0 {
        0
    } else {
        total(s.drop_last()) + s.last() as nat
    }
}

/// A factor as it may be recorded: trial division leaves it whole, and from the
/// trial bound on, some Miller–Rabin base finds it a strong probable prime.
pub open spec fn recorded(f: int) -> bool {
    &&& sieved(f)
    &&& f >= TRIAL_LIMIT ==> has_passing_base(f)
}

/// `fs` multiplies out to `n`, and each of its members may be recorded.
pub open spec fn is_factorization(fs: Seq<u128>, n: int) -> bool {
    &&& product(fs) == n
    &&& forall|i: int| 0 <= i < fs.len() ==> recorded(#[trigger] fs[i] as int)
}

/// Every prime factor of `n` lies below the trial bound, so trial division alone
/// splits `n` completely.
pub open spec fn trial_division_suffices(n: int) -> bool {
    forall|q: int| 2 <= q && #[trigger] (n % q) == 0 && is_prime(q) ==> q < TRIAL_LIMIT
}

/// A number from two on has a prime divisor.
proof fn lemma_prime_divisor(m: int) -> (q: int)
    requires
        m >= 2,
    ensures
        2 <= q <= m,
        is_prime(q),
        m % q == 0,
    decreases m,
{
    if is_prime(m) {
        lemma_mod_self_0(m);
        m
    } else {
        let d = choose|d: int| 2 <= d < m && #[trigger] (m % d) == 0;
        let q = lemma_prime_divisor(d);
        lemma_divides_trans(q, d, m);
        q
    }
}

pub open spec fn is_max_of(fs: Seq<u128>, p: u128) -> bool {
    &&& fs.contains(p)
    &&& forall|i: int| 0 <= i < fs.len() ==> #[trigger] fs[i] <= p
}

pub(crate) proof fn lemma_divides_trans(d: int, a: int, b: int)
    requires
        d > 0,
        a > 0,
        a % d == 0,
        b % a == 0,
    ensures
        b % d == 0,
{
    lemma_fundamental_div_mod(a, d);
    lemma_fundamental_div_mod(b, a);
    let k = (a / d) * (b / a);
    assert(b == k * d) by (nonlinear_arith)
        requires
            a == d * (a / d),
            b == a * (b / a),
            k == (a / d) * (b / a),
    ;
    lemma_mod_multiples_basic(k, d);
}

/// Below the square of the trial bound, a number that trial division leaves whole is prime.
pub proof fn lemma_sieved_small_is_prime(f: int)
    requires
        sieved(f),
        f < TRIAL_LIMIT * TRIAL_LIMIT,
    ensures
        is_prime(f),
{
    assert forall|d: int| 2 <= d < f implies #[trigger] (f % d) != 0 by {
        if f % d == 0 && d >= TRIAL_LIMIT {
            let q = f / d;
            lemma_fundamental_div_mod(f, d);
            assert(2 <= q < TRIAL_LIMIT) by (nonlinear_arith)
                requires
                    f == d * q,
                    TRIAL_LIMIT <= d < f,
                    f < TRIAL_LIMIT * TRIAL_LIMIT,
            ;
            assert(q < f) by (nonlinear_arith)
                requires
                    f == d * q,
                    d >= 2,
                    q >= 2,
            ;
            lemma_mod_multiples_basic(d, q);
            assert(f == d * q);
        }
    }
}

/// Each member of a sequence of factors at least two divides the product and is at most it.
pub proof fn lemma_member_divides_product(s: Seq<u128>, i: int)
    requires
        0 <= i < s.len(),
        forall|j: int| 0 <= j < s.len() ==> #[trigger] s[j] >= 2,
    ensures
        product(s) % (s[i] as int) == 0,
        s[i] <= product(s),
        product(s) >= 1,
    decreases s.len(),
{
    let t = s.drop_last();
    let l = s.last() as int;
    if t.len() > 0 {
        lemma_member_divides_product(t, 0);
    }
    let pt = product(t);
    assert(pt >= 1);
    if i == s.len() - 1 {
        lemma_mod_multiples_basic(pt, l);
        assert(pt * l >= l) by (nonlinear_arith)
            requires
                pt >= 1,
                l >= 2,
        ;
    } else {
        lemma_member_divides_product(t, i);
        let si = s[i] as int;
        assert(t[i] == s[i]);
        lemma_fundamental_div_mod(pt, si);
        let k = (pt / si) * l;
        assert(pt * l == k * si && pt * l >= pt) by (nonlinear_arith)
            requires
                pt == si * (pt / si),
                k == (pt / si) * l,
                pt >= 1,
                l >= 2,
        ;
        lemma_mod_multiples_basic(k, si);
    }
    assert(pt * l >= 1) by (nonlinear_arith)
        requires
            pt >= 1,
            l >= 2,
    ;
}

/// A proper factor of odd `t`, from up to `RHO_ATTEMPTS` Pollard's rho runs.
fn find_factor(t: u128) -> (r: Option<u128>)
    requires
        t > 2,
        t % 2 == 1,
    ensures
        r matches Some(f) ==> 1 < f < t && t % f == 0,
{
    let mut attempt: u32 = 0;
    while attempt < RHO_ATTEMPTS
        invariant
            t > 2,
            t % 2 == 1,
        decreases RHO_ATTEMPTS - attempt,
    {
        if let Some(f) = pollard_rho(t) {
            return Some(f);
        }
        attempt = attempt + 1;
    }
    None
}

/// A divisor of a rough number, at least two, is rough too.
proof fn lemma_rough_divisor(t: int, f: int)
    requires
        rough(t),
        f >= 2,
        t % f == 0,
    ensures
        rough(f),
{
    assert forall|d: int| 2 <= d < TRIAL_LIMIT implies #[trigger] (f % d) != 0 by {
        if f % d == 0 {
            lemma_divides_trans(d, f, t);
        }
    }
}

/// The prime factors of `n` in the order they are found: first by trial division
/// below `TRIAL_LIMIT`, then by Miller–Rabin with `k` bases and Pollard's rho on a
/// worklist of cofactors. Members found by trial division are prime; the others
/// passed Miller–Rabin, and below `TRIAL_LIMIT^2` they are prime as well.
pub fn prime_factors(n: u128, k: usize) -> (r: Result<Vec<u128>, FactorError>)
    requires
        k >= 1,
    ensures
        n < 2 <==> r == Err::<Vec<u128>, FactorError>(FactorError::EmptyFactorization),
        r matches Ok(fs) ==> fs@.len() > 0 && is_factorization(fs@, n as int),
        n >= 2 && trial_division_suffices(n as int) ==> r is Ok,
{
    if n < 2 {
        return Err(FactorError::EmptyFactorization);
    }
    let mut fs: Vec<u128> = Vec::new();
    let mut m: u128 = n;
    let mut p: u128 = 2;
    while p < TRIAL_LIMIT
        invariant
            2 <= p <= TRIAL_LIMIT,
            m >= 1,
            product(fs@) * m == n,
            forall|i: int| 0 <= i < fs@.len() ==> recorded(#[trigger] fs@[i] as int),
            forall|d: int| 2 <= d < p ==> #[trigger] ((m as int) % d) != 0,
        decreases TRIAL_LIMIT - p,
    {
        while m % p == 0
            invariant
                2 <= p < TRIAL_LIMIT,
                m >= 1,
                product(fs@) * m == n,
                forall|i: int| 0 <= i < fs@.len() ==> recorded(#[trigger] fs@[i] as int),
                forall|d: int| 2 <= d < p ==> #[trigger] ((m as int) % d) != 0,
            decreases m,
        {
            assert(sieved(p as int)) by {
                assert forall|d: int| 2 <= d < TRIAL_LIMIT && d < p implies #[trigger] ((
                p as int) % d) != 0 by {
                    if (p as int) % d == 0 {
                        lemma_divides_trans(d, p as int, m as int);
                    }
                }
            }
            let ghost old_fs = fs@;
            let ghost old_m = m as int;
            fs.push(p);
            m = m / p;
            proof {
                lemma_fundamental_div_mod(old_m, p as int);
                assert(fs@.drop_last() =~= old_fs);
                assert(product(fs@) == product(old_fs) * p);
                assert(product(fs@) * m == product(old_fs) * old_m) by (nonlinear_arith)
                    requires
                        product(fs@) == product(old_fs) * p,
                        old_m == p * (m as int),
                ;
                assert(1 <= m < old_m) by (nonlinear_arith)
                    requires
                        old_m == p * (m as int),
                        old_m >= 1,
                        m >= 0,
                        p >= 2,
                ;
                assert forall|d: int| 2 <= d < p implies #[trigger] ((m as int) % d) != 0 by {
                    if (m as int) % d == 0 {
                        lemma_mod_multiples_basic(m as int, p as int);
                        assert(old_m % (m as int) == 0) by {
                            assert(old_m == (m as int) * (p as int)) by (nonlinear_arith)
                                requires
                                    old_m == p * (m as int),
                            ;
                            lemma_mod_multiples_basic(p as int, m as int);
                        }
                        lemma_divides_trans(d, m as int, old_m);
                    }
                }
            }
        }
        p = p + 1;
    }
    if m == 1 {
        assert(fs@.len() > 0) by {
            if fs@.len() == 0 {
                assert(product(fs@) == 1);
            }
        }
        return Ok(fs);
    }
    proof {
        let q = lemma_prime_divisor(m as int);
        if q < TRIAL_LIMIT {
            assert((m as int) % q != 0);
        }
        lemma_mod_multiples_basic(product(fs@), m as int);
        lemma_divides_trans(q, m as int, n as int);
        assert(!trial_division_suffices(n as int));
    }
    let mut stack: Vec<u128> = Vec::new();
    if m > 1 {
        stack.push(m);
        assert(product(stack@) == m) by {
            assert(stack@.drop_last() =~= Seq::<u128>::empty());
            assert(product(Seq::<u128>::empty()) == 1);
        }
    } else {
        assert(product(stack@) == 1);
    }
    while stack.len() > 0
        invariant
            n >= 2,
            k >= 1,
            !trial_division_suffices(n as int),
            product(fs@) * product(stack@) == n,
            forall|i: int| 0 <= i < fs@.len() ==> recorded(#[trigger] fs@[i] as int),
            forall|i: int| 0 <= i < stack@.len() ==> rough(#[trigger] stack@[i] as int),
            fs@.len() > 0 || stack@.len() > 0,
        decreases total(stack@),
    {
        let ghost old_stack = stack@;
        let ghost old_fs = fs@;
        let t = stack.pop().unwrap();
        assert(stack@ =~= old_stack.drop_last());
        assert(rough(t as int) && old_stack.last() == t) by {
            assert(old_stack[old_stack.len() - 1] == t);
        }
        assert(t % 2 != 0);
        assert(t >= TRIAL_LIMIT) by {
            if t < TRIAL_LIMIT {
                lemma_mod_self_0(t as int);
            }
        }
        if miller_rabin(t, k) {
            fs.push(t);
            proof {
                assert(fs@.drop_last() =~= old_fs);
                assert(product(fs@) * product(stack@) == product(old_fs) * product(old_stack))
                    by (nonlinear_arith)
                    requires
                        product(fs@) == product(old_fs) * t,
                        product(old_stack) == product(stack@) * t,
                ;
            }
        } else {
            match find_factor(t) {
                Some(f) => {
                    let q = t / f;
                    let ghost mid = stack@;
                    proof {
                        lemma_fundamental_div_mod(t as int, f as int);
                        assert(q >= 2) by (nonlinear_arith)
                            requires
                                t == f * q,
                                f < t,
                                f >= 2,
                        ;
                        lemma_mod_multiples_basic(f as int, q as int);
                        assert(t == q * f) by (nonlinear_arith)
                            requires
                                t == f * q,
                        ;
                        lemma_rough_divisor(t as int, f as int);
                        lemma_rough_divisor(t as int, q as int);
                        assert(rough(f as int) ==> f >= TRIAL_LIMIT) by {
                            if f < TRIAL_LIMIT {
                                lemma_mod_self_0(f as int);
                            }
                        }
                        assert(rough(q as int) ==> q >= TRIAL_LIMIT) by {
                            if q < TRIAL_LIMIT {
                                lemma_mod_self_0(q as int);
                            }
                        }
                        assert(f + q < t) by (nonlinear_arith)
                            requires
                                t == f * q,
                                f >= 3,
                                q >= 3,
                        ;
                    }
                    stack.push(f);
                    stack.push(q);
                    proof {
                        let s1 = mid.push(f);
                        assert(stack@ =~= s1.push(q));
                        assert(stack@.drop_last() =~= s1);
                        assert(s1.drop_last() =~= mid);
                        assert(product(s1) == product(mid) * f);
                        assert(product(stack@) == product(s1) * q);
                        assert(total(s1) == total(mid) + f);
                        assert(total(stack@) == total(mid) + f + q);
                        assert(product(stack@) == product(mid) * t) by (nonlinear_arith)
                            requires
                                product(stack@) == product(mid) * f * q,
                                t == f * q,
                        ;
                        assert forall|i: int| 0 <= i < stack@.len() implies rough(
                            #[trigger] stack@[i] as int,
                        ) by {
                            if i < mid.len() {
                                assert(stack@[i] == old_stack[i]);
                            }
                        }
                    }
                },
                None => {
                    return Err(FactorError::FactorizationExhausted);
                },
            }
        }
    }
    Ok(fs)
}

/// The largest member of a nonempty sequence.
fn largest(fs: &Vec<u128>) -> (r: u128)
    requires
        fs@.len() > 0,
    ensures
        is_max_of(fs@, r),
{
    let mut best: u128 = fs[0];
    let mut i: usize = 1;
    assert(fs@.subrange(0, 1)[0] == best);
    while i < fs.len()
        invariant
            1 <= i <= fs@.len(),
            fs@.subrange(0, i as int).contains(best),
            forall|j: int| 0 <= j < i ==> #[trigger] fs@[j] <= best,
        decreases fs@.len() - i,
    {
        if fs[i] > best {
            best = fs[i];
        }
        assert(fs@.subrange(0, i as int + 1).contains(best)) by {
            if best == fs@[i as int] {
                assert(fs@.subrange(0, i as int + 1)[i as int] == best);
            } else {
                let w = choose|w: int| 0 <= w < i && fs@.subrange(0, i as int)[w] == best;
                assert(fs@.subrange(0, i as int + 1)[w] == best);
            }
        }
        i = i + 1;
    }
    assert(fs@.subrange(0, fs@.len() as int) =~= fs@);
    best
}

/// The largest prime factor of `n`, as the largest member of the factorization
/// that `prime_factors` produces with `WITNESSES` Miller–Rabin bases.
pub fn find_max_prime_factor(n: u128) -> (r: Result<u128, FactorError>)
    ensures
        n < 2 <==> r == Err::<u128, FactorError>(FactorError::EmptyFactorization),
        r matches Ok(p) ==> {
            &&& p >= 2
            &&& n % p == 0
            &&& exists|fs: Seq<u128>| is_factorization(fs, n as int) && #[trigger] is_max_of(fs, p)
        },
        r matches Ok(p) ==> (n < TRIAL_LIMIT * TRIAL_LIMIT ==> is_prime(p as int)),
        n >= 2 && trial_division_suffices(n as int) ==> r is Ok,
{
    match prime_factors(n, WITNESSES) {
        Ok(fs) => {
            let p = largest(&fs);
            proof {
                let i = choose|i: int| 0 <= i < fs@.len() && fs@[i] == p;
                assert forall|j: int| 0 <= j < fs@.len() implies #[trigger] fs@[j] >= 2 by {
                    assert(sieved(fs@[j] as int));
                }
                lemma_member_divides_product(fs@, i);
                assert(sieved(fs@[i] as int));
                if n < TRIAL_LIMIT * TRIAL_LIMIT {
                    lemma_sieved_small_is_prime(p as int);
                }
                assert(is_max_of(fs@, p));
            }
            Ok(p)
        },
        Err(e) => Err(e),
    }
}

} // verus!
