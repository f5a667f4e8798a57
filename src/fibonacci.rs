use vstd::prelude::*;

verus! {

pub open spec fn fib_spec(n: nat) -> nat
    decreases n,
{
    if n == 0 {
        0
    } else if n == 1 {
        1
    } else {
        fib_spec((n - 1) as nat) + fib_spec((n - 2) as nat)
    }
}

/// The Fibonacci number before index `p`, with one standing before index zero.
pub open spec fn fib_prev(p: nat) -> nat {
    if p == 0 {
        1
    } else {
        fib_spec((p - 1) as nat)
    }
}

proof fn lemma_fib_add(m: nat, n: nat)
    ensures
        fib_spec(m + n + 1) == fib_spec(m + 1) * fib_spec(n + 1) + fib_spec(m) * fib_spec(n),
    decreases n,
{
    assert(fib_spec(0) == 0);
    assert(fib_spec(1) == 1);
    assert(fib_spec(2) == fib_spec(1) + fib_spec(0));
    if n == 0 {
        assert(fib_spec(m + 1) * 1 + fib_spec(m) * 0 == fib_spec(m + 1)) by (nonlinear_arith);
    } else if n == 1 {
        assert(fib_spec(m + 2) == fib_spec(m + 1) + fib_spec(m));
        assert(fib_spec(m + 1) * 1 + fib_spec(m) * 1 == fib_spec(m + 1) + fib_spec(m)) by (nonlinear_arith);
    } else {
        lemma_fib_add(m, (n - 1) as nat);
        lemma_fib_add(m, (n - 2) as nat);
        let a = fib_spec(m + 1);
        let b = fib_spec(m);
        assert(fib_spec(m + n + 1) == fib_spec(m + n) + fib_spec((m + n - 1) as nat));
        assert(fib_spec(n + 1) == fib_spec(n) + fib_spec((n - 1) as nat));
        assert(fib_spec(n) == fib_spec((n - 1) as nat) + fib_spec((n - 2) as nat));
        assert(a * fib_spec(n + 1) + b * fib_spec(n) == (a * fib_spec(n) + b * fib_spec(
            (n - 1) as nat,
        )) + (a * fib_spec((n - 1) as nat) + b * fib_spec((n - 2) as nat))) by (nonlinear_arith)
            requires
                fib_spec(n + 1) == fib_spec(n) + fib_spec((n - 1) as nat),
                fib_spec(n) == fib_spec((n - 1) as nat) + fib_spec((n - 2) as nat),
        ;
    }
}

proof fn lemma_fib_mono(i: nat, j: nat)
    requires
        i <= j,
    ensures
        fib_spec(i) <= fib_spec(j),
    decreases j - i,
{
    if i < j {
        lemma_fib_mono(i, (j - 1) as nat);
        if j >= 2 {
            assert(fib_spec(j) == fib_spec((j - 1) as nat) + fib_spec((j - 2) as nat));
        } else {
            assert(fib_spec(1) == 1);
        }
    }
}

proof fn lemma_product_fits(a: int, b: int)
    requires
        0 <= a <= i32::MAX,
        0 <= b <= i32::MAX,
    ensures
        a * b <= i32::MAX * i32::MAX,
{
    assert(a * b <= i32::MAX * i32::MAX) by (nonlinear_arith)
        requires
            0 <= a <= i32::MAX,
            0 <= b <= i32::MAX,
    ;
}

/// A 2x2 matrix `[[a, b], [c, d]]`.
#[derive(Clone, Copy)]
struct Mat {
    a: u64,
    b: u64,
    c: u64,
    d: u64,
}

/// `m` is the `p`-th power of `[[1, 1], [1, 0]]`: `[[F(p+1), F(p)], [F(p), F(p-1)]]`.
spec fn is_fib_power(m: Mat, p: nat) -> bool {
    &&& m.a == fib_spec(p + 1)
    &&& m.b == fib_spec(p)
    &&& m.c == fib_spec(p)
    &&& m.d == fib_prev(p)
}

fn multiply(x: Mat, y: Mat, Ghost(p): Ghost<nat>, Ghost(q): Ghost<nat>) -> (r: Mat)
    requires
        is_fib_power(x, p),
        is_fib_power(y, q),
        fib_spec(p + q + 1) <= i32::MAX,
    ensures
        is_fib_power(r, p + q),
{
    proof {
        lemma_fib_add(p, q);
        lemma_fib_mono(p + 1, p + q + 1);
        lemma_fib_mono(q + 1, p + q + 1);
        lemma_fib_mono(p, p + q + 1);
        lemma_fib_mono(q, p + q + 1);
        if q >= 1 {
            lemma_fib_add(p, (q - 1) as nat);
            lemma_fib_mono((q - 1) as nat, p + q + 1);
        }
        if p >= 1 {
            lemma_fib_add(q, (p - 1) as nat);
            lemma_fib_mono((p - 1) as nat, p + q + 1);
        }
        if p >= 1 && q >= 1 {
            lemma_fib_add((p - 1) as nat, (q - 1) as nat);
        }
        assert(fib_spec(1) == 1);
        lemma_product_fits(x.a as int, y.a as int);
        lemma_product_fits(x.b as int, y.c as int);
        lemma_product_fits(x.a as int, y.b as int);
        lemma_product_fits(x.b as int, y.d as int);
        lemma_product_fits(x.c as int, y.a as int);
        lemma_product_fits(x.d as int, y.c as int);
        lemma_product_fits(x.c as int, y.b as int);
        lemma_product_fits(x.d as int, y.d as int);
        assert(fib_spec(0) == 0);
        let fp = fib_spec(p);
        let fq = fib_spec(q);
        if q == 0 {
            assert(x.a * y.b + x.b * y.d == fp) by (nonlinear_arith)
                requires
                    y.b == 0,
                    y.d == 1,
                    x.b == fp,
            ;
        } else {
            assert(fib_spec((p + q) as nat) == fib_spec((p + (q - 1) + 1) as nat));
        }
        if p == 0 {
            assert(x.c * y.a + x.d * y.c == fq) by (nonlinear_arith)
                requires
                    x.c == 0,
                    x.d == 1,
                    y.c == fq,
            ;
            assert(x.c * y.b + x.d * y.d == fib_prev(q)) by (nonlinear_arith)
                requires
                    x.c == 0,
                    x.d == 1,
                    y.d == fib_prev(q),
            ;
        } else {
            assert(fib_spec((p + q) as nat) == fib_spec((q + (p - 1) + 1) as nat));
            assert(x.c * y.a == fib_spec(q + 1) * fp) by (nonlinear_arith)
                requires
                    x.c == fp,
                    y.a == fib_spec(q + 1),
            ;
            assert(x.d * y.c == fq * fib_spec((p - 1) as nat)) by (nonlinear_arith)
                requires
                    x.d == fib_spec((p - 1) as nat),
                    y.c == fq,
            ;
            if q == 0 {
                assert(x.c * y.b + x.d * y.d == fib_prev(p)) by (nonlinear_arith)
                    requires
                        y.b == 0,
                        y.d == 1,
                        x.d == fib_prev(p),
                ;
            } else {
                assert(fib_spec((p + q - 1) as nat) == fib_spec(((p - 1) + (q - 1) + 1) as nat));
            }
        }
    }
    Mat {
        a: x.a * y.a + x.b * y.c,
        b: x.a * y.b + x.b * y.d,
        c: x.c * y.a + x.d * y.c,
        d: x.c * y.b + x.d * y.d,
    }
}

/// `[[1, 1], [1, 0]]` raised to `power`, by squaring.
fn matrix_power(power: u32) -> (r: Mat)
    requires
        fib_spec(power as nat + 1) <= i32::MAX,
    ensures
        is_fib_power(r, power as nat),
    decreases power,
{
    let base = Mat { a: 1, b: 1, c: 1, d: 0 };
    assert(fib_spec(2) == 1 && fib_spec(1) == 1 && fib_spec(0) == 0) by {
        assert(fib_spec(2) == fib_spec(1) + fib_spec(0));
    }
    if power == 0 {
        return Mat { a: 1, b: 0, c: 0, d: 1 };
    }
    if power == 1 {
        return base;
    }
    let h = power / 2;
    proof {
        lemma_fib_mono(h as nat + 1, power as nat + 1);
        lemma_fib_mono(2 * h as nat + 1, power as nat + 1);
    }
    let half = matrix_power(h);
    let result = multiply(half, half, Ghost(h as nat), Ghost(h as nat));
    if power % 2 == 0 {
        result
    } else {
        multiply(result, base, Ghost(2 * h as nat), Ghost(1))
    }
}

/// The `n`-th Fibonacci number (`F(0) = 0`, `F(1) = 1`), by matrix exponentiation;
/// zero for negative `n`. It must fit in an `i32`.
pub fn fib(n: i32) -> (r: i32)
    requires
        n < 0 || fib_spec(n as nat) <= i32::MAX,
    ensures
        r == (if n < 0 {
            0
        } else {
            fib_spec(n as nat) as int
        }),
{
    if n < 0 {
        return 0;
    }
    if n == 0 {
        return 0;
    }
    if n == 1 {
        return 1;
    }
    let m = matrix_power((n - 1) as u32);
    m.a as i32
}

/// The sum of the odd Fibonacci numbers `F(i)`, `1 <= i <= j`, that do not exceed `t`
/// (the two leading ones both count).
pub open spec fn odd_fib_sum(t: nat, j: nat) -> nat
    decreases j,
{
    if j == 0 {
        0
    } else {
        odd_fib_sum(t, (j - 1) as nat) + (if fib_spec(j) % 2 == 1 && fib_spec(j) <= t {
            fib_spec(j)
        } else {
            0
        })
    }
}

proof fn lemma_fib_lower(k: nat)
    ensures
        fib_spec(k) + 1 >= k,
        k >= 1 ==> fib_spec(k) >= 1,
    decreases k,
{
    assert(fib_spec(0) == 0);
    assert(fib_spec(1) == 1);
    if k >= 2 {
        lemma_fib_lower((k - 1) as nat);
        lemma_fib_lower((k - 2) as nat);
        if k == 2 {
            assert(fib_spec(2) == fib_spec(1) + fib_spec(0));
        }
    }
}

proof fn lemma_odd_fib_sum_mono(t: nat, i: nat, j: nat)
    requires
        i <= j,
    ensures
        odd_fib_sum(t, i) <= odd_fib_sum(t, j),
    decreases j - i,
{
    if i < j {
        lemma_odd_fib_sum_mono(t, i, (j - 1) as nat);
    }
}

proof fn lemma_odd_fib_sum_settles(t: nat, k: nat, j: nat)
    requires
        k <= j,
        k >= 1,
        fib_spec(k + 1) > t,
    ensures
        odd_fib_sum(t, j) == odd_fib_sum(t, k),
    decreases j - k,
{
    if k < j {
        lemma_odd_fib_sum_settles(t, k, (j - 1) as nat);
        lemma_fib_mono(k + 1, j);
    }
}

/// The sum of the odd Fibonacci numbers (1, 1, 3, 5, 13, ...) up to `threshold`;
/// zero below one. The sum must fit in a `u32`.
pub fn odd_fibnacci_sum(threshold: u32) -> (r: u32)
    requires
        odd_fib_sum(threshold as nat, threshold as nat + 1) <= u32::MAX,
    ensures
        r == odd_fib_sum(threshold as nat, threshold as nat + 1),
{
    let ghost t = threshold as nat;
    if threshold < 1 {
        proof {
            lemma_fib_lower(1);
            assert(odd_fib_sum(t, 0) == 0);
        }
        return 0;
    }
    let mut a: u64 = 1;
    let mut b: u64 = 1;
    let mut sum: u64 = 2;
    let ghost mut k: nat = 2;
    proof {
        assert(fib_spec(0) == 0);
        assert(fib_spec(1) == 1);
        assert(fib_spec(2) == fib_spec(1) + fib_spec(0));
        assert(odd_fib_sum(t, 0) == 0);
        assert(odd_fib_sum(t, 1) == 1);
        assert(odd_fib_sum(t, 2) == 2);
    }
    loop
        invariant
            t == threshold as nat,
            t >= 1,
            k >= 2,
            a == fib_spec((k - 1) as nat),
            b == fib_spec(k),
            a >= 1,
            b <= t,
            sum == odd_fib_sum(t, k),
            odd_fib_sum(t, t + 1) <= u32::MAX,
        ensures
            sum == odd_fib_sum(t, t + 1),
            t == threshold as nat,
            sum <= u32::MAX,
        decreases t - b,
    {
        let next = a + b;
        assert(next == fib_spec(k + 1));
        if next > threshold as u64 {
            proof {
                lemma_fib_lower(k);
                lemma_odd_fib_sum_settles(t, k, t + 1);
            }
            break;
        }
        proof {
            lemma_fib_lower(k + 1);
            lemma_odd_fib_sum_mono(t, k + 1, t + 1);
        }
        if next % 2 != 0 {
            sum = sum + next;
        }
        a = b;
        b = next;
        proof {
            k = k + 1;
        }
    }
    sum as u32
}

} // verus!
