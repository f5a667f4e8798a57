use algo_exercises::fibonacci::{fib, odd_fibnacci_sum};

#[test]
fn test_fib_1() {
    let result = fib(0);
    println!("Fibonacci of 0: {}", result);
    assert_eq!(result, 0);
}

#[test]
fn test_fib_2() {
    let result = fib(1);
    println!("Fibonacci of 1: {}", result);
    assert_eq!(result, 1);
}

#[test]
fn test_fib_3() {
    let result = fib(2);
    println!("Fibonacci of 2: {}", result);
    assert_eq!(result, 1);
}

#[test]
fn test_fib_4() {
    let result = fib(3);
    println!("Fibonacci of 3: {}", result);
    assert_eq!(result, 2);
}

#[test]
fn test_fib_5() {
    let result = fib(10);
    println!("Fibonacci of 10: {}", result);
    assert_eq!(result, 55);
}

#[test]
fn test_fib_6() {
    let result = fib(20);
    println!("Fibonacci of 20: {}", result);
    assert_eq!(result, 6765);
}

#[test]
fn fib_negative_is_zero() {
    assert_eq!(fib(-5), 0);
}

#[test]
fn fib_largest_that_fits() {
    assert_eq!(fib(46), 1836311903);
}

#[test]
fn odd_fib_sum_small_thresholds() {
    assert_eq!(odd_fibnacci_sum(0), 0);
    assert_eq!(odd_fibnacci_sum(1), 2);
    assert_eq!(odd_fibnacci_sum(2), 2);
    assert_eq!(odd_fibnacci_sum(3), 5);
    assert_eq!(odd_fibnacci_sum(10), 10);
}

#[test]
fn odd_fib_sum_hundred() {
    assert_eq!(odd_fibnacci_sum(100), 188);
}
