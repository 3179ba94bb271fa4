use cor24::fibonacci_iter;

#[test]
fn fibonacci_of_ten_is_89() {
    assert_eq!(fibonacci_iter(10), 89);
}

#[test]
fn fibonacci_starts_with_two_ones() {
    assert_eq!(fibonacci_iter(0), 1);
    assert_eq!(fibonacci_iter(1), 1);
    assert_eq!(fibonacci_iter(2), 2);
    assert_eq!(fibonacci_iter(5), 8);
}

#[test]
fn fibonacci_largest_input_that_fits() {
    // fib(23) = 46368 is the last number the loop computes here.
    assert_eq!(fibonacci_iter(22), 28657);
}

#[test]
fn fibonacci_follows_the_recurrence() {
    for n in 2..=22u16 {
        assert_eq!(
            fibonacci_iter(n) as u32,
            fibonacci_iter(n - 1) as u32 + fibonacci_iter(n - 2) as u32
        );
    }
}
