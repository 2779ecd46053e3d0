use minicourse::collatz::{collatz_iterative, collatz_recursive};

const COLLATZ_ANSWERS: [usize; 10] = [0, 1, 7, 2, 5, 8, 16, 3, 19, 6];

#[test]
fn collatz_recursive_test() {
    for (n, answer) in COLLATZ_ANSWERS
        .into_iter()
        .enumerate()
        .map(|(i, a)| (i + 1, a))
    {
        assert_eq!(collatz_recursive(n), answer, "n = {}", n);
    }
}

#[test]
fn collatz_iterative_test() {
    for (n, answer) in COLLATZ_ANSWERS
        .into_iter()
        .enumerate()
        .map(|(i, a)| (i + 1, a))
    {
        assert_eq!(collatz_iterative(n), answer, "n = {}", n);
    }
}

#[test]
fn collatz_of_one_takes_no_step() {
    assert_eq!(collatz_recursive(1), 0);
    assert_eq!(collatz_iterative(1), 0);
}

#[test]
fn collatz_long_run() {
    assert_eq!(collatz_recursive(27), 111);
    assert_eq!(collatz_iterative(27), 111);
    assert_eq!(collatz_recursive(97), 118);
    assert_eq!(collatz_iterative(97), 118);
}

#[test]
fn collatz_both_ways_agree() {
    for n in 1..500 {
        assert_eq!(collatz_recursive(n), collatz_iterative(n), "n = {}", n);
    }
}

#[test]
fn collatz_powers_of_two_halve_down() {
    for k in 0..20 {
        assert_eq!(collatz_iterative(1usize << k), k);
    }
}
