use equation_finder::arith::{
    checked_factorial, checked_pow, exact_div, exact_sqrt, int_log, u32_to_i32,
};
use equation_finder::results::ResultMap;
use equation_finder::solver::{solve, SolveCache};
use equation_finder::text::{i32_to_string, is_all_digits};

fn map_contains(rm: &ResultMap, value: i32, prog: &str, tex: &str) -> bool {
    rm.items
        .iter()
        .any(|t| t.value == value && t.expr.prog == prog && t.expr.tex == tex)
}

#[test]
fn solve_single_number_literal() {
    let mut cache = SolveCache::new();
    let rm = solve(&[5], &mut cache);
    assert!(map_contains(&rm, 5, "5", "5"));
}

#[test]
fn solve_single_number_unary_entries() {
    let mut cache = SolveCache::new();
    let rm = solve(&[3], &mut cache);
    assert!(map_contains(&rm, 3, "3", "3"));
    assert!(map_contains(&rm, 6, "fact{3}", "3!"));
    assert!(!rm.items.iter().any(|t| t.expr.prog.starts_with("sqrt")));
}

#[test]
fn factorial_small_values() {
    assert_eq!(checked_factorial(0), Some(1));
    assert_eq!(checked_factorial(1), Some(1));
    assert_eq!(checked_factorial(3), Some(6));
    assert_eq!(checked_factorial(12), Some(479001600));
}

#[test]
fn factorial_out_of_domain() {
    assert_eq!(checked_factorial(-1), None);
    assert_eq!(checked_factorial(13), None);
    assert_eq!(checked_factorial(21), None);
}

#[test]
fn int_log_exact_and_inexact() {
    assert_eq!(int_log(2, 8), Some(3));
    assert_eq!(int_log(2, 7), None);
    assert_eq!(int_log(3, 1), Some(0));
    assert_eq!(int_log(1, 5), None);
    assert_eq!(int_log(2, 0), None);
    assert_eq!(int_log(10, 1000000000), Some(9));
}

#[test]
fn exact_sqrt_cases() {
    assert_eq!(exact_sqrt(16), Some(4));
    assert_eq!(exact_sqrt(15), None);
    assert_eq!(exact_sqrt(-4), None);
    assert_eq!(exact_sqrt(0), Some(0));
    assert_eq!(exact_sqrt(1), Some(1));
    assert_eq!(exact_sqrt(2147395600), Some(46340));
}

#[test]
fn exact_div_cases() {
    assert_eq!(exact_div(6, 3), Some(2));
    assert_eq!(exact_div(7, 3), None);
    assert_eq!(exact_div(6, -3), Some(-2));
    assert_eq!(exact_div(-6, 3), Some(-2));
    assert_eq!(exact_div(5, 0), None);
    assert_eq!(exact_div(i32::MIN, -1), None);
}

#[test]
fn checked_pow_cases() {
    assert_eq!(checked_pow(2, 10), Some(1024));
    assert_eq!(checked_pow(2, 31), None);
    assert_eq!(checked_pow(-2, 31), Some(i32::MIN));
    assert_eq!(checked_pow(0, 0), Some(1));
    assert_eq!(checked_pow(0, 7), Some(0));
    assert_eq!(checked_pow(1, 2000000000), Some(1));
    assert_eq!(checked_pow(-1, 5), Some(-1));
}

#[test]
fn u32_reinterpretation() {
    assert_eq!(u32_to_i32(5), 5);
    assert_eq!(u32_to_i32(u32::MAX), -1);
    assert_eq!(u32_to_i32(0x8000_0000), i32::MIN);
}

#[test]
fn decimal_rendering() {
    assert_eq!(i32_to_string(0), "0");
    assert_eq!(i32_to_string(123), "123");
    assert_eq!(i32_to_string(-45), "-45");
    assert_eq!(i32_to_string(i32::MIN), "-2147483648");
}

#[test]
fn digit_check() {
    assert!(is_all_digits(&String::from("123")));
    assert!(!is_all_digits(&String::from("(1 + 2)")));
    assert!(is_all_digits(&String::from("")));
    assert!(!is_all_digits(&String::from("-1")));
}

#[test]
fn solve_cache_hit_returns_same_map() {
    let mut cache = SolveCache::new();
    let a = solve(&[4, 2], &mut cache);
    let b = solve(&[4, 2], &mut cache);
    assert_eq!(a.items.len(), b.items.len());
    for (x, y) in a.items.iter().zip(b.items.iter()) {
        assert_eq!(x.value, y.value);
        assert_eq!(x.expr.prog, y.expr.prog);
        assert_eq!(x.expr.tex, y.expr.tex);
    }
}
