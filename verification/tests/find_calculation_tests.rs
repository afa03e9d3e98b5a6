use equation_finder::find_calculation;
use equation_finder::Expression;

fn contains_pair(v: &[Expression], prog: &str, tex: &str) -> bool {
    v.iter().any(|e| e.prog == prog && e.tex == tex)
}

#[test]
fn single_three_factorial() {
    let r = find_calculation(&[3], 6, 10);
    assert!(contains_pair(&r, "fact{3}", "3!"));
    assert_eq!(r.len(), 1);
}

#[test]
fn single_four_sqrt() {
    let r = find_calculation(&[4], 2, 10);
    assert!(contains_pair(&r, "sqrt{4}", "\\sqrt{4}"));
}

#[test]
fn pair_divide_and_subtract() {
    let r = find_calculation(&[4, 2], 2, 10);
    assert!(contains_pair(&r, "(4 / 2)", "(4 \\div 2)"));
    assert!(contains_pair(&r, "(4 - 2)", "(4 - 2)"));
}

#[test]
fn pair_power() {
    let r = find_calculation(&[2, 3], 8, 10);
    assert!(contains_pair(&r, "2 ^ 3", "{2}^{3}"));
}

#[test]
fn empty_numbers() {
    let r = find_calculation(&[], 5, 10);
    assert!(r.is_empty());
}

#[test]
fn zero_limit() {
    let r = find_calculation(&[1, 2], 3, 0);
    assert!(r.is_empty());
}

#[test]
fn determinism_same_set() {
    let mut a: Vec<(String, String)> = find_calculation(&[1, 2, 3], 6, 100)
        .into_iter()
        .map(|e| (e.prog, e.tex))
        .collect();
    let mut b: Vec<(String, String)> = find_calculation(&[1, 2, 3], 6, 100)
        .into_iter()
        .map(|e| (e.prog, e.tex))
        .collect();
    a.sort();
    b.sort();
    assert_eq!(a, b);
}

#[test]
fn uniqueness_no_duplicates() {
    let r = find_calculation(&[2, 2, 2], 6, 100);
    for i in 0..r.len() {
        for j in 0..r.len() {
            if i != j {
                assert!(!(r[i].prog == r[j].prog && r[i].tex == r[j].tex));
            }
        }
    }
    assert!(!r.is_empty());
}

#[test]
fn limit_respected() {
    let r = find_calculation(&[1, 2, 3, 4], 10, 2);
    assert_eq!(r.len(), 2);
}

#[test]
fn permutation_orderings_matter() {
    let r = find_calculation(&[1, 2, 3], 5, 1000);
    assert!(contains_pair(&r, "((2 + 3) * 1)", "((2 + 3) \\times 1)"));
}

#[test]
fn log_expression() {
    let r = find_calculation(&[8, 2], 3, 1000);
    assert!(contains_pair(&r, "log{2}{8}", "\\log_{2}{8}"));
}

#[test]
fn factorial_parenthesized_display() {
    let r = find_calculation(&[2, 3], 120, 1000);
    assert!(contains_pair(&r, "fact{(2 + 3)}", "((2 + 3))!"));
}

#[test]
fn multiplication_display() {
    let r = find_calculation(&[3, 4], 12, 1000);
    assert!(contains_pair(&r, "(3 * 4)", "(3 \\times 4)"));
}

#[test]
fn wrap_around_input() {
    let r = find_calculation(&[4294967295], -1, 10);
    assert!(contains_pair(&r, "-1", "-1"));
    assert_eq!(r.len(), 1);
}

#[test]
fn chain_sum_solution_present() {
    let r = find_calculation(&[1, 2, 3], 6, 1000);
    assert!(contains_pair(&r, "((1 + 2) + 3)", "((1 + 2) + 3)"));
}

#[test]
fn pair_complete_solution_set() {
    let mut r: Vec<(String, String)> = find_calculation(&[4, 2], 2, 100)
        .into_iter()
        .map(|e| (e.prog, e.tex))
        .collect();
    r.sort();
    assert_eq!(
        r,
        vec![
            ("(4 - 2)".to_string(), "(4 - 2)".to_string()),
            ("(4 / 2)".to_string(), "(4 \\div 2)".to_string()),
            ("log{2}{4}".to_string(), "\\log_{2}{4}".to_string()),
            ("sqrt{(2 * sqrt{4})}".to_string(), "\\sqrt{(2 \\times \\sqrt{4})}".to_string()),
            ("sqrt{(2 + sqrt{4})}".to_string(), "\\sqrt{(2 + \\sqrt{4})}".to_string()),
            ("sqrt{(sqrt{4} * 2)}".to_string(), "\\sqrt{(\\sqrt{4} \\times 2)}".to_string()),
            ("sqrt{(sqrt{4} + 2)}".to_string(), "\\sqrt{(\\sqrt{4} + 2)}".to_string()),
            ("sqrt{2 ^ sqrt{4}}".to_string(), "\\sqrt{{2}^{\\sqrt{4}}}".to_string()),
            ("sqrt{sqrt{4} ^ 2}".to_string(), "\\sqrt{{\\sqrt{4}}^{2}}".to_string()),
        ]
    );
}
