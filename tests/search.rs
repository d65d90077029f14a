use four_equals_ten::equations::{Equation, Op, Parens};
use four_equals_ten::rational::Rational;
use four_equals_ten::search::search;

fn all_ops() -> Vec<Op> {
    vec![Op::Add, Op::Sub, Op::Mul, Op::Div, Op::Mod, Op::Exp]
}

#[test]
fn search_finds_ten_from_three_three_five_six() {
    let found = search(&vec![3, 3, 5, 6], &all_ops(), 10);
    assert!(!found.is_empty());
    let ten = Rational::from_int(10);
    for e in &found {
        let v = e.solve().unwrap();
        assert!(v.same_value(&ten), "{} does not give 10", e.format());
    }
    let texts: Vec<String> = found.iter().map(|e| e.format()).collect();
    assert!(texts.contains(&"5 + 6 - 3 / 3".to_string()), "{:?}", texts);
    let mut sorted = texts.clone();
    sorted.sort();
    sorted.dedup();
    assert_eq!(sorted.len(), texts.len());
}

#[test]
fn search_passes_over_failing_candidates() {
    // 4 / 0 fails, 0 / 4 is 0, and both spans cover the whole expression.
    let found = search(&vec![4, 0], &vec![Op::Div, Op::Add], 4);
    let texts: Vec<String> = found.iter().map(|e| e.format()).collect();
    assert_eq!(texts, vec!["4 + 0".to_string(), "0 + 4".to_string()]);
}

#[test]
fn search_lists_each_arrangement_once() {
    let found = search(&vec![1, 1], &vec![Op::Add], 2);
    assert_eq!(found.len(), 1);
    assert_eq!(found[0].format(), "1 + 1");
}

#[test]
fn search_uses_spans_and_operator_multisets() {
    let found = search(&vec![1, 2, 3], &vec![Op::Sub, Op::Mul], 3);
    let texts: Vec<String> = found.iter().map(|e| e.format()).collect();
    assert!(texts.contains(&"(2 - 1) * 3".to_string()), "{:?}", texts);
    assert!(!texts.contains(&"3 * (2 - 1)".to_string()), "{:?}", texts);
    for e in &found {
        match e {
            Equation::Expression { ops, parens, .. } => {
                assert_eq!(ops.len(), 2);
                assert!(!(ops[0] == Op::Mul && ops[1] == Op::Sub));
                if let Parens::Span(s, t) = parens {
                    assert!(s < t && !(*s == 0 && *t == 2));
                }
            }
            Equation::Solved(_) => panic!("candidates are never solved"),
        }
    }
}

#[test]
fn search_with_one_number_finds_nothing() {
    assert!(search(&vec![10], &all_ops(), 10).is_empty());
}
