use numeric_puzzles::enumeration::{
    calculate_all_expressions, create_all_combinations, expressions_over,
};
use numeric_puzzles::expression::{decimal_string, join, needs_parentheses, Formula};
use numeric_puzzles::operator::Operator;
use numeric_puzzles::ranking::{collect_by_value, compare_texts, insert_ranked, Rank};
use std::collections::HashMap;

fn texts(list: &[&str]) -> Vec<String> {
    list.iter().map(|s| String::from(*s)).collect()
}

fn leaf(value: i64) -> Formula {
    Formula { value, text: decimal_string(value), top: None }
}

fn assert_ranked(results: &HashMap<i64, Vec<String>>) {
    for list in results.values() {
        assert!(!list.is_empty());
        for pair in list.windows(2) {
            let shorter = pair[0].len() < pair[1].len();
            let smaller = pair[0].len() == pair[1].len() && pair[0] < pair[1];
            assert!(shorter || smaller, "{} before {}", pair[0], pair[1]);
        }
    }
}

#[test]
fn operators_apply() {
    assert_eq!(Operator::Add.apply(3, 4), Some(7));
    assert_eq!(Operator::Sub.apply(3, 4), Some(-1));
    assert_eq!(Operator::Mul.apply(3, 4), Some(12));
    assert_eq!(Operator::Div.apply(12, 4), Some(3));
    assert_eq!(Operator::Div.apply(-12, 4), Some(-3));
    assert_eq!(Operator::Div.apply(12, -4), Some(-3));
    assert_eq!(Operator::Div.apply(-12, -4), Some(3));
    assert_eq!(Operator::Div.apply(0, 4), Some(0));
}

#[test]
fn division_must_be_exact_and_not_by_zero() {
    assert_eq!(Operator::Div.apply(3, 0), None);
    assert_eq!(Operator::Div.apply(0, 0), None);
    assert_eq!(Operator::Div.apply(7, 2), None);
    assert_eq!(Operator::Div.apply(-7, 2), None);
    assert_eq!(Operator::Div.apply(1, 3), None);
}

#[test]
fn overflow_has_no_result() {
    assert_eq!(Operator::Add.apply(i64::MAX, 1), None);
    assert_eq!(Operator::Add.apply(i64::MAX, 0), Some(i64::MAX));
    assert_eq!(Operator::Sub.apply(i64::MIN, 1), None);
    assert_eq!(Operator::Mul.apply(i64::MAX, 2), None);
    assert_eq!(Operator::Mul.apply(i64::MIN, -1), None);
    assert_eq!(Operator::Div.apply(i64::MIN, -1), None);
    assert_eq!(Operator::Div.apply(i64::MIN, 1), Some(i64::MIN));
}

#[test]
fn operator_signs_and_precedence() {
    assert_eq!(Operator::Add.to_string(), "+");
    assert_eq!(Operator::Sub.to_string(), "-");
    assert_eq!(Operator::Mul.to_string(), "*");
    assert_eq!(Operator::Div.to_string(), "/");
    assert_eq!(Operator::Add.precedence(), 1);
    assert_eq!(Operator::Sub.precedence(), 1);
    assert_eq!(Operator::Mul.precedence(), 2);
    assert_eq!(Operator::Div.precedence(), 2);
}

#[test]
fn decimal_strings() {
    assert_eq!(decimal_string(0), "0");
    assert_eq!(decimal_string(7), "7");
    assert_eq!(decimal_string(10), "10");
    assert_eq!(decimal_string(334), "334");
    assert_eq!(decimal_string(-1), "-1");
    assert_eq!(decimal_string(-120), "-120");
    assert_eq!(decimal_string(i64::MAX), "9223372036854775807");
    assert_eq!(decimal_string(i64::MIN), "-9223372036854775808");
}

#[test]
fn parentheses_go_around_looser_operands_only() {
    let sum = join(&leaf(1), Operator::Add, &leaf(2)).unwrap();
    let product = join(&leaf(1), Operator::Mul, &leaf(2)).unwrap();
    assert!(needs_parentheses(&sum, Operator::Mul));
    assert!(needs_parentheses(&sum, Operator::Div));
    assert!(!needs_parentheses(&sum, Operator::Add));
    assert!(!needs_parentheses(&sum, Operator::Sub));
    assert!(!needs_parentheses(&product, Operator::Mul));
    assert!(!needs_parentheses(&product, Operator::Add));
    assert!(!needs_parentheses(&leaf(5), Operator::Mul));
    assert!(!needs_parentheses(&leaf(-5), Operator::Mul));
}

#[test]
fn joins_write_operands_and_operator() {
    let sum = join(&leaf(1), Operator::Add, &leaf(2)).unwrap();
    assert_eq!(sum.value, 3);
    assert_eq!(sum.text, "1+2");
    assert_eq!(sum.top, Some(Operator::Add));
    let both = join(&sum, Operator::Mul, &sum).unwrap();
    assert_eq!(both.value, 9);
    assert_eq!(both.text, "(1+2)*(1+2)");
    let left = join(&sum, Operator::Mul, &leaf(3)).unwrap();
    assert_eq!(left.text, "(1+2)*3");
    let right = join(&leaf(3), Operator::Div, &sum).unwrap();
    assert_eq!(right.text, "3/(1+2)");
    assert_eq!(right.value, 1);
    let plain = join(&leaf(3), Operator::Sub, &sum).unwrap();
    assert_eq!(plain.text, "3-1+2");
    assert_eq!(plain.value, 0);
    assert!(join(&leaf(3), Operator::Div, &leaf(0)).is_none());
    assert!(join(&leaf(3), Operator::Div, &leaf(2)).is_none());
    assert!(join(&leaf(i64::MAX), Operator::Add, &leaf(1)).is_none());
}

#[test]
fn expressions_over_one_and_two_numbers() {
    let single = expressions_over(&[42]);
    assert_eq!(single.len(), 1);
    assert_eq!(single[0].value, 42);
    assert_eq!(single[0].text, "42");
    assert_eq!(single[0].top, None);
    let pair = expressions_over(&[6, 3]);
    let found: Vec<(i64, String)> = pair.iter().map(|f| (f.value, f.text.clone())).collect();
    assert_eq!(
        found,
        vec![
            (9, String::from("6+3")),
            (3, String::from("6-3")),
            (18, String::from("6*3")),
            (2, String::from("6/3")),
        ]
    );
    assert!(expressions_over(&[]).is_empty());
}

#[test]
fn expressions_count_trees_and_operators() {
    assert_eq!(expressions_over(&[5, 7]).len(), 3);
    assert_eq!(expressions_over(&[1, 1, 1]).len(), 16 + 14);
    assert_eq!(expressions_over(&[2, 3, 5]).len(), 10 + 10);
}

#[test]
fn result_map_of_two_numbers() {
    let results = calculate_all_expressions(&[1, 2]);
    let mut expected: HashMap<i64, Vec<String>> = HashMap::new();
    expected.insert(3, texts(&["1+2"]));
    expected.insert(-1, texts(&["1-2"]));
    expected.insert(2, texts(&["1*2"]));
    assert_eq!(results, expected);
}

#[test]
fn result_map_of_one_number_and_of_none() {
    let results = calculate_all_expressions(&[334]);
    assert_eq!(results.len(), 1);
    assert_eq!(results[&334], texts(&["334"]));
    assert!(calculate_all_expressions(&[]).is_empty());
}

#[test]
fn zero_divisor_is_skipped() {
    let results = calculate_all_expressions(&[1, 0]);
    let mut expected: HashMap<i64, Vec<String>> = HashMap::new();
    expected.insert(1, texts(&["1+0", "1-0"]));
    expected.insert(0, texts(&["1*0"]));
    assert_eq!(results, expected);
    for list in calculate_all_expressions(&[4, 2, 0]).values() {
        for text in list {
            assert!(!text.ends_with("/0"), "{}", text);
        }
    }
}

#[test]
fn three_three_four_reaches_ten() {
    let results = calculate_all_expressions(&[3, 3, 4]);
    assert!(results[&10].contains(&String::from("3+3+4")));
    assert_eq!(results[&10], texts(&["3+3+4"]));
    assert_eq!(results[&13], texts(&["3*3+4"]));
    assert_eq!(results[&21], texts(&["3*(3+4)"]));
    assert_eq!(results[&24], texts(&["(3+3)*4"]));
    assert_eq!(results[&36], texts(&["3*3*4"]));
    assert_eq!(results[&4], texts(&["3-3+4", "3-3-4", "3/3*4"]));
    assert_eq!(results[&-4], texts(&["3-3+4", "3-3-4"]));
    assert_eq!(results[&15], texts(&["3+3*4"]));
    assert!(!results.contains_key(&11));
    assert_ranked(&results);
}

#[test]
fn texts_are_ranked_and_not_repeated() {
    let results = calculate_all_expressions(&[1, 1, 1, 1]);
    assert_ranked(&results);
    assert_eq!(results[&4], texts(&["1+1+1+1", "(1+1)*(1+1)"]));
    let results = calculate_all_expressions(&[12, 3, 4, 2]);
    assert_ranked(&results);
}

#[test]
fn negative_numbers_stand_as_they_are() {
    let results = calculate_all_expressions(&[-6, 3]);
    let mut expected: HashMap<i64, Vec<String>> = HashMap::new();
    expected.insert(-3, texts(&["-6+3"]));
    expected.insert(-9, texts(&["-6-3"]));
    expected.insert(-18, texts(&["-6*3"]));
    expected.insert(-2, texts(&["-6/3"]));
    assert_eq!(results, expected);
}

#[test]
fn overflowing_branches_are_skipped() {
    let results = calculate_all_expressions(&[i64::MAX, 1]);
    let mut expected: HashMap<i64, Vec<String>> = HashMap::new();
    expected.insert(i64::MAX - 1, texts(&["9223372036854775807-1"]));
    expected.insert(i64::MAX, texts(&["9223372036854775807*1", "9223372036854775807/1"]));
    assert_eq!(results, expected);
}

#[test]
fn all_groupings_of_three_three_four() {
    let results = create_all_combinations(&[3, 3, 4]);
    assert_eq!(results[&334], texts(&["334"]));
    assert_eq!(results[&37], texts(&["3+34", "33+4"]));
    assert_eq!(results[&102], texts(&["3*34"]));
    assert_eq!(results[&132], texts(&["33*4"]));
    assert_eq!(results[&29], texts(&["33-4"]));
    assert_eq!(results[&-31], texts(&["3-34"]));
    assert_eq!(results[&10], texts(&["3+3+4"]));
    assert_eq!(results[&13], texts(&["3*3+4"]));
    assert_ranked(&results);
    let alone = calculate_all_expressions(&[3, 3, 4]);
    for (value, list) in alone.iter() {
        for text in list {
            assert!(results[value].contains(text));
        }
    }
    assert!(create_all_combinations(&[]).is_empty());
}

#[test]
fn all_groupings_of_two_digits() {
    let results = create_all_combinations(&[0, 3]);
    let mut expected: HashMap<i64, Vec<String>> = HashMap::new();
    expected.insert(3, texts(&["3", "0+3"]));
    expected.insert(-3, texts(&["0-3"]));
    expected.insert(0, texts(&["0*3", "0/3"]));
    assert_eq!(results, expected);
}

#[test]
fn texts_compare_by_length_then_letters() {
    assert_eq!(compare_texts("9", "10"), Rank::Before);
    assert_eq!(compare_texts("10", "9"), Rank::After);
    assert_eq!(compare_texts("1+2", "1-2"), Rank::Before);
    assert_eq!(compare_texts("1-2", "1+2"), Rank::After);
    assert_eq!(compare_texts("1*2", "1*2"), Rank::Same);
    assert_eq!(compare_texts("", ""), Rank::Same);
    assert_eq!(compare_texts("", "0"), Rank::Before);
    assert_eq!(compare_texts("(1", "1+"), Rank::Before);
}

#[test]
fn ranked_insertion_keeps_order_and_drops_repeats() {
    let mut list: Vec<String> = Vec::new();
    for text in ["3-3+4", "334", "3/3*4", "3-3+4", "3*(3+4)", "334", "33+4"] {
        insert_ranked(&mut list, String::from(text));
    }
    assert_eq!(list, texts(&["334", "33+4", "3-3+4", "3/3*4", "3*(3+4)"]));
}

#[test]
fn formulas_are_gathered_by_value() {
    let formulas = vec![
        Formula { value: 4, text: String::from("3-3+4"), top: Some(Operator::Add) },
        Formula { value: 10, text: String::from("3+3+4"), top: Some(Operator::Add) },
        Formula { value: 4, text: String::from("3/3*4"), top: Some(Operator::Mul) },
        Formula { value: 4, text: String::from("3-3+4"), top: Some(Operator::Sub) },
        Formula { value: 4, text: String::from("4"), top: None },
    ];
    let results = collect_by_value(&formulas);
    let mut expected: HashMap<i64, Vec<String>> = HashMap::new();
    expected.insert(4, texts(&["4", "3-3+4", "3/3*4"]));
    expected.insert(10, texts(&["3+3+4"]));
    assert_eq!(results, expected);
    assert!(collect_by_value(&Vec::new()).is_empty());
}
