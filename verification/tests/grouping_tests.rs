use numeric_puzzles::grouping::{create_combination, number_combinations, trans_list_to_number};

#[test]
fn groupings_of_three_digits() {
    let groupings = create_combination(&[3, 3, 4]);
    assert_eq!(groupings.len(), 4);
    assert!(groupings.contains(&vec![3, 3, 4]));
    assert!(groupings.contains(&vec![33, 4]));
    assert!(groupings.contains(&vec![3, 34]));
    assert!(groupings.contains(&vec![334]));
}

#[test]
fn groupings_come_ordered_by_number_of_cuts() {
    assert_eq!(
        create_combination(&[3, 3, 4]),
        vec![vec![334], vec![3, 34], vec![33, 4], vec![3, 3, 4]]
    );
    assert_eq!(
        create_combination(&[1, 2, 3, 4]),
        vec![
            vec![1234],
            vec![1, 234],
            vec![12, 34],
            vec![123, 4],
            vec![1, 2, 34],
            vec![1, 23, 4],
            vec![12, 3, 4],
            vec![1, 2, 3, 4],
        ]
    );
}

#[test]
fn groupings_of_no_digits_and_of_one() {
    assert_eq!(create_combination(&[]), Vec::<Vec<i64>>::new());
    assert_eq!(create_combination(&[7]), vec![vec![7]]);
    assert_eq!(create_combination(&[0]), vec![vec![0]]);
}

#[test]
fn groupings_count_is_a_power_of_two() {
    let digits: [i64; 10] = [1, 2, 3, 4, 5, 6, 7, 8, 9, 1];
    for len in 1..=10usize {
        let groupings = create_combination(&digits[..len]);
        assert_eq!(groupings.len(), 1usize << (len - 1));
        for (i, first) in groupings.iter().enumerate() {
            for second in groupings.iter().skip(i + 1) {
                assert_ne!(first, second);
            }
        }
    }
}

#[test]
fn groupings_spell_the_digits() {
    let digits: [i64; 6] = [9, 1, 8, 2, 7, 3];
    for grouping in create_combination(&digits) {
        let mut spelled = String::new();
        for number in grouping {
            spelled.push_str(&format!("{}", number));
        }
        assert_eq!(spelled, "918273");
    }
}

#[test]
fn leading_zeros_count_for_nothing() {
    assert_eq!(trans_list_to_number(&[0, 3]), vec![3]);
    assert_eq!(create_combination(&[0, 3]), vec![vec![3], vec![0, 3]]);
    assert_eq!(
        create_combination(&[0, 0, 1]),
        vec![vec![1], vec![0, 1], vec![0, 1], vec![0, 0, 1]]
    );
}

#[test]
fn digits_read_as_one_number() {
    assert_eq!(trans_list_to_number(&[]), vec![0]);
    assert_eq!(trans_list_to_number(&[5]), vec![5]);
    assert_eq!(trans_list_to_number(&[3, 3, 4]), vec![334]);
    assert_eq!(
        trans_list_to_number(&[9, 2, 2, 3, 3, 7, 2, 0, 3, 6, 8, 5, 4, 7, 7, 5, 8, 0, 7]),
        vec![i64::MAX]
    );
}

#[test]
fn groupings_with_a_given_number_of_cuts() {
    assert_eq!(number_combinations(&[3, 3, 4], 0), vec![vec![334]]);
    assert_eq!(number_combinations(&[3, 3, 4], 1), vec![vec![3, 34], vec![33, 4]]);
    assert_eq!(number_combinations(&[3, 3, 4], 2), vec![vec![3, 3, 4]]);
    assert_eq!(number_combinations(&[1, 2, 3, 4, 5], 2).len(), 6);
}
