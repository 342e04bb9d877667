use presto_cli::frequency::{leading_entries, tally, top_values};
use presto_cli::stats::{
    column_cardinality, comparable, compute_cardinality, count_missing, median_positions,
    names_target, numeric_rows, target_column,
};
use presto_cli::Dataset;

fn column(cells: &[&str]) -> Vec<Vec<String>> {
    cells.iter().map(|c| vec![c.to_string()]).collect()
}

fn strings(items: &[&str]) -> Vec<String> {
    items.iter().map(|h| h.to_string()).collect()
}

#[test]
fn missing_cells_are_counted() {
    assert_eq!(count_missing(&column(&["", "1", "NA", "x", ""]), 0), 3);
    assert_eq!(count_missing(&column(&["1", "2"]), 0), 0);
    assert_eq!(count_missing(&column(&[]), 0), 0);
}

#[test]
fn numeric_rows_are_the_rows_with_numbers() {
    let rows = column(&["1", "", "x", "2.5", "NA", "nan", "1e3", "1e"]);
    assert_eq!(numeric_rows(&rows, 0), vec![0, 3, 5, 6]);
}

#[test]
fn cells_fall_into_three_classes() {
    let rows = column(&["1", "", "x", "2.5", "NA", "y", "7"]);
    let missing = count_missing(&rows, 0);
    let numeric = numeric_rows(&rows, 0).len();
    let other = rows
        .iter()
        .filter(|r| !r[0].is_empty() && r[0] != "NA" && r[0].parse::<f64>().is_err())
        .count();
    assert_eq!(missing, 2);
    assert_eq!(numeric, 3);
    assert_eq!(other, 2);
    assert_eq!(missing + numeric + other, rows.len());
}

#[test]
fn cardinality_counts_different_texts() {
    assert_eq!(column_cardinality(&column(&["a", "b", "a", "", "NA", ""]), 0), 4);
    assert_eq!(column_cardinality(&column(&[]), 0), 0);
}

#[test]
fn cardinality_of_every_column() {
    let t = Dataset::new(
        strings(&["x", "y"]),
        vec![strings(&["1", "a"]), strings(&["1", "b"]), strings(&["2", "a"])],
    );
    assert_eq!(compute_cardinality(&t).unwrap(), vec![2, 2]);
}

#[test]
fn the_first_target_header_wins() {
    assert_eq!(target_column(&strings(&["a", "My Target", "target"])), 1);
    assert_eq!(target_column(&strings(&["TARGET", "b"])), 0);
}

#[test]
fn without_a_target_header_the_first_column_is_the_target() {
    assert_eq!(target_column(&strings(&["a", "b", "c"])), 0);
    assert_eq!(target_column(&strings(&[])), 0);
}

#[test]
fn target_word_in_lower_case() {
    assert!(names_target("the_target_col"));
    assert!(!names_target("TARGET"));
    assert!(!names_target("targ et"));
}

#[test]
fn tally_lists_texts_in_order_of_first_occurrence() {
    let rows = column(&["b", "a", "", "b", "NA", "c", "a", "b"]);
    let (firsts, counts) = tally(&rows, 0);
    assert_eq!(firsts, vec![0, 1, 5]);
    assert_eq!(counts, vec![3, 2, 1]);
}

#[test]
fn leading_entries_prefer_greater_counts_then_earlier_entries() {
    assert_eq!(leading_entries(&vec![1, 3, 2, 3, 1], 3), vec![1, 3, 2]);
    assert_eq!(leading_entries(&vec![1, 1, 1], 5), vec![0, 1, 2]);
    assert_eq!(leading_entries(&vec![4, 5], 0), Vec::<usize>::new());
    assert_eq!(leading_entries(&vec![], 5), Vec::<usize>::new());
}

#[test]
fn top_values_are_the_most_frequent() {
    let rows = column(&["b", "a", "b", "c", "a", "b", "", "NA"]);
    assert_eq!(
        top_values(&rows, 0),
        vec![("b".to_string(), 3), ("a".to_string(), 2), ("c".to_string(), 1)]
    );
}

#[test]
fn top_values_break_ties_by_first_occurrence() {
    let rows = column(&["z", "y", "x", "y", "z", "x"]);
    assert_eq!(
        top_values(&rows, 0),
        vec![("z".to_string(), 2), ("y".to_string(), 2), ("x".to_string(), 2)]
    );
}

#[test]
fn top_values_keep_five() {
    let rows = column(&["a", "b", "c", "d", "e", "f", "g", "f", "g", "g"]);
    assert_eq!(
        top_values(&rows, 0),
        vec![
            ("g".to_string(), 3),
            ("f".to_string(), 2),
            ("a".to_string(), 1),
            ("b".to_string(), 1),
            ("c".to_string(), 1),
        ]
    );
}

#[test]
fn top_values_of_a_missing_column_are_none() {
    assert!(top_values(&column(&["", "NA"]), 0).is_empty());
}

#[test]
fn columns_pair_up_by_their_numeric_counts() {
    let counts = vec![3, 3, 0, 2, 0];
    assert!(comparable(&counts, 0, 1));
    assert!(comparable(&counts, 1, 0));
    assert!(!comparable(&counts, 0, 0));
    assert!(!comparable(&counts, 0, 3));
    assert!(!comparable(&counts, 2, 4));
    assert!(!comparable(&counts, 0, 2));
}

#[test]
fn median_places_of_odd_and_even_counts() {
    assert_eq!(median_positions(0), None);
    assert_eq!(median_positions(1), Some((0, 0)));
    assert_eq!(median_positions(2), Some((0, 1)));
    assert_eq!(median_positions(5), Some((2, 2)));
    assert_eq!(median_positions(6), Some((2, 3)));
}
