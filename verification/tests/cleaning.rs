use presto_cli::cleaning::{
    check_consistency, detect_duplicates, detect_redundancy, is_counted_header, names_a_count,
    same_row, Similarity,
};
use presto_cli::Dataset;

fn table(headers: &[&str], rows: &[&[&str]]) -> Dataset {
    Dataset::new(
        headers.iter().map(|h| h.to_string()).collect(),
        rows.iter().map(|r| r.iter().map(|c| c.to_string()).collect()).collect(),
    )
}

fn grid(rows: &[&[&str]]) -> Vec<Vec<String>> {
    rows.iter().map(|r| r.iter().map(|c| c.to_string()).collect()).collect()
}

#[test]
fn one_repeated_row_is_one_duplicate() {
    let rows = grid(&[&["a", "1"], &["a", "1"], &["b", "2"]]);
    assert_eq!(detect_duplicates(&rows), 1);
}

#[test]
fn no_rows_no_duplicates() {
    let rows: Vec<Vec<String>> = Vec::new();
    assert_eq!(detect_duplicates(&rows), 0);
}

#[test]
fn duplicates_count_every_repeat() {
    let rows = grid(&[&["x"], &["y"], &["x"], &["x"], &["y"], &["z"]]);
    assert_eq!(detect_duplicates(&rows), 3);
}

#[test]
fn rows_that_differ_in_one_cell_are_different() {
    let rows = grid(&[&["a", "1"], &["a", "2"], &["b", "1"]]);
    assert_eq!(detect_duplicates(&rows), 0);
}

#[test]
fn rows_of_different_length_are_different() {
    let rows = grid(&[&["a"], &["a", ""], &["a"]]);
    assert_eq!(detect_duplicates(&rows), 1);
}

#[test]
fn same_row_compares_cell_by_cell() {
    let a = vec!["x".to_string(), "y".to_string()];
    let b = vec!["x".to_string(), "y".to_string()];
    let c = vec!["x".to_string(), "z".to_string()];
    let d = vec!["x".to_string()];
    assert!(same_row(&a, &b));
    assert!(!same_row(&a, &c));
    assert!(!same_row(&a, &d));
}

#[test]
fn identical_columns_are_a_redundant_pair() {
    let t = table(&["a", "b"], &[&["1", "1"], &["2", "2"], &["3", "3"], &["", "9"]]);
    let pairs = detect_redundancy(&t).unwrap();
    assert_eq!(pairs, vec![(0, 1, Similarity { matches: 3, valid: 3 })]);
}

#[test]
fn unrelated_columns_are_not_reported() {
    let t = table(
        &["a", "b"],
        &[&["4", "q"], &["8", "w"], &["15", "e"], &["16", "r"], &["23", "t"], &["42", "y"]],
    );
    assert!(detect_redundancy(&t).unwrap().is_empty());
}

#[test]
fn nine_tenths_is_not_enough() {
    let mut rows: Vec<Vec<&str>> = Vec::new();
    for _ in 0..9 {
        rows.push(vec!["v", "v"]);
    }
    rows.push(vec!["v", "other"]);
    let refs: Vec<&[&str]> = rows.iter().map(|r| r.as_slice()).collect();
    let t = table(&["a", "b"], &refs);
    assert!(detect_redundancy(&t).unwrap().is_empty());
}

#[test]
fn ten_of_eleven_is_enough() {
    let mut rows: Vec<Vec<&str>> = Vec::new();
    for _ in 0..10 {
        rows.push(vec!["v", "v"]);
    }
    rows.push(vec!["v", "other"]);
    let refs: Vec<&[&str]> = rows.iter().map(|r| r.as_slice()).collect();
    let t = table(&["a", "b"], &refs);
    assert_eq!(
        detect_redundancy(&t).unwrap(),
        vec![(0, 1, Similarity { matches: 10, valid: 11 })]
    );
}

#[test]
fn similarity_counts_against_the_first_column() {
    // b is missing where a is not: a to b is 1 of 3, not reported
    let t = table(&["a", "b"], &[&["1", "1"], &["2", ""], &["3", "NA"]]);
    assert!(detect_redundancy(&t).unwrap().is_empty());
    // a is missing where b is not: a to b is 1 of 1, reported
    let t = table(&["a", "b"], &[&["1", "1"], &["", "2"], &["NA", "3"]]);
    assert_eq!(
        detect_redundancy(&t).unwrap(),
        vec![(0, 1, Similarity { matches: 1, valid: 1 })]
    );
}

#[test]
fn all_missing_column_repeats_nothing() {
    let t = table(&["a", "b"], &[&["", ""], &["NA", "NA"]]);
    assert!(detect_redundancy(&t).unwrap().is_empty());
}

#[test]
fn pairs_come_in_order() {
    let t = table(&["a", "b", "c"], &[&["1", "1", "1"], &["2", "2", "2"]]);
    let pairs = detect_redundancy(&t).unwrap();
    let s = Similarity { matches: 2, valid: 2 };
    assert_eq!(pairs, vec![(0, 1, s), (0, 2, s), (1, 2, s)]);
}

#[test]
fn counted_headers() {
    assert!(is_counted_header("age"));
    assert!(is_counted_header("Age"));
    assert!(is_counted_header("PASSAGE"));
    assert!(is_counted_header("item_count"));
    assert!(is_counted_header("Size (cm)"));
    assert!(!is_counted_header("name"));
    assert!(!is_counted_header("ag e"));
    assert!(!is_counted_header(""));
}

#[test]
fn lower_case_header_words() {
    assert!(names_a_count("age"));
    assert!(names_a_count("discount"));
    assert!(!names_a_count("AGE"));
    assert!(!names_a_count("cost"));
}

#[test]
fn only_counted_columns_report_negatives() {
    let t = table(&["Age", "balance", "COUNT", "size"], &[&["-1", "-5", "3", "0"]]);
    let issues = check_consistency(&t, &vec![1, 1, 0, 2]).unwrap();
    assert_eq!(issues, vec![1, 0, 0, 2]);
}
