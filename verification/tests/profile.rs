use presto_cli::cleaning::Similarity;
use presto_cli::types::TypeInference;
use presto_cli::{describe, Dataset, Description, PrestoError};

fn table(headers: &[&str], rows: &[&[&str]]) -> Dataset {
    Dataset::new(
        headers.iter().map(|h| h.to_string()).collect(),
        rows.iter().map(|r| r.iter().map(|c| c.to_string()).collect()).collect(),
    )
}

fn sample() -> Dataset {
    table(
        &["id", "Age", "city", "copy"],
        &[
            &["1", "34", "Oslo", "1"],
            &["2", "", "Rome", "2"],
            &["3", "29", "Oslo", "3"],
            &["3", "29", "Oslo", "3"],
            &["5", "NA", "", "5"],
            &["6", "x", "Rome", "6"],
        ],
    )
}

#[test]
fn test_describe_empty() {
    let dataset = Dataset::new(vec![], vec![]);
    assert!(matches!(describe(&dataset), Err(PrestoError::EmptyDataset)));
}

#[test]
fn headers_without_rows_are_an_empty_dataset() {
    let dataset = table(&["a", "b"], &[]);
    assert!(matches!(describe(&dataset), Err(PrestoError::EmptyDataset)));
}

#[test]
fn one_row_is_enough() {
    let d = describe(&table(&["a"], &[&["1"]])).unwrap();
    assert_eq!(d.total_rows(), 1);
    assert_eq!(d.missing(), &vec![0]);
    assert_eq!(d.duplicates(), 0);
}

#[test]
fn rows_without_columns_are_described() {
    let dataset = Dataset::new(vec![], vec![vec![], vec![]]);
    let d = describe(&dataset).unwrap();
    assert_eq!(d.total_rows(), 2);
    assert_eq!(d.duplicates(), 1);
    assert!(d.missing().is_empty());
    assert!(d.types().is_empty());
}

#[test]
fn profile_of_a_small_table() {
    let d = describe(&sample()).unwrap();
    assert_eq!(d.total_rows(), 6);
    assert_eq!(d.duplicates(), 1);
    assert_eq!(d.missing(), &vec![0, 2, 1, 0]);
    assert_eq!(d.numeric(), &vec![6, 3, 0, 6]);
    assert_eq!(
        d.types(),
        &vec![
            TypeInference::Integer,
            TypeInference::String,
            TypeInference::String,
            TypeInference::Integer,
        ]
    );
    assert_eq!(d.cardinality(), &vec![5, 5, 3, 5]);
    assert_eq!(
        d.redundancy_pairs(),
        &vec![
            (0, 3, Similarity { matches: 6, valid: 6 }),
        ]
    );
    let top = d.top_values();
    assert_eq!(top.len(), 4);
    assert_eq!(top[0].0, "id");
    assert_eq!(
        top[0].1,
        vec![
            ("3".to_string(), 2),
            ("1".to_string(), 1),
            ("2".to_string(), 1),
            ("5".to_string(), 1),
            ("6".to_string(), 1),
        ]
    );
    assert_eq!(top[1].0, "Age");
    assert_eq!(
        top[1].1,
        vec![("29".to_string(), 2), ("34".to_string(), 1), ("x".to_string(), 1)]
    );
    assert_eq!(top[2].0, "city");
    assert_eq!(top[2].1, vec![("Oslo".to_string(), 3), ("Rome".to_string(), 2)]);
}

#[test]
fn every_list_has_one_entry_per_column() {
    let d = describe(&sample()).unwrap();
    assert_eq!(d.missing().len(), 4);
    assert_eq!(d.numeric().len(), 4);
    assert_eq!(d.types().len(), 4);
    assert_eq!(d.cardinality().len(), 4);
    assert_eq!(d.top_values().len(), 4);
}

#[test]
fn missing_numeric_and_other_cells_add_up() {
    let t = sample();
    let d = describe(&t).unwrap();
    for c in 0..4 {
        let other = t
            .rows()
            .iter()
            .filter(|r| !r[c].is_empty() && r[c] != "NA" && r[c].parse::<f64>().is_err())
            .count();
        assert_eq!(d.missing()[c] + d.numeric()[c] + other, d.total_rows());
    }
}

#[test]
fn describing_twice_gives_the_same_profile() {
    let t = sample();
    let a = describe(&t).unwrap();
    let b = describe(&t).unwrap();
    assert_eq!(a.missing(), b.missing());
    assert_eq!(a.numeric(), b.numeric());
    assert_eq!(a.duplicates(), b.duplicates());
    assert_eq!(a.types(), b.types());
    assert_eq!(a.cardinality(), b.cardinality());
    assert_eq!(a.redundancy_pairs(), b.redundancy_pairs());
    assert_eq!(a.total_rows(), b.total_rows());
    assert_eq!(a.top_values(), b.top_values());
}

#[test]
fn a_description_holds_what_it_was_made_of() {
    let d = Description::new(
        vec![1, 2],
        vec![3, 4],
        5,
        vec![TypeInference::Float, TypeInference::Mixed],
        vec![6, 7],
        vec![(0, 1, Similarity { matches: 8, valid: 8 })],
        9,
        vec![("h".to_string(), vec![("v".to_string(), 2)]), ("k".to_string(), vec![])],
    );
    assert_eq!(d.missing(), &vec![1, 2]);
    assert_eq!(d.numeric(), &vec![3, 4]);
    assert_eq!(d.duplicates(), 5);
    assert_eq!(d.types(), &vec![TypeInference::Float, TypeInference::Mixed]);
    assert_eq!(d.cardinality(), &vec![6, 7]);
    assert_eq!(d.redundancy_pairs(), &vec![(0, 1, Similarity { matches: 8, valid: 8 })]);
    assert_eq!(d.total_rows(), 9);
    assert_eq!(d.top_values()[0].1, vec![("v".to_string(), 2)]);
}

#[test]
fn dataset_keeps_headers_and_rows() {
    let t = table(&["a", "b"], &[&["1", "2"], &["3", "4"]]);
    assert_eq!(t.headers(), &vec!["a".to_string(), "b".to_string()]);
    assert_eq!(t.rows().len(), 2);
    assert_eq!(t.rows()[1], vec!["3".to_string(), "4".to_string()]);
    assert!(t.is_well_formed());
}

#[test]
fn ragged_rows_are_not_well_formed() {
    let t = table(&["a", "b"], &[&["1", "2"], &["3"]]);
    assert!(!t.is_well_formed());
    let t = table(&["a"], &[&["1", "2"]]);
    assert!(!t.is_well_formed());
}

#[test]
fn error_messages() {
    assert_eq!(PrestoError::EmptyDataset.message(), "Empty dataset provided");
    assert_eq!(
        PrestoError::InvalidNumeric("bad file".to_string()).message(),
        "Invalid numeric data: bad file"
    );
}

#[test]
fn a_large_table_is_profiled() {
    let n = 40_000usize;
    let rows: Vec<Vec<String>> = (0..n)
        .map(|i| vec![i.to_string(), (i % 1000).to_string(), format!("name{}", i % 7)])
        .collect();
    let t = Dataset::new(vec!["id".to_string(), "bucket".to_string(), "name".to_string()], rows);
    let d = describe(&t).unwrap();
    assert_eq!(d.total_rows(), n);
    assert_eq!(d.duplicates(), 0);
    assert_eq!(d.cardinality(), &vec![n, 1000, 7]);
    assert_eq!(d.missing(), &vec![0, 0, 0]);
    assert_eq!(d.numeric(), &vec![n, n, 0]);
    assert_eq!(d.top_values()[2].1[0], ("name0".to_string(), 5715));
}
