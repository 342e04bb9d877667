use presto_cli::noise::{all_positions, noise_split, split_halves};
use presto_cli::patterns::{
    bin_counts, detect_temporal_patterns, is_date, join_with_commas, pattern_label, scan_column,
    suggest_transformations, suggestion, ColumnScan, ColumnShape, Order,
};
use presto_cli::Dataset;

fn one_column(cells: &[&str]) -> Dataset {
    Dataset::new(
        vec!["c".to_string()],
        cells.iter().map(|c| vec![c.to_string()]).collect(),
    )
}

fn column(cells: &[&str]) -> Vec<Vec<String>> {
    cells.iter().map(|c| vec![c.to_string()]).collect()
}

const RISING: Order = Order { non_decreasing: true, non_increasing: false };
const FALLING: Order = Order { non_decreasing: false, non_increasing: true };
const LEVEL: Order = Order { non_decreasing: true, non_increasing: true };
const MIXED: Order = Order { non_decreasing: false, non_increasing: false };

#[test]
fn dates_with_and_without_time() {
    assert!(is_date("2024-01-31 23:59:59"));
    assert!(is_date("2024-01-31"));
    assert!(is_date("1999-12-01 00:00:00"));
    assert!(!is_date("2024-02-30"));
    assert!(!is_date("2024-01-31 25:00:00"));
    assert!(!is_date("31/01/2024"));
    assert!(!is_date("hello"));
    assert!(!is_date("20240131"));
    assert!(!is_date(""));
}

#[test]
fn scan_of_a_column() {
    assert_eq!(
        scan_column(&column(&["", "NA"]), 0),
        ColumnScan { any_present: false, all_dates: true, all_numbers: true }
    );
    assert_eq!(
        scan_column(&column(&["2024-01-01", "", "2024-01-02 10:00:00"]), 0),
        ColumnScan { any_present: true, all_dates: true, all_numbers: false }
    );
    assert_eq!(
        scan_column(&column(&["1", "2.5", "NA"]), 0),
        ColumnScan { any_present: true, all_dates: false, all_numbers: true }
    );
    assert_eq!(
        scan_column(&column(&["1", "x"]), 0),
        ColumnScan { any_present: true, all_dates: false, all_numbers: false }
    );
}

#[test]
fn labels_of_patterns() {
    let empty = ColumnScan { any_present: false, all_dates: true, all_numbers: true };
    let dates = ColumnScan { any_present: true, all_dates: true, all_numbers: false };
    let numbers = ColumnScan { any_present: true, all_dates: false, all_numbers: true };
    let words = ColumnScan { any_present: true, all_dates: false, all_numbers: false };
    assert_eq!(pattern_label(&empty, RISING), "None");
    assert_eq!(pattern_label(&dates, FALLING), "Date-like");
    assert_eq!(pattern_label(&numbers, RISING), "Increasing");
    assert_eq!(pattern_label(&numbers, FALLING), "Decreasing");
    assert_eq!(pattern_label(&numbers, LEVEL), "None");
    assert_eq!(pattern_label(&numbers, MIXED), "None");
    assert_eq!(pattern_label(&words, RISING), "None");
}

#[test]
fn temporal_patterns_by_column() {
    let t = Dataset::new(
        vec!["when".to_string(), "n".to_string(), "m".to_string(), "w".to_string()],
        vec![
            vec!["2024-01-01".to_string(), "1".to_string(), "9".to_string(), "a".to_string()],
            vec!["2024-01-02".to_string(), "2".to_string(), "".to_string(), "2".to_string()],
            vec!["NA".to_string(), "3".to_string(), "7".to_string(), "3".to_string()],
        ],
    );
    let labels = detect_temporal_patterns(&t, &vec![MIXED, RISING, FALLING, RISING]).unwrap();
    assert_eq!(labels, vec!["Date-like", "Increasing", "Decreasing", "None"]);
}

#[test]
fn missing_column_has_no_pattern() {
    let t = one_column(&["", "NA", ""]);
    assert_eq!(detect_temporal_patterns(&t, &vec![RISING]).unwrap(), vec!["None"]);
}

#[test]
fn suggestions_in_fixed_order() {
    let shape = |skewed, negative, wide| ColumnShape { numeric: true, skewed, negative, wide };
    assert_eq!(suggestion(&shape(false, false, false)), "None");
    assert_eq!(suggestion(&shape(true, false, false)), "Log transform (skewed)");
    assert_eq!(suggestion(&shape(false, true, false)), "Shift positive");
    assert_eq!(suggestion(&shape(false, false, true)), "Normalize");
    assert_eq!(suggestion(&shape(true, true, false)), "Log transform (skewed), Shift positive");
    assert_eq!(suggestion(&shape(true, false, true)), "Log transform (skewed), Normalize");
    assert_eq!(suggestion(&shape(false, true, true)), "Shift positive, Normalize");
    assert_eq!(
        suggestion(&shape(true, true, true)),
        "Log transform (skewed), Shift positive, Normalize"
    );
}

#[test]
fn no_numbers_no_suggestion() {
    let shape = ColumnShape { numeric: false, skewed: true, negative: true, wide: true };
    assert_eq!(suggestion(&shape), "None");
}

#[test]
fn suggestions_by_column() {
    let shapes = vec![
        ColumnShape { numeric: true, skewed: false, negative: true, wide: true },
        ColumnShape { numeric: false, skewed: false, negative: false, wide: false },
    ];
    assert_eq!(
        suggest_transformations(&shapes).unwrap(),
        vec!["Shift positive, Normalize", "None"]
    );
}

#[test]
fn joining_with_commas() {
    assert_eq!(join_with_commas(&vec![]), "");
    assert_eq!(join_with_commas(&vec!["a"]), "a");
    assert_eq!(join_with_commas(&vec!["a", "b", "c"]), "a, b, c");
}

#[test]
fn slots_fall_into_ten_bins() {
    let slots = vec![0, 1, 1, 2, 9, 9, 10, 11, 1000, usize::MAX, 5];
    let bins = bin_counts(&slots);
    assert_eq!(bins, vec![1, 2, 1, 0, 0, 1, 0, 0, 0, 6]);
    assert_eq!(bins.iter().sum::<usize>(), slots.len());
}

#[test]
fn values_across_zero_to_hundred_fill_every_bin() {
    let values: Vec<f64> = (0..=100).map(|v| v as f64).collect();
    let min = 0.0;
    let max = 100.0;
    let bin_size = (max - min) / 10.0;
    let slots: Vec<usize> = values.iter().map(|v| ((v - min) / bin_size).floor() as usize).collect();
    let bins = bin_counts(&slots);
    assert_eq!(bins, vec![10, 10, 10, 10, 10, 10, 10, 10, 10, 11]);
    assert_eq!(bins.iter().sum::<usize>(), values.len());
    let centers: Vec<f64> = (0..bins.len()).map(|i| min + (i as f64 + 0.5) * bin_size).collect();
    assert_eq!(centers, vec![5.0, 15.0, 25.0, 35.0, 45.0, 55.0, 65.0, 75.0, 85.0, 95.0]);
}

#[test]
fn no_slots_no_counts() {
    assert_eq!(bin_counts(&[]), vec![0; 10]);
}

#[test]
fn positions_count_up() {
    assert_eq!(all_positions(4), vec![0, 1, 2, 3]);
    assert_eq!(all_positions(0), Vec::<usize>::new());
}

#[test]
fn halves_are_cut_at_the_middle() {
    assert_eq!(split_halves(vec![5, 6, 7, 8, 9]), (vec![5, 6], vec![7, 8, 9]));
    assert_eq!(split_halves(vec![1, 2]), (vec![1], vec![2]));
    assert_eq!(split_halves(vec![]), (vec![], vec![]));
}

#[test]
fn fewer_than_ten_values_are_not_split() {
    assert!(noise_split(0).is_none());
    assert!(noise_split(9).is_none());
}

#[test]
fn a_split_holds_every_position_once() {
    for count in [10usize, 11, 50] {
        let (first, second) = noise_split(count).unwrap();
        assert_eq!(first.len(), count / 2);
        assert_eq!(second.len(), count - count / 2);
        let mut all: Vec<usize> = first.iter().chain(second.iter()).copied().collect();
        all.sort();
        assert_eq!(all, (0..count).collect::<Vec<usize>>());
    }
}

#[test]
fn a_split_is_shuffled() {
    // 200 positions in their own order after a shuffle: once in 200! runs
    let (first, second) = noise_split(200).unwrap();
    let all: Vec<usize> = first.iter().chain(second.iter()).copied().collect();
    assert_ne!(all, (0..200).collect::<Vec<usize>>());
}
