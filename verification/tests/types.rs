use presto_cli::types::{infer_type, TypeInference};

fn column(cells: &[&str]) -> Vec<Vec<String>> {
    cells.iter().map(|c| vec![c.to_string()]).collect()
}

#[test]
fn integers_are_integer() {
    assert_eq!(infer_type(&column(&["1", "2", "3"]), 0), TypeInference::Integer);
}

#[test]
fn decimals_are_float() {
    assert_eq!(infer_type(&column(&["1.5", "2.0"]), 0), TypeInference::Float);
}

#[test]
fn truth_values_are_boolean() {
    assert_eq!(infer_type(&column(&["true", "0", "1"]), 0), TypeInference::Boolean);
}

#[test]
fn a_text_that_fits_nothing_makes_string() {
    assert_eq!(infer_type(&column(&["1", "x", "true"]), 0), TypeInference::String);
}

#[test]
fn empty_column_is_mixed() {
    assert_eq!(infer_type(&column(&[]), 0), TypeInference::Mixed);
}

#[test]
fn all_missing_column_is_mixed() {
    assert_eq!(infer_type(&column(&["", "NA", ""]), 0), TypeInference::Mixed);
}

#[test]
fn zeros_and_ones_are_boolean() {
    assert_eq!(infer_type(&column(&["1", "0", "1"]), 0), TypeInference::Boolean);
}

#[test]
fn integers_and_decimals_are_float() {
    assert_eq!(infer_type(&column(&["1", "2.5", "3"]), 0), TypeInference::Float);
}

#[test]
fn missing_cells_have_no_say() {
    assert_eq!(infer_type(&column(&["", "4", "NA", "5"]), 0), TypeInference::Integer);
}

#[test]
fn truth_word_then_number_is_string() {
    assert_eq!(infer_type(&column(&["true", "2"]), 0), TypeInference::String);
}

#[test]
fn words_are_string() {
    assert_eq!(infer_type(&column(&["red", "green"]), 0), TypeInference::String);
}

#[test]
fn second_column_is_read() {
    let rows = vec![
        vec!["a".to_string(), "1.5".to_string()],
        vec!["b".to_string(), "2".to_string()],
    ];
    assert_eq!(infer_type(&rows, 0), TypeInference::String);
    assert_eq!(infer_type(&rows, 1), TypeInference::Float);
}
