use presto_cli::text::{
    is_missing, is_numeric, is_truth_word, parses_as_bool, parses_as_float, parses_as_int,
};

const SAMPLES: [&str; 74] = [
    "", "NA", "na", "N", "NAN", "nan", "NaN", "+nan", "-NaN", "inf", "INF", "-inf", "+Inf",
    "infinity", "INFINITY", "-Infinity", "infinit", "infinityy", "in", "0", "1", "-1", "+1", "007",
    "-0", "+0", "1.5", "1.", ".5", ".", "+.", "-.5", "+5.", "1e5", "1E5", "1e+5", "1e-5", "1e",
    "1e+", "e5", ".e5", "1.e5", ".5e5", "1.5e10", "1.5e", "1.5.2", "1e5.0", "1e5e5", " 1", "1 ",
    "1_000", "0x10", "--1", "+-1", "+", "-", "1f", "abc", "true", "9223372036854775807",
    "9223372036854775808", "-9223372036854775808", "-9223372036854775809",
    "+9223372036854775807", "000000000000000000000009223372036854775807",
    "99999999999999999999999999", "1e99999999999999999999", "1e-99999999999999999999",
    "0.00000000000000000000000000000000000000000000000001", "١٢٣", "1.5é", "é", "12a", "1,5",
];

#[test]
fn float_grammar_agrees_with_the_standard_parser() {
    for s in SAMPLES.iter() {
        assert_eq!(parses_as_float(s), s.parse::<f64>().is_ok(), "text {:?}", s);
    }
}

#[test]
fn int_grammar_agrees_with_the_standard_parser() {
    for s in SAMPLES.iter() {
        assert_eq!(parses_as_int(s), s.parse::<i64>().is_ok(), "text {:?}", s);
    }
}

#[test]
fn int_limits() {
    assert!(parses_as_int("9223372036854775807"));
    assert!(!parses_as_int("9223372036854775808"));
    assert!(parses_as_int("-9223372036854775808"));
    assert!(!parses_as_int("-9223372036854775809"));
    assert!(!parses_as_int("+"));
    assert!(!parses_as_int(""));
    assert!(!parses_as_int("1.0"));
}

#[test]
fn float_forms() {
    assert!(parses_as_float("1"));
    assert!(parses_as_float("-1.5e-3"));
    assert!(parses_as_float(".5"));
    assert!(parses_as_float("5."));
    assert!(parses_as_float("NaN"));
    assert!(parses_as_float("-infinity"));
    assert!(!parses_as_float("."));
    assert!(!parses_as_float("1e"));
    assert!(!parses_as_float("e1"));
    assert!(!parses_as_float(""));
    assert!(!parses_as_float("NA"));
}

#[test]
fn missing_marks() {
    assert!(is_missing(""));
    assert!(is_missing("NA"));
    assert!(!is_missing("na"));
    assert!(!is_missing("N/A"));
    assert!(!is_missing(" "));
    assert!(!is_missing("NAN"));
    assert!(!is_missing("0"));
}

#[test]
fn missing_cells_are_not_numeric() {
    assert!(!is_numeric(""));
    assert!(!is_numeric("NA"));
    assert!(is_numeric("3.25"));
    assert!(is_numeric("nan"));
    assert!(!is_numeric("three"));
}

#[test]
fn every_int_sample_is_a_float_sample() {
    for s in SAMPLES.iter() {
        if parses_as_int(s) {
            assert!(parses_as_float(s), "text {:?}", s);
        }
    }
}

#[test]
fn truth_words() {
    assert!(is_truth_word("true"));
    assert!(is_truth_word("false"));
    assert!(is_truth_word("1"));
    assert!(is_truth_word("0"));
    assert!(!is_truth_word("TRUE"));
    assert!(!is_truth_word("yes"));
    assert!(!is_truth_word(""));
    assert!(!is_truth_word("10"));
}

#[test]
fn truth_values_in_any_case() {
    assert!(parses_as_bool("true"));
    assert!(parses_as_bool("TRUE"));
    assert!(parses_as_bool("False"));
    assert!(parses_as_bool("fAlSe"));
    assert!(parses_as_bool("1"));
    assert!(parses_as_bool("0"));
    assert!(!parses_as_bool("2"));
    assert!(!parses_as_bool("yes"));
    assert!(!parses_as_bool("t"));
}

/// Texts over the characters that matter to the number grammars, in a fixed
/// pseudo-random order.
fn scrambled_texts(count: usize) -> Vec<String> {
    let alphabet: Vec<char> = "0123456789..eE+-+-infatyINFATY _x".chars().collect();
    let mut state: u64 = 0x2545_f491_4f6c_dd1d;
    let mut next = move || {
        state ^= state << 13;
        state ^= state >> 7;
        state ^= state << 17;
        state
    };
    (0..count)
        .map(|_| {
            let len = (next() % 9) as usize;
            (0..len).map(|_| alphabet[(next() % alphabet.len() as u64) as usize]).collect()
        })
        .collect()
}

#[test]
fn float_grammar_agrees_on_scrambled_texts() {
    let mut accepted = 0;
    for s in scrambled_texts(300_000) {
        let expected = s.parse::<f64>().is_ok();
        assert_eq!(parses_as_float(&s), expected, "text {:?}", s);
        if expected {
            accepted += 1;
        }
    }
    assert!(accepted > 1000);
}

#[test]
fn int_grammar_agrees_on_scrambled_texts() {
    let mut accepted = 0;
    for s in scrambled_texts(300_000) {
        let expected = s.parse::<i64>().is_ok();
        assert_eq!(parses_as_int(&s), expected, "text {:?}", s);
        if expected {
            accepted += 1;
        }
    }
    assert!(accepted > 1000);
}

#[test]
fn int_grammar_agrees_near_the_limits() {
    for tail in 0..100u64 {
        for sign in ["", "+", "-"] {
            let s = format!("{}92233720368547758{:02}", sign, tail);
            assert_eq!(parses_as_int(&s), s.parse::<i64>().is_ok(), "text {:?}", s);
            let s = format!("{}00092233720368547758{:02}", sign, tail);
            assert_eq!(parses_as_int(&s), s.parse::<i64>().is_ok(), "text {:?}", s);
        }
    }
}
