//! Measures of a column that are exact: how many cells are missing, which
//! cells hold numbers, how many different texts occur.

use vstd::hash_set::StringHashSet;
use vstd::prelude::*;
use crate::counting::{count_where, distinct_count, lemma_count_partition, lemma_count_step};
use crate::dataset::{column_of, has_column, Dataset, PrestoError};
use crate::text::{
    chars_of, contains_chars, float_text, has_infix, is_missing, is_numeric,
    lemma_missing_is_no_number, lowercase_of, missing_text, numeric_text, lowercase,
};

verus! {

/// The test for a missing cell.
pub open spec fn is_missing_cell() -> spec_fn(Seq<char>) -> bool {
    |s: Seq<char>| missing_text(s)
}

/// The test for a cell that holds a number.
pub open spec fn is_numeric_cell() -> spec_fn(Seq<char>) -> bool {
    |s: Seq<char>| numeric_text(s)
}

/// The test for a cell that holds a text that is no number.
pub open spec fn is_other_cell() -> spec_fn(Seq<char>) -> bool {
    |s: Seq<char>| !missing_text(s) && !float_text(s)
}

/// How many cells of `col` are missing.
pub open spec fn missing_count(col: Seq<Seq<char>>) -> nat {
    count_where(col, is_missing_cell())
}

/// How many cells of `col` hold a number.
pub open spec fn numeric_count(col: Seq<Seq<char>>) -> nat {
    count_where(col, is_numeric_cell())
}

/// How many cells of `col` hold a text that is no number.
pub open spec fn other_count(col: Seq<Seq<char>>) -> nat {
    count_where(col, is_other_cell())
}

/// Every cell is missing, holds a number or holds another text, and only one
/// of the three: the three counts of a column add up to its length.
pub proof fn lemma_cells_partition(col: Seq<Seq<char>>)
    ensures
        missing_count(col) + numeric_count(col) + other_count(col) == col.len(),
{
    assert forall|i: int| 0 <= i < col.len() implies (if is_missing_cell()(#[trigger] col[i]) {
        1int
    } else {
        0int
    }) + (if is_numeric_cell()(col[i]) {
        1int
    } else {
        0int
    }) + (if is_other_cell()(col[i]) {
        1int
    } else {
        0int
    }) == 1 by {
        if missing_text(col[i]) {
            lemma_missing_is_no_number(col[i]);
        }
    }
    lemma_count_partition(col, is_missing_cell(), is_numeric_cell(), is_other_cell());
}

/// Counts the missing cells of the column `col_idx`.
pub fn count_missing(rows: &[Vec<String>], col_idx: usize) -> (count: usize)
    requires
        has_column(rows.deep_view(), col_idx as int),
    ensures
        count == missing_count(column_of(rows.deep_view(), col_idx as int)),
{
    let ghost col = column_of(rows.deep_view(), col_idx as int);
    let mut count: usize = 0;
    let mut i: usize = 0;
    while i < rows.len()
        invariant
            i <= rows.len(),
            has_column(rows.deep_view(), col_idx as int),
            col == column_of(rows.deep_view(), col_idx as int),
            count == missing_count(col.take(i as int)),
            count <= i,
        decreases rows.len() - i,
    {
        assert(rows.deep_view()[i as int].len() > col_idx);
        proof {
            lemma_count_step(col, is_missing_cell(), i as int);
        }
        if is_missing(rows[i][col_idx].as_str()) {
            count += 1;
        }
        i += 1;
    }
    assert(col.take(i as int) =~= col);
    count
}

/// The rows whose cell in the column `col_idx` holds a number, top to bottom:
/// the cells that every numeric summary of the column is computed from.
pub fn numeric_rows(rows: &[Vec<String>], col_idx: usize) -> (out: Vec<usize>)
    requires
        has_column(rows.deep_view(), col_idx as int),
    ensures
        out.len() == numeric_count(column_of(rows.deep_view(), col_idx as int)),
        forall|k: int|
            0 <= k < out.len() ==> (#[trigger] out[k]) < rows.len() && numeric_text(
                column_of(rows.deep_view(), col_idx as int)[out[k] as int],
            ),
        forall|k: int, l: int| 0 <= k < l < out.len() ==> #[trigger] out[k] < #[trigger] out[l],
        forall|i: int|
            0 <= i < rows.len() && numeric_text(
                #[trigger] column_of(rows.deep_view(), col_idx as int)[i],
            ) ==> out@.contains(i as usize),
{
    let ghost col = column_of(rows.deep_view(), col_idx as int);
    let mut out: Vec<usize> = Vec::new();
    let mut i: usize = 0;
    while i < rows.len()
        invariant
            i <= rows.len(),
            has_column(rows.deep_view(), col_idx as int),
            col == column_of(rows.deep_view(), col_idx as int),
            out.len() == numeric_count(col.take(i as int)),
            forall|k: int|
                0 <= k < out.len() ==> (#[trigger] out[k]) < i && numeric_text(
                    col[out[k] as int],
                ),
            forall|k: int, l: int|
                0 <= k < l < out.len() ==> #[trigger] out[k] < #[trigger] out[l],
            forall|j: int| 0 <= j < i && numeric_text(#[trigger] col[j]) ==> out@.contains(j as usize),
        decreases rows.len() - i,
    {
        assert(rows.deep_view()[i as int].len() > col_idx);
        proof {
            lemma_count_step(col, is_numeric_cell(), i as int);
        }
        if is_numeric(rows[i][col_idx].as_str()) {
            let ghost before = out@;
            out.push(i);
            assert forall|j: int| 0 <= j < i + 1 && numeric_text(#[trigger] col[j]) implies out@.contains(
                j as usize,
            ) by {
                if j < i {
                    let k = choose|k: int| 0 <= k < before.len() && before[k] == j as usize;
                    assert(out@[k] == j as usize);
                } else {
                    assert(out@[out.len() - 1] == i);
                }
            }
        }
        i += 1;
    }
    assert(col.take(i as int) =~= col);
    out
}

/// Counts the different texts of the column `col_idx`, the markers of
/// missing cells among them.
pub fn column_cardinality(rows: &[Vec<String>], col_idx: usize) -> (count: usize)
    requires
        has_column(rows.deep_view(), col_idx as int),
    ensures
        count == distinct_count(column_of(rows.deep_view(), col_idx as int)),
{
    let ghost col = column_of(rows.deep_view(), col_idx as int);
    let mut seen = StringHashSet::new();
    let mut i: usize = 0;
    assert(col.take(0).to_set() =~= Set::<Seq<char>>::empty());
    while i < rows.len()
        invariant
            i <= rows.len(),
            has_column(rows.deep_view(), col_idx as int),
            col == column_of(rows.deep_view(), col_idx as int),
            col.len() == rows.len(),
            seen@ == col.take(i as int).to_set(),
        decreases rows.len() - i,
    {
        assert(rows.deep_view()[i as int].len() > col_idx);
        proof {
            col.lemma_take_succ_push(i as int);
            col.take(i as int).lemma_push_to_set_commute(col[i as int]);
        }
        let cell = &rows[i][col_idx];
        if !seen.contains(cell.as_str()) {
            seen.insert(cell.clone());
        } else {
            assert(seen@.insert(col[i as int]) =~= seen@);
        }
        i += 1;
    }
    assert(col.take(i as int) =~= col);
    seen.len()
}

/// For each column, the number of different texts in it.
pub fn compute_cardinality(dataset: &Dataset) -> (out: Result<Vec<usize>, PrestoError>)
    requires
        dataset@.well_formed(),
    ensures
        out is Ok,
        out->Ok_0.len() == dataset@.headers.len(),
        forall|c: int|
            0 <= c < dataset@.headers.len() ==> (#[trigger] out->Ok_0[c]) == distinct_count(
                dataset@.column(c),
            ),
{
    let rows = dataset.rows();
    let width = dataset.headers().len();
    let mut out: Vec<usize> = Vec::new();
    let mut c: usize = 0;
    while c < width
        invariant
            c <= width,
            width == dataset@.headers.len(),
            dataset@.well_formed(),
            rows.deep_view() == dataset@.rows,
            out.len() == c,
            forall|k: int| 0 <= k < c ==> (#[trigger] out[k]) == distinct_count(dataset@.column(k)),
        decreases width - c,
    {
        let n = column_cardinality(rows.as_slice(), c);
        out.push(n);
        c += 1;
    }
    Ok(out)
}

/// Two columns can be correlated: they are different columns, the first
/// holds a number, and both hold as many numbers.
pub open spec fn pairs_up(counts: Seq<usize>, i: int, j: int) -> bool {
    i != j && counts[i] > 0 && counts[j] == counts[i]
}

/// Tells whether columns `i` and `j` can be correlated, given the number of
/// cells that hold a number in each column.
pub fn comparable(counts: &[usize], i: usize, j: usize) -> (r: bool)
    requires
        i < counts.len(),
        j < counts.len(),
    ensures
        r == pairs_up(counts@, i as int, j as int),
{
    i != j && counts[i] > 0 && counts[j] == counts[i]
}

/// The places of the median in a list of `count` numbers in rising order: the
/// middle place, twice, where `count` is odd, and the two places at the
/// middle where it is even. A list without numbers has no median.
pub open spec fn median_places(count: nat) -> Option<(nat, nat)> {
    if count == 0 {
        None
    } else if count % 2 == 0 {
        Some(((count / 2 - 1) as nat, count / 2))
    } else {
        Some((count / 2, count / 2))
    }
}

/// The places of the median in a list of `count` numbers in rising order.
pub fn median_positions(count: usize) -> (out: Option<(usize, usize)>)
    ensures
        match median_places(count as nat) {
            Some((low, high)) => out == Some((low as usize, high as usize)) && low <= high < count,
            None => out is None,
        },
{
    if count == 0 {
        None
    } else if count % 2 == 0 {
        Some((count / 2 - 1, count / 2))
    } else {
        Some((count / 2, count / 2))
    }
}

/// A header that names the column to predict: in lower case it holds
/// `target`.
pub open spec fn target_header(header: Seq<char>) -> bool {
    has_infix(lowercase_of(header), seq!['t', 'a', 'r', 'g', 'e', 't'])
}

/// No header names a target.
pub open spec fn names_no_target(headers: Seq<Seq<char>>) -> bool {
    forall|c: int| 0 <= c < headers.len() ==> !target_header(#[trigger] headers[c])
}

/// Header `c` names a target, and no header before it does.
pub open spec fn is_first_target(headers: Seq<Seq<char>>, c: int) -> bool {
    &&& 0 <= c < headers.len()
    &&& target_header(headers[c])
    &&& forall|k: int| 0 <= k < c ==> !target_header(#[trigger] headers[k])
}

/// Tells whether a header, already in lower case, names the column to
/// predict.
pub fn names_target(lower: &str) -> (r: bool)
    ensures
        r == has_infix(lower@, seq!['t', 'a', 'r', 'g', 'e', 't']),
{
    let cs = chars_of(lower);
    let target = ['t', 'a', 'r', 'g', 'e', 't'];
    assert(target@ =~= seq!['t', 'a', 'r', 'g', 'e', 't']);
    contains_chars(&cs, target.as_slice())
}

/// The column against which the importance of the others is measured: the
/// first whose header names a target, and the first column where none does.
pub fn target_column(headers: &Vec<String>) -> (idx: usize)
    ensures
        names_no_target(headers.deep_view()) ==> idx == 0,
        !names_no_target(headers.deep_view()) ==> is_first_target(headers.deep_view(), idx as int),
{
    let mut c: usize = 0;
    while c < headers.len()
        invariant
            c <= headers.len(),
            forall|k: int| 0 <= k < c ==> !target_header(#[trigger] headers.deep_view()[k]),
        decreases headers.len() - c,
    {
        assert(headers.deep_view()[c as int] == headers@[c as int]@);
        let lower = lowercase(headers[c].as_str());
        if names_target(lower.as_str()) {
            return c;
        }
        c += 1;
    }
    0
}

} // verus!
