//! Patterns in the values of a column: dates, steady rise or fall, and the
//! transformations that a numeric summary calls for.

use vstd::prelude::*;
use crate::counting::{count_where, lemma_count_bounded, lemma_count_step};
use crate::dataset::{column_of, has_column, Dataset, PrestoError};
use crate::text::{chars_are_float, chars_are_missing, chars_of, float_text, missing_text};
use crate::types::{all_floats, all_missing};

verus! {

/// Whether `chrono::NaiveDateTime::parse_from_str` accepts `text` under the
/// format `format`.
pub uninterp spec fn datetime_parses(text: Seq<char>, format: Seq<char>) -> bool;

/// Calls `chrono::NaiveDateTime::parse_from_str` and tells whether it
/// returned a date and time. The parser reads nothing but its two arguments,
/// so the contract names the answer and claims no more.
#[verifier::external_body]
fn parses_as_datetime(text: &str, format: &str) -> (ok: bool)
    ensures
        ok == datetime_parses(text@, format@),
{
    chrono::NaiveDateTime::parse_from_str(text, format).is_ok()
}

/// Whether `chrono::NaiveDate::parse_from_str` accepts `text` under the
/// format `format`.
pub uninterp spec fn date_parses(text: Seq<char>, format: Seq<char>) -> bool;

/// Calls `chrono::NaiveDate::parse_from_str` and tells whether it returned a
/// date. The parser reads nothing but its two arguments, so the contract
/// names the answer and claims no more.
#[verifier::external_body]
fn parses_as_date(text: &str, format: &str) -> (ok: bool)
    ensures
        ok == date_parses(text@, format@),
{
    chrono::NaiveDate::parse_from_str(text, format).is_ok()
}

/// A text that reads as a date with a time of day under the format
/// `%Y-%m-%d %H:%M:%S`, as `2024-01-31 23:59:59` does, or as a date alone
/// under the format `%Y-%m-%d`, as `2024-01-31` does.
pub open spec fn date_text(s: Seq<char>) -> bool {
    datetime_parses(s, "%Y-%m-%d %H:%M:%S"@) || date_parses(s, "%Y-%m-%d"@)
}

/// Tells whether a cell reads as a date.
pub fn is_date(s: &str) -> (r: bool)
    ensures
        r == date_text(s@),
{
    parses_as_datetime(s, "%Y-%m-%d %H:%M:%S") || parses_as_date(s, "%Y-%m-%d")
}

/// Every cell of `col` that is not missing reads as a date.
pub open spec fn all_dates(col: Seq<Seq<char>>) -> bool {
    forall|i: int| 0 <= i < col.len() && !missing_text(#[trigger] col[i]) ==> date_text(col[i])
}

/// What the order of a column's numbers shows, as found by comparing each
/// number with the next: whether none is below the one before it, and whether
/// none is above the one before it.
#[derive(Debug, Clone, Copy, PartialEq, Eq)]
pub struct Order {
    pub non_decreasing: bool,
    pub non_increasing: bool,
}

/// What a column knows of dates and numbers.
#[derive(Debug, Clone, Copy, PartialEq, Eq)]
pub struct ColumnScan {
    /// Some cell is not missing.
    pub any_present: bool,
    /// Every cell that is not missing reads as a date.
    pub all_dates: bool,
    /// Every cell that is not missing holds a number.
    pub all_numbers: bool,
}

/// The label of a column's pattern over time.
pub open spec fn pattern_text(scan: ColumnScan, order: Order) -> Seq<char> {
    if !scan.any_present {
        "None"@
    } else if scan.all_dates {
        "Date-like"@
    } else if scan.all_numbers && order.non_decreasing && !order.non_increasing {
        "Increasing"@
    } else if scan.all_numbers && order.non_increasing && !order.non_decreasing {
        "Decreasing"@
    } else {
        "None"@
    }
}

/// What `col` knows of dates and numbers.
pub open spec fn scan_of(col: Seq<Seq<char>>) -> ColumnScan {
    ColumnScan {
        any_present: !all_missing(col),
        all_dates: all_dates(col),
        all_numbers: all_floats(col),
    }
}

/// The label for a column with the given scan, whose numbers stand in the
/// given order.
pub fn pattern_label(scan: &ColumnScan, order: Order) -> (label: String)
    ensures
        label@ == pattern_text(*scan, order),
{
    if !scan.any_present {
        String::from_str("None")
    } else if scan.all_dates {
        String::from_str("Date-like")
    } else if scan.all_numbers && order.non_decreasing && !order.non_increasing {
        String::from_str("Increasing")
    } else if scan.all_numbers && order.non_increasing && !order.non_decreasing {
        String::from_str("Decreasing")
    } else {
        String::from_str("None")
    }
}

/// How the three column facts move when one cell is added at the end.
proof fn lemma_scan_step(before: Seq<Seq<char>>, after: Seq<Seq<char>>)
    requires
        after.len() == before.len() + 1,
        after.drop_last() == before,
    ensures
        all_missing(after) == (all_missing(before) && missing_text(after.last())),
        all_dates(after) == (all_dates(before) && (missing_text(after.last()) || date_text(
            after.last(),
        ))),
        all_floats(after) == (all_floats(before) && (missing_text(after.last()) || float_text(
            after.last(),
        ))),
{
    assert forall|j: int| 0 <= j < before.len() implies #[trigger] after[j] == before[j] by {
        assert(after.drop_last()[j] == after[j]);
    }
    let last = after.len() - 1;
    assert(after[last] == after.last());
    if all_missing(before) && missing_text(after.last()) {
        assert forall|j: int| 0 <= j < after.len() implies missing_text(#[trigger] after[j]) by {
            if j < last {
                assert(after[j] == before[j]);
            }
        }
    }
    if all_dates(before) && (missing_text(after.last()) || date_text(after.last())) {
        assert forall|j: int| 0 <= j < after.len() && !missing_text(
            #[trigger] after[j],
        ) implies date_text(after[j]) by {
            if j < last {
                assert(after[j] == before[j]);
            }
        }
    }
    if all_floats(before) && (missing_text(after.last()) || float_text(after.last())) {
        assert forall|j: int| 0 <= j < after.len() && !missing_text(
            #[trigger] after[j],
        ) implies float_text(after[j]) by {
            if j < last {
                assert(after[j] == before[j]);
            }
        }
    }
    if all_missing(after) {
        assert forall|j: int| 0 <= j < before.len() implies missing_text(#[trigger] before[j]) by {
            assert(after[j] == before[j]);
        }
    }
    if all_dates(after) {
        assert forall|j: int| 0 <= j < before.len() && !missing_text(
            #[trigger] before[j],
        ) implies date_text(before[j]) by {
            assert(after[j] == before[j]);
        }
    }
    if all_floats(after) {
        assert forall|j: int| 0 <= j < before.len() && !missing_text(
            #[trigger] before[j],
        ) implies float_text(before[j]) by {
            assert(after[j] == before[j]);
        }
    }
}

/// Scans the column `col_idx` for dates and numbers.
pub fn scan_column(rows: &[Vec<String>], col_idx: usize) -> (scan: ColumnScan)
    requires
        has_column(rows.deep_view(), col_idx as int),
    ensures
        scan == scan_of(column_of(rows.deep_view(), col_idx as int)),
{
    let ghost col = column_of(rows.deep_view(), col_idx as int);
    let mut any_present = false;
    let mut dates = true;
    let mut numbers = true;
    let mut i: usize = 0;
    while i < rows.len()
        invariant
            i <= rows.len(),
            has_column(rows.deep_view(), col_idx as int),
            col == column_of(rows.deep_view(), col_idx as int),
            col.len() == rows.len(),
            any_present == !all_missing(col.take(i as int)),
            dates == all_dates(col.take(i as int)),
            numbers == all_floats(col.take(i as int)),
        decreases rows.len() - i,
    {
        assert(rows.deep_view()[i as int].len() > col_idx);
        let val = &rows[i][col_idx];
        assert(val@ == col[i as int]);
        proof {
            assert(col.take(i + 1).drop_last() =~= col.take(i as int));
            assert(col.take(i + 1).last() == col[i as int]);
            lemma_scan_step(col.take(i as int), col.take(i + 1));
        }
        let cs = chars_of(val.as_str());
        if !chars_are_missing(&cs) {
            any_present = true;
            if dates && !is_date(val.as_str()) {
                dates = false;
            }
            if numbers && !chars_are_float(&cs) {
                numbers = false;
            }
        }
        i += 1;
    }
    assert(col.take(i as int) =~= col);
    ColumnScan { any_present, all_dates: dates, all_numbers: numbers }
}

/// For each column, the label of its pattern over time: `None` for a column
/// without a cell that is not missing, `Date-like` where every such cell
/// reads as a date, and otherwise, where every such cell holds a number,
/// `Increasing` or `Decreasing` as `orders` tells of the column's numbers.
pub fn detect_temporal_patterns(dataset: &Dataset, orders: &Vec<Order>) -> (out: Result<
    Vec<String>,
    PrestoError,
>)
    requires
        dataset@.well_formed(),
        orders.len() == dataset@.headers.len(),
    ensures
        out is Ok,
        out->Ok_0.len() == dataset@.headers.len(),
        forall|c: int|
            0 <= c < dataset@.headers.len() ==> (#[trigger] out->Ok_0[c])@ == pattern_text(
                scan_of(dataset@.column(c)),
                orders[c],
            ),
{
    let rows = dataset.rows().as_slice();
    let width = dataset.headers().len();
    let mut out: Vec<String> = Vec::new();
    let mut c: usize = 0;
    while c < width
        invariant
            c <= width,
            width == dataset@.headers.len(),
            orders.len() == width,
            dataset@.well_formed(),
            rows.deep_view() == dataset@.rows,
            out.len() == c,
            forall|k: int|
                0 <= k < c ==> (#[trigger] out[k])@ == pattern_text(
                    scan_of(dataset@.column(k)),
                    orders[k],
                ),
        decreases width - c,
    {
        let scan = scan_column(rows, c);
        out.push(pattern_label(&scan, orders[c]));
        c += 1;
    }
    Ok(out)
}

/// What the numeric summary of a column shows, as far as a transformation
/// depends on it.
#[derive(Debug, Clone, Copy, PartialEq, Eq)]
pub struct ColumnShape {
    /// The column holds at least one number.
    pub numeric: bool,
    /// The skewness is known and its magnitude is above 1.
    pub skewed: bool,
    /// The least number is below 0.
    pub negative: bool,
    /// The greatest number is more than 100 above the least.
    pub wide: bool,
}

/// The transformations that a shape calls for, in their fixed order.
pub open spec fn suggested_parts(shape: ColumnShape) -> Seq<Seq<char>> {
    (if shape.skewed {
        seq!["Log transform (skewed)"@]
    } else {
        Seq::<Seq<char>>::empty()
    }) + (if shape.negative {
        seq!["Shift positive"@]
    } else {
        Seq::<Seq<char>>::empty()
    }) + (if shape.wide {
        seq!["Normalize"@]
    } else {
        Seq::<Seq<char>>::empty()
    })
}

/// The texts of `parts`, one after the other, with a comma and a blank
/// between neighbours.
pub open spec fn comma_joined(parts: Seq<Seq<char>>) -> Seq<char>
    decreases parts.len(),
{
    if parts.len() == 0 {
        Seq::<char>::empty()
    } else if parts.len() == 1 {
        parts[0]
    } else {
        comma_joined(parts.drop_last()) + ", "@ + parts.last()
    }
}

/// The suggestion for a column: `None` where it holds no number or nothing
/// is called for, else the transformations called for, joined by commas.
pub open spec fn suggestion_text(shape: ColumnShape) -> Seq<char> {
    if !shape.numeric || suggested_parts(shape).len() == 0 {
        "None"@
    } else {
        comma_joined(suggested_parts(shape))
    }
}

/// Joins texts with a comma and a blank between neighbours.
pub fn join_with_commas(parts: &Vec<&str>) -> (out: String)
    ensures
        out@ == comma_joined(parts.deep_view()),
{
    let ghost texts = parts.deep_view();
    let mut out = String::new();
    let mut k: usize = 0;
    while k < parts.len()
        invariant
            k <= parts.len(),
            texts == parts.deep_view(),
            out@ == comma_joined(texts.take(k as int)),
        decreases parts.len() - k,
    {
        assert(texts.take(k + 1).drop_last() =~= texts.take(k as int));
        assert(texts.take(k + 1).last() == parts@[k as int]@);
        if k > 0 {
            out.append(", ");
        }
        out.append(parts[k]);
        proof {
            if k == 0 {
                assert(texts.take(1)[0] == parts@[0]@);
                assert(out@ =~= parts@[0]@);
            }
        }
        k += 1;
    }
    assert(texts.take(k as int) =~= texts);
    out
}

/// The suggestion for a column of the given shape.
pub fn suggestion(shape: &ColumnShape) -> (out: String)
    ensures
        out@ == suggestion_text(*shape),
{
    if !shape.numeric {
        return String::from_str("None");
    }
    let mut parts: Vec<&str> = Vec::new();
    if shape.skewed {
        parts.push("Log transform (skewed)");
    }
    if shape.negative {
        parts.push("Shift positive");
    }
    if shape.wide {
        parts.push("Normalize");
    }
    assert(parts.deep_view() =~= suggested_parts(*shape));
    if parts.len() == 0 {
        String::from_str("None")
    } else {
        join_with_commas(&parts)
    }
}

/// For each column, the suggestion that its shape calls for.
pub fn suggest_transformations(shapes: &[ColumnShape]) -> (out: Result<Vec<String>, PrestoError>)
    ensures
        out is Ok,
        out->Ok_0.len() == shapes.len(),
        forall|c: int|
            0 <= c < shapes.len() ==> (#[trigger] out->Ok_0[c])@ == suggestion_text(shapes[c]),
{
    let mut out: Vec<String> = Vec::new();
    let mut c: usize = 0;
    while c < shapes.len()
        invariant
            c <= shapes.len(),
            out.len() == c,
            forall|k: int| 0 <= k < c ==> (#[trigger] out[k])@ == suggestion_text(shapes[k]),
        decreases shapes.len() - c,
    {
        out.push(suggestion(&shapes[c]));
        c += 1;
    }
    Ok(out)
}

/// The number of bins of a histogram.
pub const BINS: usize = 10;

/// The bin that a slot falls in: the bin of its own number, and the last bin
/// for every slot beyond it.
pub open spec fn bin_of(slot: usize) -> int {
    if slot >= BINS - 1 {
        BINS - 1
    } else {
        slot as int
    }
}

/// The test for a slot that falls in the bin `bin`.
pub open spec fn falls_in(bin: int) -> spec_fn(usize) -> bool {
    |slot: usize| bin_of(slot) == bin
}

/// The sum of the numbers of `s`.
pub open spec fn total(s: Seq<usize>) -> nat
    decreases s.len(),
{
    if s.len() == 0 {
        0
    } else {
        total(s.drop_last()) + s.last() as nat
    }
}

/// Adding one to a number of `s` adds one to the sum.
pub proof fn lemma_total_of_update(s: Seq<usize>, at: int, v: usize)
    requires
        0 <= at < s.len(),
    ensures
        total(s.update(at, v)) == total(s) - s[at] + v,
    decreases s.len(),
{
    let last = s.len() - 1;
    if at == last {
        assert(s.update(at, v).drop_last() =~= s.drop_last());
    } else {
        assert(s.update(at, v).drop_last() =~= s.drop_last().update(at, v));
        lemma_total_of_update(s.drop_last(), at, v);
    }
}

/// The histogram of a list of slots: for each of the ten bins, the number of
/// slots that fall in it. Every slot falls in one bin, so the counts add up
/// to the number of slots.
pub fn bin_counts(slots: &[usize]) -> (bins: Vec<usize>)
    ensures
        bins.len() == BINS,
        forall|b: int| 0 <= b < BINS ==> (#[trigger] bins[b]) == count_where(slots@, falls_in(b)),
        total(bins@) == slots.len(),
{
    let mut bins: Vec<usize> = Vec::new();
    let mut b: usize = 0;
    while b < BINS
        invariant
            b <= BINS,
            bins.len() == b,
            forall|k: int| 0 <= k < b ==> (#[trigger] bins[k]) == 0,
            total(bins@) == 0,
        decreases BINS - b,
    {
        assert(bins@.push(0).drop_last() =~= bins@);
        bins.push(0);
        b += 1;
    }
    let mut i: usize = 0;
    while i < slots.len()
        invariant
            i <= slots.len(),
            bins.len() == BINS,
            forall|k: int|
                0 <= k < BINS ==> (#[trigger] bins[k]) == count_where(
                    slots@.take(i as int),
                    falls_in(k),
                ),
            total(bins@) == i,
        decreases slots.len() - i,
    {
        let slot = slots[i];
        let bin: usize = if slot >= BINS - 1 {
            BINS - 1
        } else {
            slot
        };
        proof {
            assert forall|k: int| 0 <= k < BINS implies count_where(
                slots@.take(i + 1),
                falls_in(k),
            ) == (#[trigger] bins[k]) + if k == bin {
                1nat
            } else {
                0nat
            } by {
                lemma_count_step(slots@, falls_in(k), i as int);
            }
            lemma_count_bounded(slots@.take(i as int), falls_in(bin as int));
            lemma_total_of_update(bins@, bin as int, (bins[bin as int] + 1) as usize);
        }
        let bumped: usize = bins[bin] + 1;
        bins.set(bin, bumped);
        i += 1;
    }
    assert(slots@.take(i as int) =~= slots@);
    bins
}

} // verus!
