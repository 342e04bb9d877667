//! The profile of a dataset: every exact measure of its columns and rows,
//! gathered in one record.

use vstd::prelude::*;
use crate::cleaning::{
    detect_duplicates, detect_redundancy, is_redundancy_list, lemma_redundancy_list_unique,
    Similarity,
};
use crate::counting::distinct_count;
use crate::dataset::{Dataset, PrestoError, Table};
use crate::frequency::{is_top_list, lemma_top_list_unique, listed, top_values, TOP_VALUES};
use crate::stats::{
    compute_cardinality, count_missing, lemma_cells_partition, missing_count, numeric_count,
    numeric_rows, other_count,
};
use crate::types::{infer_type, inferred_type, TypeInference};

verus! {

/// The profile of a dataset.
#[derive(Debug)]
pub struct Description {
    missing: Vec<usize>,
    numeric: Vec<usize>,
    duplicates: usize,
    types: Vec<TypeInference>,
    cardinality: Vec<usize>,
    redundancy_pairs: Vec<(usize, usize, Similarity)>,
    total_rows: usize,
    top_values: Vec<(String, Vec<(String, usize)>)>,
}

/// What a profile says, as plain values.
pub struct Profile {
    /// For each column, the number of missing cells.
    pub missing: Seq<usize>,
    /// For each column, the number of cells that hold a number.
    pub numeric: Seq<usize>,
    /// The number of rows that repeat another row.
    pub duplicates: usize,
    /// For each column, its kind.
    pub types: Seq<TypeInference>,
    /// For each column, the number of different texts.
    pub cardinality: Seq<usize>,
    /// The pairs of columns of which the second repeats the first.
    pub redundancy_pairs: Seq<(usize, usize, Similarity)>,
    /// The number of rows.
    pub total_rows: usize,
    /// For each column, its header and its most frequent texts.
    pub top_values: Seq<(Seq<char>, Seq<(Seq<char>, nat)>)>,
}

/// The headers and lists of top values, as plain values.
pub open spec fn top_lists(v: Seq<(String, Vec<(String, usize)>)>) -> Seq<
    (Seq<char>, Seq<(Seq<char>, nat)>),
> {
    Seq::new(v.len(), |c: int| (v[c].0@, listed(v[c].1@)))
}

impl View for Description {
    type V = Profile;

    closed spec fn view(&self) -> Profile {
        Profile {
            missing: self.missing@,
            numeric: self.numeric@,
            duplicates: self.duplicates,
            types: self.types@,
            cardinality: self.cardinality@,
            redundancy_pairs: self.redundancy_pairs@,
            total_rows: self.total_rows,
            top_values: top_lists(self.top_values@),
        }
    }
}

impl Profile {
    /// The profile is that of the table `t`: every list has one entry per
    /// column, in the order of the columns, and every entry is the measure it
    /// is named after.
    pub open spec fn describes(self, t: Table) -> bool {
        let width = t.headers.len();
        &&& self.total_rows == t.rows.len()
        &&& self.duplicates == t.rows.len() - distinct_count(t.rows)
        &&& self.missing.len() == width
        &&& self.numeric.len() == width
        &&& self.types.len() == width
        &&& self.cardinality.len() == width
        &&& self.top_values.len() == width
        &&& forall|c: int|
            0 <= c < width ==> {
                &&& (#[trigger] self.missing[c]) == missing_count(t.column(c))
                &&& self.numeric[c] == numeric_count(t.column(c))
                &&& self.types[c] == inferred_type(t.column(c))
                &&& self.cardinality[c] == distinct_count(t.column(c))
                &&& self.top_values[c].0 == t.headers[c]
                &&& is_top_list(t.column(c), self.top_values[c].1, TOP_VALUES as nat)
            }
        &&& is_redundancy_list(t, self.redundancy_pairs)
    }
}

/// The cells of every column fall into three classes: the number of
/// missing cells, the number of cells that hold a number and the number of
/// cells that hold another text add up to the number of rows.
pub proof fn lemma_profile_counts_add_up(p: Profile, t: Table, c: int)
    requires
        p.describes(t),
        0 <= c < t.headers.len(),
    ensures
        p.missing[c] + p.numeric[c] + other_count(t.column(c)) == p.total_rows,
{
    assert(p.missing[c] == missing_count(t.column(c)));
    lemma_cells_partition(t.column(c));
}

/// A table has one profile: whatever describes the same table says the same.
pub proof fn lemma_profile_is_determined(t: Table, a: Profile, b: Profile)
    requires
        a.describes(t),
        b.describes(t),
    ensures
        a == b,
{
    let width = t.headers.len() as int;
    assert forall|c: int| 0 <= c < width implies a.missing[c] == b.missing[c] && a.numeric[c]
        == b.numeric[c] && a.types[c] == b.types[c] && a.cardinality[c] == b.cardinality[c]
        && a.top_values[c] == b.top_values[c] by {
        assert(a.missing[c] == missing_count(t.column(c)));
        assert(b.missing[c] == missing_count(t.column(c)));
        lemma_top_list_unique(
            t.column(c),
            a.top_values[c].1,
            b.top_values[c].1,
            TOP_VALUES as nat,
        );
    }
    lemma_redundancy_list_unique(t, a.redundancy_pairs, b.redundancy_pairs);
    assert(a.missing =~= b.missing);
    assert(a.numeric =~= b.numeric);
    assert(a.types =~= b.types);
    assert(a.cardinality =~= b.cardinality);
    assert(a.top_values =~= b.top_values);
}

impl Description {
    /// A profile that holds the given measures.
    pub fn new(
        missing: Vec<usize>,
        numeric: Vec<usize>,
        duplicates: usize,
        types: Vec<TypeInference>,
        cardinality: Vec<usize>,
        redundancy_pairs: Vec<(usize, usize, Similarity)>,
        total_rows: usize,
        top_values: Vec<(String, Vec<(String, usize)>)>,
    ) -> (out: Self)
        ensures
            out@ == (Profile {
                missing: missing@,
                numeric: numeric@,
                duplicates,
                types: types@,
                cardinality: cardinality@,
                redundancy_pairs: redundancy_pairs@,
                total_rows,
                top_values: top_lists(top_values@),
            }),
    {
        Description {
            missing,
            numeric,
            duplicates,
            types,
            cardinality,
            redundancy_pairs,
            total_rows,
            top_values,
        }
    }

    /// For each column, the number of missing cells.
    pub fn missing(&self) -> (out: &Vec<usize>)
        ensures
            out@ == self@.missing,
    {
        &self.missing
    }

    /// For each column, the number of cells that hold a number.
    pub fn numeric(&self) -> (out: &Vec<usize>)
        ensures
            out@ == self@.numeric,
    {
        &self.numeric
    }

    /// The number of rows that repeat another row.
    pub fn duplicates(&self) -> (out: usize)
        ensures
            out == self@.duplicates,
    {
        self.duplicates
    }

    /// For each column, its kind.
    pub fn types(&self) -> (out: &Vec<TypeInference>)
        ensures
            out@ == self@.types,
    {
        &self.types
    }

    /// For each column, the number of different texts.
    pub fn cardinality(&self) -> (out: &Vec<usize>)
        ensures
            out@ == self@.cardinality,
    {
        &self.cardinality
    }

    /// The pairs of columns of which the second repeats the first.
    pub fn redundancy_pairs(&self) -> (out: &Vec<(usize, usize, Similarity)>)
        ensures
            out@ == self@.redundancy_pairs,
    {
        &self.redundancy_pairs
    }

    /// The number of rows.
    pub fn total_rows(&self) -> (out: usize)
        ensures
            out == self@.total_rows,
    {
        self.total_rows
    }

    /// For each column, its header and its most frequent texts.
    pub fn top_values(&self) -> (out: &Vec<(String, Vec<(String, usize)>)>)
        ensures
            top_lists(out@) == self@.top_values,
    {
        &self.top_values
    }
}

/// For each column, the number of missing cells.
fn missing_by_column(dataset: &Dataset) -> (out: Vec<usize>)
    requires
        dataset@.well_formed(),
    ensures
        out.len() == dataset@.headers.len(),
        forall|c: int|
            0 <= c < out.len() ==> (#[trigger] out[c]) == missing_count(dataset@.column(c)),
{
    let rows = dataset.rows().as_slice();
    let width = dataset.headers().len();
    let mut out: Vec<usize> = Vec::new();
    let mut c: usize = 0;
    while c < width
        invariant
            c <= width,
            width == dataset@.headers.len(),
            dataset@.well_formed(),
            rows.deep_view() == dataset@.rows,
            out.len() == c,
            forall|k: int| 0 <= k < c ==> (#[trigger] out[k]) == missing_count(dataset@.column(k)),
        decreases width - c,
    {
        out.push(count_missing(rows, c));
        c += 1;
    }
    out
}

/// For each column, the number of cells that hold a number.
fn numeric_by_column(dataset: &Dataset) -> (out: Vec<usize>)
    requires
        dataset@.well_formed(),
    ensures
        out.len() == dataset@.headers.len(),
        forall|c: int|
            0 <= c < out.len() ==> (#[trigger] out[c]) == numeric_count(dataset@.column(c)),
{
    let rows = dataset.rows().as_slice();
    let width = dataset.headers().len();
    let mut out: Vec<usize> = Vec::new();
    let mut c: usize = 0;
    while c < width
        invariant
            c <= width,
            width == dataset@.headers.len(),
            dataset@.well_formed(),
            rows.deep_view() == dataset@.rows,
            out.len() == c,
            forall|k: int| 0 <= k < c ==> (#[trigger] out[k]) == numeric_count(dataset@.column(k)),
        decreases width - c,
    {
        out.push(numeric_rows(rows, c).len());
        c += 1;
    }
    out
}

/// For each column, its kind.
fn types_by_column(dataset: &Dataset) -> (out: Vec<TypeInference>)
    requires
        dataset@.well_formed(),
    ensures
        out.len() == dataset@.headers.len(),
        forall|c: int|
            0 <= c < out.len() ==> (#[trigger] out[c]) == inferred_type(dataset@.column(c)),
{
    let rows = dataset.rows().as_slice();
    let width = dataset.headers().len();
    let mut out: Vec<TypeInference> = Vec::new();
    let mut c: usize = 0;
    while c < width
        invariant
            c <= width,
            width == dataset@.headers.len(),
            dataset@.well_formed(),
            rows.deep_view() == dataset@.rows,
            out.len() == c,
            forall|k: int| 0 <= k < c ==> (#[trigger] out[k]) == inferred_type(dataset@.column(k)),
        decreases width - c,
    {
        out.push(infer_type(rows, c));
        c += 1;
    }
    out
}

/// For each column, its header and the list of its top values.
fn top_values_by_column(dataset: &Dataset) -> (out: Vec<(String, Vec<(String, usize)>)>)
    requires
        dataset@.well_formed(),
    ensures
        out.len() == dataset@.headers.len(),
        forall|c: int|
            0 <= c < out.len() ==> {
                &&& (#[trigger] top_lists(out@)[c]).0 == dataset@.headers[c]
                &&& is_top_list(dataset@.column(c), top_lists(out@)[c].1, TOP_VALUES as nat)
            },
{
    let rows = dataset.rows().as_slice();
    let headers = dataset.headers();
    let width = headers.len();
    let mut out: Vec<(String, Vec<(String, usize)>)> = Vec::new();
    let mut c: usize = 0;
    while c < width
        invariant
            c <= width,
            width == dataset@.headers.len(),
            dataset@.well_formed(),
            rows.deep_view() == dataset@.rows,
            headers.deep_view() == dataset@.headers,
            out.len() == c,
            forall|k: int|
                0 <= k < c ==> {
                    &&& (#[trigger] out@[k]).0@ == dataset@.headers[k]
                    &&& is_top_list(dataset@.column(k), listed(out@[k].1@), TOP_VALUES as nat)
                },
        decreases width - c,
    {
        assert(headers.deep_view()[c as int] == headers@[c as int]@);
        let header = headers[c].clone();
        let list = top_values(rows, c);
        out.push((header, list));
        c += 1;
    }
    proof {
        assert forall|k: int| 0 <= k < width implies {
            &&& (#[trigger] top_lists(out@)[k]).0 == dataset@.headers[k]
            &&& is_top_list(dataset@.column(k), top_lists(out@)[k].1, TOP_VALUES as nat)
        } by {
            assert(top_lists(out@)[k] == (out@[k].0@, listed(out@[k].1@)));
        }
    }
    out
}

/// Profiles a dataset. A dataset without rows has no profile.
pub fn describe(dataset: &Dataset) -> (out: Result<Description, PrestoError>)
    requires
        dataset@.well_formed(),
    ensures
        dataset@.rows.len() == 0 ==> out is Err && out->Err_0 is EmptyDataset,
        dataset@.rows.len() > 0 ==> out is Ok && out->Ok_0@.describes(dataset@),
{
    let rows = dataset.rows().as_slice();
    if rows.len() == 0 {
        return Err(PrestoError::EmptyDataset);
    }
    let missing = missing_by_column(dataset);
    let numeric = numeric_by_column(dataset);
    let duplicates = detect_duplicates(rows);
    let types = types_by_column(dataset);
    let cardinality = match compute_cardinality(dataset) {
        Ok(v) => v,
        Err(e) => {
            return Err(e);
        },
    };
    let redundancy_pairs = match detect_redundancy(dataset) {
        Ok(v) => v,
        Err(e) => {
            return Err(e);
        },
    };
    let total_rows = rows.len();
    let top = top_values_by_column(dataset);
    Ok(
        Description::new(
            missing,
            numeric,
            duplicates,
            types,
            cardinality,
            redundancy_pairs,
            total_rows,
            top,
        ),
    )
}

} // verus!
