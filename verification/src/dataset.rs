//! The table that is profiled: named columns over rows of text cells.

use vstd::prelude::*;

verus! {

/// Why a profiling request fails.
#[derive(Debug)]
pub enum PrestoError {
    /// The dataset holds no row.
    EmptyDataset,
    /// A source could not be read as a table; the text says why.
    InvalidNumeric(String),
}

impl PrestoError {
    /// The text that names the failure to a user.
    pub fn message(&self) -> (out: String)
        ensures
            out@ == match *self {
                PrestoError::EmptyDataset => "Empty dataset provided"@,
                PrestoError::InvalidNumeric(detail) => "Invalid numeric data: "@ + detail@,
            },
    {
        match self {
            PrestoError::EmptyDataset => String::from_str("Empty dataset provided"),
            PrestoError::InvalidNumeric(detail) => {
                String::from_str("Invalid numeric data: ").concat(detail.as_str())
            },
        }
    }
}

/// The mathematical content of a dataset: the header texts and the cell texts
/// row by row.
pub struct Table {
    pub headers: Seq<Seq<char>>,
    pub rows: Seq<Seq<Seq<char>>>,
}

/// Every row of `rows` has exactly `width` cells.
pub open spec fn rectangular(rows: Seq<Seq<Seq<char>>>, width: int) -> bool {
    forall|i: int| 0 <= i < rows.len() ==> (#[trigger] rows[i]).len() == width
}

/// Every row of `rows` has a cell at position `col`.
pub open spec fn has_column(rows: Seq<Seq<Seq<char>>>, col: int) -> bool {
    forall|i: int| 0 <= i < rows.len() ==> 0 <= col < (#[trigger] rows[i]).len()
}

/// The cells at position `col`, one per row, top to bottom.
pub open spec fn column_of(rows: Seq<Seq<Seq<char>>>, col: int) -> Seq<Seq<char>> {
    Seq::new(rows.len(), |i: int| rows[i][col])
}

impl Table {
    /// Every row has one cell per header.
    pub open spec fn well_formed(self) -> bool {
        rectangular(self.rows, self.headers.len() as int)
    }

    /// The cells of column `col`, top to bottom.
    pub open spec fn column(self, col: int) -> Seq<Seq<char>> {
        column_of(self.rows, col)
    }
}

/// A parsed table. The order of the headers is the order of the columns.
#[derive(Debug, Clone)]
pub struct Dataset {
    headers: Vec<String>,
    rows: Vec<Vec<String>>,
}

impl View for Dataset {
    type V = Table;

    closed spec fn view(&self) -> Table {
        Table { headers: self.headers.deep_view(), rows: self.rows.deep_view() }
    }
}

impl Dataset {
    /// A dataset with the given headers and rows.
    pub fn new(headers: Vec<String>, rows: Vec<Vec<String>>) -> (out: Self)
        ensures
            out@.headers == headers.deep_view(),
            out@.rows == rows.deep_view(),
    {
        Dataset { headers, rows }
    }

    /// The headers, in the order of the columns.
    pub fn headers(&self) -> (out: &Vec<String>)
        ensures
            out.deep_view() == self@.headers,
    {
        &self.headers
    }

    /// The rows, top to bottom.
    pub fn rows(&self) -> (out: &Vec<Vec<String>>)
        ensures
            out.deep_view() == self@.rows,
    {
        &self.rows
    }

    /// Tells whether every row has one cell per header, which the profiling
    /// functions ask of a dataset.
    pub fn is_well_formed(&self) -> (r: bool)
        ensures
            r == self@.well_formed(),
    {
        let width = self.headers.len();
        let mut i: usize = 0;
        while i < self.rows.len()
            invariant
                i <= self.rows.len(),
                width == self.headers.len(),
                forall|j: int| 0 <= j < i ==> (#[trigger] self.rows@[j]).len() == width,
            decreases self.rows.len() - i,
        {
            if self.rows[i].len() != width {
                assert(self@.rows[i as int].len() != width);
                return false;
            }
            i += 1;
        }
        assert forall|j: int| 0 <= j < self@.rows.len() implies (#[trigger] self@.rows[j]).len()
            == self@.headers.len() by {
            assert(self.rows@[j].len() == width);
        }
        true
    }
}

} // verus!
