//! Quality checks: repeated rows, columns that say the same, and counts that
//! should not be negative.

use std::collections::HashMap;
use vstd::prelude::*;
use crate::counting::{
    count_where, distinct_count, lemma_count_alike, lemma_count_step, lemma_distinct_bounded,
    lemma_distinct_step,
};
use crate::dataset::{column_of, has_column, Dataset, PrestoError, Table};
use crate::text::{
    chars_of, contains_chars, has_infix, is_missing, lowercase_of, missing_text, lowercase,
};

verus! {

/// Tells whether two rows hold the same texts, cell by cell.
pub fn same_row(a: &Vec<String>, b: &Vec<String>) -> (r: bool)
    ensures
        r == (a.deep_view() == b.deep_view()),
{
    if a.len() != b.len() {
        assert(a.deep_view().len() != b.deep_view().len());
        return false;
    }
    let mut k: usize = 0;
    while k < a.len()
        invariant
            k <= a.len(),
            a.len() == b.len(),
            forall|j: int| 0 <= j < k ==> a@[j]@ == b@[j]@,
        decreases a.len() - k,
    {
        if a[k] != b[k] {
            assert(a.deep_view()[k as int] != b.deep_view()[k as int]);
            return false;
        }
        k += 1;
    }
    assert(a.deep_view() =~= b.deep_view());
    true
}

/// One step of the hash of a row: the hash so far, scrambled, plus the code
/// of the next character.
spec fn mix_char(h: u64, c: char) -> u64 {
    h.wrapping_mul(1099511628211).wrapping_add(c as u64)
}

/// The hash after the characters of a text.
spec fn mix_text(h: u64, s: Seq<char>) -> u64
    decreases s.len(),
{
    if s.len() == 0 {
        h
    } else {
        mix_char(mix_text(h, s.drop_last()), s.last())
    }
}

/// The hash after the cells of a row, each closed by a mark of its end.
spec fn mix_row(h: u64, row: Seq<Seq<char>>) -> u64
    decreases row.len(),
{
    if row.len() == 0 {
        h
    } else {
        mix_char(mix_text(mix_row(h, row.drop_last()), row.last()), '\u{1f}')
    }
}

/// A number that rows of the same content share. Rows are looked up by it,
/// and compared cell by cell only with the rows that share it.
spec fn row_hash(row: Seq<Seq<char>>) -> u64 {
    mix_row(14695981039346656037, row)
}

/// One step of the hash of a row.
fn hash_char(h: u64, c: char) -> (out: u64)
    ensures
        out == mix_char(h, c),
{
    h.wrapping_mul(1099511628211).wrapping_add(c as u64)
}

/// The hash after the characters of a text.
fn hash_text(h: u64, s: &str) -> (out: u64)
    ensures
        out == mix_text(h, s@),
{
    let mut out = h;
    for c in it: s.chars()
        invariant
            it.seq() == s@,
            out == mix_text(h, it.seq().take(it.index() as int)),
    {
        assert(s@.take(it.index() + 1).drop_last() =~= s@.take(it.index() as int));
        out = hash_char(out, c);
    }
    assert(s@.take(s@.len() as int) =~= s@);
    out
}

/// The hash of a row.
fn hash_row(row: &Vec<String>) -> (out: u64)
    ensures
        out == row_hash(row.deep_view()),
{
    let ghost cells = row.deep_view();
    let mut out: u64 = 14695981039346656037;
    let mut k: usize = 0;
    while k < row.len()
        invariant
            k <= row.len(),
            cells == row.deep_view(),
            out == mix_row(14695981039346656037, cells.take(k as int)),
        decreases row.len() - k,
    {
        assert(cells.take(k + 1).drop_last() =~= cells.take(k as int));
        assert(cells.take(k + 1).last() == row@[k as int]@);
        out = hash_text(out, row[k].as_str());
        out = hash_char(out, '\u{1f}');
        k += 1;
    }
    assert(cells.take(k as int) =~= cells);
    out
}

/// The rows set aside so far, one of each content, found by their hash:
/// every row listed stands above row `n` under its own hash, and every row
/// above row `n` has a row of its content listed.
#[verifier::opaque]
spec fn shelves(grid: Seq<Seq<Seq<char>>>, buckets: Map<u64, Vec<usize>>, n: int) -> bool {
    &&& forall|h: u64, k: int|
        buckets.contains_key(h) && 0 <= k < buckets[h].len() ==> (#[trigger] buckets[h][k]) < n
            && row_hash(grid[buckets[h][k] as int]) == h
    &&& forall|j: int| 0 <= j < n ==> #[trigger] shelved(grid, buckets, j)
}

/// A row of the content of row `j` is listed on the shelf of its hash.
spec fn shelved(grid: Seq<Seq<Seq<char>>>, buckets: Map<u64, Vec<usize>>, j: int) -> bool {
    let h = row_hash(grid[j]);
    buckets.contains_key(h) && exists|k: int|
        0 <= k < buckets[h].len() && grid[(#[trigger] buckets[h][k]) as int] == grid[j]
}

/// Tells whether one of the rows listed in `bucket` has the content of row
/// `i`.
fn bucket_holds(rows: &[Vec<String>], bucket: &Vec<usize>, i: usize) -> (r: bool)
    requires
        i < rows.len(),
        forall|k: int| 0 <= k < bucket.len() ==> (#[trigger] bucket[k]) < rows.len(),
    ensures
        r == exists|k: int|
            0 <= k < bucket.len() && rows.deep_view()[(#[trigger] bucket[k]) as int]
                == rows.deep_view()[i as int],
{
    let ghost grid = rows.deep_view();
    let mut k: usize = 0;
    while k < bucket.len()
        invariant
            k <= bucket.len(),
            i < rows.len(),
            grid == rows.deep_view(),
            forall|m: int| 0 <= m < bucket.len() ==> (#[trigger] bucket[m]) < rows.len(),
            forall|m: int| 0 <= m < k ==> grid[(#[trigger] bucket[m]) as int] != grid[i as int],
        decreases bucket.len() - k,
    {
        if same_row(&rows[bucket[k]], &rows[i]) {
            return true;
        }
        k += 1;
    }
    false
}

/// Tells whether a row of the content of row `i` is on the shelves.
fn on_shelves(rows: &[Vec<String>], buckets: &HashMap<u64, Vec<usize>>, h: u64, i: usize) -> (r:
    bool)
    requires
        i < rows.len(),
        h == row_hash(rows.deep_view()[i as int]),
        shelves(rows.deep_view(), buckets@, i as int),
    ensures
        r == rows.deep_view().take(i as int).contains(rows.deep_view()[i as int]),
{
    broadcast use vstd::std_specs::hash::group_hash_axioms;

    proof {
        lemma_shelf_lookup(rows.deep_view(), buckets@, i as int);
        reveal(shelves);
    }
    match buckets.get(&h) {
        Some(bucket) => bucket_holds(rows, bucket, i),
        None => false,
    }
}

/// Puts row `i`, which repeats no row above it, on the shelf of its hash.
fn shelve(rows: &[Vec<String>], buckets: &mut HashMap<u64, Vec<usize>>, h: u64, i: usize)
    requires
        i < rows.len(),
        h == row_hash(rows.deep_view()[i as int]),
        shelves(rows.deep_view(), old(buckets)@, i as int),
        !rows.deep_view().take(i as int).contains(rows.deep_view()[i as int]),
    ensures
        shelves(rows.deep_view(), final(buckets)@, i + 1),
{
    broadcast use vstd::std_specs::hash::group_hash_axioms;

    let ghost before = buckets@;
    let mut bucket = match buckets.remove(&h) {
        Some(b) => b,
        None => Vec::new(),
    };
    let ghost old_bucket = bucket@;
    bucket.push(i);
    buckets.insert(h, bucket);
    proof {
        assert(buckets@.dom() =~= before.dom().insert(h));
        lemma_shelves_add(rows.deep_view(), before, buckets@, old_bucket, i as int);
    }
}

/// How many rows are left once one row of each content is set aside: the
/// number of rows less the number of different rows.
pub fn detect_duplicates(rows: &[Vec<String>]) -> (count: usize)
    ensures
        count == rows.len() - distinct_count(rows.deep_view()),
{
    let ghost grid = rows.deep_view();
    let mut buckets: HashMap<u64, Vec<usize>> = HashMap::new();
    let mut count: usize = 0;
    let mut i: usize = 0;
    proof {
        lemma_distinct_bounded(grid.take(0));
        reveal(shelves);
    }
    while i < rows.len()
        invariant
            i <= rows.len(),
            grid == rows.deep_view(),
            shelves(grid, buckets@, i as int),
            count == i - distinct_count(grid.take(i as int)),
            distinct_count(grid.take(i as int)) <= i,
        decreases rows.len() - i,
    {
        proof {
            lemma_distinct_step(grid, i as int);
            lemma_distinct_bounded(grid.take(i + 1));
        }
        let h = hash_row(&rows[i]);
        if on_shelves(rows, &buckets, h, i) {
            count += 1;
            proof {
                lemma_shelves_keep(grid, buckets@, i as int);
            }
        } else {
            shelve(rows, &mut buckets, h, i);
        }
        i += 1;
    }
    assert(grid.take(i as int) =~= grid);
    count
}

/// A row repeats a row above it exactly when the shelf of its hash lists a
/// row of its content.
proof fn lemma_shelf_lookup(grid: Seq<Seq<Seq<char>>>, buckets: Map<u64, Vec<usize>>, n: int)
    requires
        0 <= n < grid.len(),
        shelves(grid, buckets, n),
    ensures
        grid.take(n).contains(grid[n]) <==> (buckets.contains_key(row_hash(grid[n])) && exists|
            k: int,
        |
            0 <= k < buckets[row_hash(grid[n])].len() && grid[(
            #[trigger] buckets[row_hash(grid[n])][k]) as int] == grid[n]),
{
    reveal(shelves);
    let h = row_hash(grid[n]);
    if grid.take(n).contains(grid[n]) {
        let j = choose|j: int| 0 <= j < grid.take(n).len() && grid.take(n)[j] == grid[n];
        assert(grid[j] == grid[n]);
        assert(shelved(grid, buckets, j));
    }
    if buckets.contains_key(h) && exists|k: int|
        0 <= k < buckets[h].len() && grid[(#[trigger] buckets[h][k]) as int] == grid[n] {
        let k = choose|k: int|
            0 <= k < buckets[h].len() && grid[(#[trigger] buckets[h][k]) as int] == grid[n];
        let at = buckets[h][k] as int;
        assert(at < n);
        assert(grid.take(n)[at] == grid[n]);
    }
}

/// The shelves need no new row for a row that repeats one above it.
proof fn lemma_shelves_keep(grid: Seq<Seq<Seq<char>>>, buckets: Map<u64, Vec<usize>>, n: int)
    requires
        0 <= n < grid.len(),
        shelves(grid, buckets, n),
        grid.take(n).contains(grid[n]),
    ensures
        shelves(grid, buckets, n + 1),
{
    reveal(shelves);
    lemma_shelf_lookup(grid, buckets, n);
    assert forall|j: int| 0 <= j < n + 1 implies #[trigger] shelved(grid, buckets, j) by {
        if j == n {
            let i = choose|i: int| 0 <= i < grid.take(n).len() && grid.take(n)[i] == grid[n];
            assert(grid[i] == grid[n]);
            assert(shelved(grid, buckets, i));
        }
    }
}

/// A row that repeats none above it goes on the shelf of its hash.
proof fn lemma_shelves_add(
    grid: Seq<Seq<Seq<char>>>,
    before: Map<u64, Vec<usize>>,
    after: Map<u64, Vec<usize>>,
    old_bucket: Seq<usize>,
    n: int,
)
    requires
        0 <= n < grid.len(),
        n <= usize::MAX,
        shelves(grid, before, n),
        old_bucket == if before.contains_key(row_hash(grid[n])) {
            before[row_hash(grid[n])]@
        } else {
            Seq::<usize>::empty()
        },
        after.dom() == before.dom().insert(row_hash(grid[n])),
        after[row_hash(grid[n])]@ == old_bucket.push(n as usize),
        forall|h: u64| h != row_hash(grid[n]) && before.contains_key(h) ==> after[h] == before[h],
    ensures
        shelves(grid, after, n + 1),
{
    reveal(shelves);
    let hn = row_hash(grid[n]);
    assert forall|h: u64, k: int| after.contains_key(h) && 0 <= k < after[h].len() implies (
    #[trigger] after[h][k]) < n + 1 && row_hash(grid[after[h][k] as int]) == h by {
        if h == hn {
            if k < old_bucket.len() {
                assert(after[h][k] == before[h][k]);
            }
        } else {
            assert(before.contains_key(h));
            assert(after[h][k] == before[h][k]);
        }
    }
    assert forall|j: int| 0 <= j < n + 1 implies #[trigger] shelved(grid, after, j) by {
        let h = row_hash(grid[j]);
        if j < n {
            assert(shelved(grid, before, j));
            let k = choose|k: int|
                0 <= k < before[h].len() && grid[(#[trigger] before[h][k]) as int] == grid[j];
            assert(after[h][k] == before[h][k]);
        } else {
            assert(after[h][old_bucket.len() as int] == n as usize);
        }
    }
}

/// How far one column says what another says: of the `valid` rows in which
/// the first column has a cell that is not missing, `matches` rows hold the
/// very same text in the second. The similarity is the quotient of the two,
/// and 0 where `valid` is 0.
#[derive(Debug, Clone, Copy, PartialEq, Eq)]
pub struct Similarity {
    pub matches: usize,
    pub valid: usize,
}

/// The test for a cell that is not missing.
pub open spec fn is_present_cell() -> spec_fn(Seq<char>) -> bool {
    |s: Seq<char>| !missing_text(s)
}

/// The test for two cells that hold the same text, and not the mark of a
/// missing cell.
pub open spec fn is_agreeing_pair() -> spec_fn((Seq<char>, Seq<char>)) -> bool {
    |p: (Seq<char>, Seq<char>)| p.0 == p.1 && !missing_text(p.0)
}

/// The cells of two columns side by side.
pub open spec fn side_by_side(a: Seq<Seq<char>>, b: Seq<Seq<char>>) -> Seq<
    (Seq<char>, Seq<char>),
> {
    Seq::new(a.len(), |i: int| (a[i], b[i]))
}

/// How many cells of `col` are not missing.
pub open spec fn present_count(col: Seq<Seq<char>>) -> nat {
    count_where(col, is_present_cell())
}

/// In how many rows `a` and `b` hold the same text and `a` is not missing.
pub open spec fn agree_count(a: Seq<Seq<char>>, b: Seq<Seq<char>>) -> nat {
    count_where(side_by_side(a, b), is_agreeing_pair())
}

/// Column `j` repeats column `i`: the similarity of `i` to `j` is above nine
/// tenths. The quotient is compared exactly, as `10 * matches > 9 * valid`.
pub open spec fn redundant(rows: Seq<Seq<Seq<char>>>, i: int, j: int) -> bool {
    10 * agree_count(column_of(rows, i), column_of(rows, j)) > 9 * present_count(
        column_of(rows, i),
    )
}

/// A column that holds, in every row in which another column is not
/// missing, the text of that other column has similarity 1 to it: every
/// valid row matches. The pair is then redundant as soon as the other column
/// has a cell that is not missing.
pub proof fn lemma_repeated_column_is_redundant(rows: Seq<Seq<Seq<char>>>, i: int, j: int)
    requires
        forall|r: int|
            0 <= r < rows.len() && !missing_text((#[trigger] rows[r])[i]) ==> rows[r][j]
                == rows[r][i],
    ensures
        agree_count(column_of(rows, i), column_of(rows, j)) == present_count(column_of(rows, i)),
        present_count(column_of(rows, i)) > 0 ==> redundant(rows, i, j),
{
    let a = column_of(rows, i);
    let b = column_of(rows, j);
    let pairs = side_by_side(a, b);
    assert forall|r: int| 0 <= r < pairs.len() implies is_agreeing_pair()(#[trigger] pairs[r])
        == is_present_cell()(a[r]) by {
        assert(a[r] == rows[r][i]);
        assert(b[r] == rows[r][j]);
    }
    lemma_count_alike(pairs, is_agreeing_pair(), a, is_present_cell());
}

/// `(a, b)` comes before `(c, d)` when pairs are read row by row.
pub open spec fn pair_before(a: int, b: int, c: int, d: int) -> bool {
    a < c || (a == c && b < d)
}

/// `pairs` lists, in the order of the pairs, every pair of columns of `t` of
/// which the second repeats the first, each with its similarity.
pub open spec fn is_redundancy_list(t: Table, pairs: Seq<(usize, usize, Similarity)>) -> bool {
    &&& forall|k: int|
        0 <= k < pairs.len() ==> {
            let (i, j, s) = #[trigger] pairs[k];
            &&& i < j < t.headers.len()
            &&& redundant(t.rows, i as int, j as int)
            &&& s.matches == agree_count(t.column(i as int), t.column(j as int))
            &&& s.valid == present_count(t.column(i as int))
        }
    &&& forall|k: int, l: int|
        0 <= k < l < pairs.len() ==> pair_before(
            (#[trigger] pairs[k]).0 as int,
            pairs[k].1 as int,
            (#[trigger] pairs[l]).0 as int,
            pairs[l].1 as int,
        )
    &&& forall|i: int, j: int|
        0 <= i < j < t.headers.len() && #[trigger] redundant(t.rows, i, j) ==> exists|k: int|
            0 <= k < pairs.len() && (#[trigger] pairs[k]).0 == i && pairs[k].1 == j
}

/// Two columns of which the second holds, in every row in which the first
/// is not missing, the text of the first are listed as a redundant pair with
/// similarity 1, provided that the first has a cell that is not missing.
pub proof fn lemma_repeated_column_is_listed(
    t: Table,
    pairs: Seq<(usize, usize, Similarity)>,
    i: int,
    j: int,
)
    requires
        is_redundancy_list(t, pairs),
        0 <= i < j < t.headers.len(),
        forall|r: int|
            0 <= r < t.rows.len() && !missing_text((#[trigger] t.rows[r])[i]) ==> t.rows[r][j]
                == t.rows[r][i],
        present_count(t.column(i)) > 0,
    ensures
        exists|k: int|
            0 <= k < pairs.len() && (#[trigger] pairs[k]).0 == i && pairs[k].1 == j
                && pairs[k].2.matches == pairs[k].2.valid,
{
    lemma_repeated_column_is_redundant(t.rows, i, j);
    assert(redundant(t.rows, i, j));
    let k = choose|k: int| 0 <= k < pairs.len() && (#[trigger] pairs[k]).0 == i && pairs[k].1 == j;
    assert(pairs[k].2.matches == agree_count(t.column(i), t.column(j)));
}

/// Two lists of the redundant pairs of one table agree on their first `k`
/// entries.
proof fn lemma_redundancy_lists_agree_upto(
    t: Table,
    a: Seq<(usize, usize, Similarity)>,
    b: Seq<(usize, usize, Similarity)>,
    k: int,
)
    requires
        is_redundancy_list(t, a),
        is_redundancy_list(t, b),
        0 <= k <= a.len(),
        k <= b.len(),
    ensures
        forall|j: int| 0 <= j < k ==> a[j] == b[j],
    decreases k,
{
    if k > 0 {
        lemma_redundancy_lists_agree_upto(t, a, b, k - 1);
        let x = a[k - 1];
        let y = b[k - 1];
        if x.0 != y.0 || x.1 != y.1 {
            lemma_pair_comes_later(t, a, b, k - 1);
            lemma_pair_comes_later(t, b, a, k - 1);
        }
    }
}

/// Where two lists of redundant pairs agree before position `at` and differ
/// at it, the pair that `a` holds there comes before the pair that `b` holds
/// there.
proof fn lemma_pair_comes_later(
    t: Table,
    a: Seq<(usize, usize, Similarity)>,
    b: Seq<(usize, usize, Similarity)>,
    at: int,
)
    requires
        is_redundancy_list(t, a),
        is_redundancy_list(t, b),
        0 <= at < a.len(),
        at < b.len(),
        forall|j: int| 0 <= j < at ==> a[j] == b[j],
        a[at].0 != b[at].0 || a[at].1 != b[at].1,
    ensures
        pair_before(a[at].0 as int, a[at].1 as int, b[at].0 as int, b[at].1 as int),
{
    let y = b[at];
    assert(redundant(t.rows, y.0 as int, y.1 as int));
    let l = choose|l: int| 0 <= l < a.len() && (#[trigger] a[l]).0 == y.0 && a[l].1 == y.1;
    if l < at {
        assert(a[l] == b[l]);
        assert(pair_before(b[l].0 as int, b[l].1 as int, b[at].0 as int, b[at].1 as int));
    }
    assert(l > at);
    assert(pair_before(a[at].0 as int, a[at].1 as int, a[l].0 as int, a[l].1 as int));
}

/// A list of redundant pairs that starts with the whole of another one ends
/// where the other ends.
proof fn lemma_redundancy_prefix_is_all(
    t: Table,
    a: Seq<(usize, usize, Similarity)>,
    b: Seq<(usize, usize, Similarity)>,
)
    requires
        is_redundancy_list(t, a),
        is_redundancy_list(t, b),
        a.len() <= b.len(),
        forall|j: int| 0 <= j < a.len() ==> a[j] == b[j],
    ensures
        a.len() == b.len(),
{
    if a.len() < b.len() {
        let y = b[a.len() as int];
        assert(redundant(t.rows, y.0 as int, y.1 as int));
        let l = choose|l: int| 0 <= l < a.len() && (#[trigger] a[l]).0 == y.0 && a[l].1 == y.1;
        assert(a[l] == b[l]);
        assert(pair_before(
            b[l].0 as int,
            b[l].1 as int,
            b[a.len() as int].0 as int,
            b[a.len() as int].1 as int,
        ));
    }
}

/// A table has one list of redundant pairs: two lists that both meet
/// `is_redundancy_list` are the same list.
pub proof fn lemma_redundancy_list_unique(
    t: Table,
    a: Seq<(usize, usize, Similarity)>,
    b: Seq<(usize, usize, Similarity)>,
)
    requires
        is_redundancy_list(t, a),
        is_redundancy_list(t, b),
    ensures
        a == b,
{
    if a.len() <= b.len() {
        lemma_redundancy_lists_agree_upto(t, a, b, a.len() as int);
        lemma_redundancy_prefix_is_all(t, a, b);
    } else {
        lemma_redundancy_lists_agree_upto(t, a, b, b.len() as int);
        assert forall|j: int| 0 <= j < b.len() implies b[j] == a[j] by {}
        lemma_redundancy_prefix_is_all(t, b, a);
    }
    assert(a =~= b);
}

/// Counts the cells of the column `col_idx` that are not missing.
fn count_present(rows: &[Vec<String>], col_idx: usize) -> (count: usize)
    requires
        has_column(rows.deep_view(), col_idx as int),
    ensures
        count == present_count(column_of(rows.deep_view(), col_idx as int)),
        count <= rows.len(),
{
    let ghost col = column_of(rows.deep_view(), col_idx as int);
    let mut count: usize = 0;
    let mut r: usize = 0;
    while r < rows.len()
        invariant
            r <= rows.len(),
            has_column(rows.deep_view(), col_idx as int),
            col == column_of(rows.deep_view(), col_idx as int),
            count == present_count(col.take(r as int)),
            count <= r,
        decreases rows.len() - r,
    {
        assert(rows.deep_view()[r as int].len() > col_idx);
        proof {
            lemma_count_step(col, is_present_cell(), r as int);
        }
        if !is_missing(rows[r][col_idx].as_str()) {
            count += 1;
        }
        r += 1;
    }
    assert(col.take(r as int) =~= col);
    count
}

/// Counts the rows in which the columns `i` and `j` hold the same text and
/// column `i` is not missing.
fn count_agreeing(rows: &[Vec<String>], i: usize, j: usize) -> (count: usize)
    requires
        has_column(rows.deep_view(), i as int),
        has_column(rows.deep_view(), j as int),
    ensures
        count == agree_count(
            column_of(rows.deep_view(), i as int),
            column_of(rows.deep_view(), j as int),
        ),
        count <= rows.len(),
{
    let ghost pairs = side_by_side(
        column_of(rows.deep_view(), i as int),
        column_of(rows.deep_view(), j as int),
    );
    let mut count: usize = 0;
    let mut r: usize = 0;
    while r < rows.len()
        invariant
            r <= rows.len(),
            has_column(rows.deep_view(), i as int),
            has_column(rows.deep_view(), j as int),
            pairs == side_by_side(
                column_of(rows.deep_view(), i as int),
                column_of(rows.deep_view(), j as int),
            ),
            count == count_where(pairs.take(r as int), is_agreeing_pair()),
            count <= r,
        decreases rows.len() - r,
    {
        assert(rows.deep_view()[r as int].len() > i);
        assert(rows.deep_view()[r as int].len() > j);
        proof {
            lemma_count_step(pairs, is_agreeing_pair(), r as int);
        }
        if rows[r][i] == rows[r][j] && !is_missing(rows[r][i].as_str()) {
            count += 1;
        }
        r += 1;
    }
    assert(pairs.take(r as int) =~= pairs);
    count
}

/// Tells whether `matches` out of `valid` is more than nine tenths.
fn above_nine_tenths(matches: usize, valid: usize) -> (r: bool)
    ensures
        r == (10 * matches > 9 * valid),
{
    (matches as u128) * 10 > (valid as u128) * 9
}

/// The pairs of columns `(i, j)`, `i` before `j`, in which `j` repeats `i`,
/// each with its similarity, in the order of the pairs.
pub fn detect_redundancy(dataset: &Dataset) -> (out: Result<
    Vec<(usize, usize, Similarity)>,
    PrestoError,
>)
    requires
        dataset@.well_formed(),
    ensures
        out is Ok,
        is_redundancy_list(dataset@, out->Ok_0@),
{
    let rows = dataset.rows().as_slice();
    let width = dataset.headers().len();
    let ghost grid = dataset@.rows;
    let mut pairs: Vec<(usize, usize, Similarity)> = Vec::new();
    let mut i: usize = 0;
    while i < width
        invariant
            i <= width,
            width == dataset@.headers.len(),
            dataset@.well_formed(),
            grid == dataset@.rows,
            rows.deep_view() == grid,
            forall|k: int|
                0 <= k < pairs.len() ==> {
                    let (a, b, s) = #[trigger] pairs[k];
                    &&& a < b < width
                    &&& a < i
                    &&& redundant(grid, a as int, b as int)
                    &&& s.matches == agree_count(column_of(grid, a as int), column_of(grid, b as int))
                    &&& s.valid == present_count(column_of(grid, a as int))
                },
            forall|k: int, l: int|
                0 <= k < l < pairs.len() ==> pair_before(
                    (#[trigger] pairs[k]).0 as int,
                    pairs[k].1 as int,
                    (#[trigger] pairs[l]).0 as int,
                    pairs[l].1 as int,
                ),
            forall|a: int, b: int|
                0 <= a < b < width && a < i && #[trigger] redundant(grid, a, b) ==> exists|k: int|
                    0 <= k < pairs.len() && (#[trigger] pairs[k]).0 == a && pairs[k].1 == b,
        decreases width - i,
    {
        let valid = count_present(rows, i);
        let mut j: usize = i + 1;
        while j < width
            invariant
                i < width,
                i < j <= width,
                width == dataset@.headers.len(),
                dataset@.well_formed(),
                grid == dataset@.rows,
                rows.deep_view() == grid,
                valid == present_count(column_of(grid, i as int)),
                forall|k: int|
                    0 <= k < pairs.len() ==> {
                        let (a, b, s) = #[trigger] pairs[k];
                        &&& a < b < width
                        &&& pair_before(a as int, b as int, i as int, j as int)
                        &&& redundant(grid, a as int, b as int)
                        &&& s.matches == agree_count(
                            column_of(grid, a as int),
                            column_of(grid, b as int),
                        )
                        &&& s.valid == present_count(column_of(grid, a as int))
                    },
                forall|k: int, l: int|
                    0 <= k < l < pairs.len() ==> pair_before(
                        (#[trigger] pairs[k]).0 as int,
                        pairs[k].1 as int,
                        (#[trigger] pairs[l]).0 as int,
                        pairs[l].1 as int,
                    ),
                forall|a: int, b: int|
                    0 <= a < b < width && pair_before(a, b, i as int, j as int)
                        && #[trigger] redundant(grid, a, b) ==> exists|k: int|
                        0 <= k < pairs.len() && (#[trigger] pairs[k]).0 == a && pairs[k].1 == b,
            decreases width - j,
        {
            let matches = count_agreeing(rows, i, j);
            let ghost before = pairs@;
            if above_nine_tenths(matches, valid) {
                pairs.push((i, j, Similarity { matches, valid }));
            }
            proof {
                assert forall|a: int, b: int|
                    0 <= a < b < width && pair_before(a, b, i as int, j + 1)
                        && #[trigger] redundant(grid, a, b) implies exists|k: int|
                    0 <= k < pairs.len() && (#[trigger] pairs[k]).0 == a && pairs[k].1 == b by {
                    if pair_before(a, b, i as int, j as int) {
                        let k = choose|k: int|
                            0 <= k < before.len() && (#[trigger] before[k]).0 == a && before[k].1
                                == b;
                        assert(pairs[k] == before[k]);
                    } else {
                        assert(a == i && b == j);
                        assert(pairs[pairs.len() - 1].0 == i);
                    }
                }
            }
            j += 1;
        }
        i += 1;
    }
    Ok(pairs)
}

/// The columns whose numbers are looked at for a sign: those whose header,
/// in lower case, holds `age`, `count` or `size`.
pub open spec fn counted_header(header: Seq<char>) -> bool {
    let lower = lowercase_of(header);
    ||| has_infix(lower, seq!['a', 'g', 'e'])
    ||| has_infix(lower, seq!['c', 'o', 'u', 'n', 't'])
    ||| has_infix(lower, seq!['s', 'i', 'z', 'e'])
}

/// Tells whether a header, already in lower case, names a column whose
/// numbers are looked at for a sign.
pub fn names_a_count(lower: &str) -> (r: bool)
    ensures
        r == (has_infix(lower@, seq!['a', 'g', 'e']) || has_infix(
            lower@,
            seq!['c', 'o', 'u', 'n', 't'],
        ) || has_infix(lower@, seq!['s', 'i', 'z', 'e'])),
{
    let cs = chars_of(lower);
    let age = ['a', 'g', 'e'];
    let count = ['c', 'o', 'u', 'n', 't'];
    let size = ['s', 'i', 'z', 'e'];
    assert(age@ =~= seq!['a', 'g', 'e']);
    assert(count@ =~= seq!['c', 'o', 'u', 'n', 't']);
    assert(size@ =~= seq!['s', 'i', 'z', 'e']);
    contains_chars(&cs, age.as_slice()) || contains_chars(&cs, count.as_slice())
        || contains_chars(&cs, size.as_slice())
}

/// Tells whether the numbers of the column under `header` are looked at for a
/// sign.
pub fn is_counted_header(header: &str) -> (r: bool)
    ensures
        r == counted_header(header@),
{
    let lower = lowercase(header);
    names_a_count(lower.as_str())
}

/// For each column, the number of values that should not be there:
/// `negatives[c]`, the number of negative numbers in column `c`, where the
/// header names an age, a count or a size, and 0 for every other column.
pub fn check_consistency(dataset: &Dataset, negatives: &Vec<usize>) -> (out: Result<
    Vec<usize>,
    PrestoError,
>)
    requires
        negatives.len() == dataset@.headers.len(),
    ensures
        out is Ok,
        out->Ok_0.len() == dataset@.headers.len(),
        forall|c: int|
            0 <= c < dataset@.headers.len() ==> (#[trigger] out->Ok_0[c]) == if counted_header(
                dataset@.headers[c],
            ) {
                negatives[c]
            } else {
                0
            },
{
    let headers = dataset.headers();
    let mut out: Vec<usize> = Vec::new();
    let mut c: usize = 0;
    while c < headers.len()
        invariant
            c <= headers.len(),
            headers.deep_view() == dataset@.headers,
            negatives.len() == headers.len(),
            out.len() == c,
            forall|k: int|
                0 <= k < c ==> (#[trigger] out[k]) == if counted_header(dataset@.headers[k]) {
                    negatives[k]
                } else {
                    0
                },
        decreases headers.len() - c,
    {
        assert(headers.deep_view()[c as int] == headers@[c as int]@);
        let issues: usize = if is_counted_header(headers[c].as_str()) {
            negatives[c]
        } else {
            0
        };
        out.push(issues);
        c += 1;
    }
    Ok(out)
}

} // verus!
