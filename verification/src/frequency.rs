//! The most frequent texts of a column.

use vstd::hash_map::StringHashMap;
use vstd::prelude::*;
use crate::counting::{count_where, lemma_count_bounded, lemma_count_none, lemma_count_step};
use crate::dataset::{column_of, has_column};
use crate::text::{is_missing, missing_text};

verus! {

/// The number of texts that a list of top values holds at most.
pub const TOP_VALUES: usize = 5;

/// The test for a cell that holds the text `v`.
pub open spec fn is_text(v: Seq<char>) -> spec_fn(Seq<char>) -> bool {
    |s: Seq<char>| s == v
}

/// How many cells of `col` hold the text `v`.
pub open spec fn occurrences(col: Seq<Seq<char>>, v: Seq<char>) -> nat {
    count_where(col, is_text(v))
}

/// The position of the first cell of `col` that holds `v`.
pub open spec fn first_index(col: Seq<Seq<char>>, v: Seq<char>) -> int {
    choose|i: int| 0 <= i < col.len() && col[i] == v && forall|j: int| 0 <= j < i ==> col[j] != v
}

/// `v` comes before `w` in a list of top values: it occurs more often, or as
/// often and earlier.
pub open spec fn ranks_before(col: Seq<Seq<char>>, v: Seq<char>, w: Seq<char>) -> bool {
    occurrences(col, v) > occurrences(col, w) || (occurrences(col, v) == occurrences(col, w)
        && first_index(col, v) < first_index(col, w))
}

/// A text that occurs in `col` and is not the mark of a missing cell.
pub open spec fn present_in(col: Seq<Seq<char>>, v: Seq<char>) -> bool {
    col.contains(v) && !missing_text(v)
}

/// `top` lists the most frequent texts of `col`, each with the number of its
/// cells: the first `limit` of them once all texts that are not missing are
/// put in order, the more frequent first and, of two that are equally
/// frequent, the one that occurs first in the column first.
pub open spec fn is_top_list(
    col: Seq<Seq<char>>,
    top: Seq<(Seq<char>, nat)>,
    limit: nat,
) -> bool {
    &&& top.len() <= limit
    &&& forall|k: int|
        0 <= k < top.len() ==> present_in(col, (#[trigger] top[k]).0) && top[k].1 == occurrences(
            col,
            top[k].0,
        )
    &&& forall|k: int, l: int|
        0 <= k < l < top.len() ==> ranks_before(col, (#[trigger] top[k]).0, (#[trigger] top[l]).0)
    &&& forall|v: Seq<char>|
        #![trigger present_in(col, v)]
        present_in(col, v) && (forall|k: int| 0 <= k < top.len() ==> (#[trigger] top[k]).0 != v)
            ==> top.len() == limit && forall|k: int|
            0 <= k < top.len() ==> ranks_before(col, (#[trigger] top[k]).0, v)
}

/// The position at which a text first occurs is where `first_index` finds it.
pub proof fn lemma_first_index(col: Seq<Seq<char>>, i: int)
    requires
        0 <= i < col.len(),
        forall|j: int| 0 <= j < i ==> col[j] != col[i],
    ensures
        first_index(col, col[i]) == i,
{
    let v = col[i];
    let f = first_index(col, v);
    assert(0 <= i < col.len() && col[i] == v && forall|j: int| 0 <= j < i ==> col[j] != v);
    if f < i {
        assert(col[f] != col[i]);
    }
    if i < f {
        assert(col[i] != v);
    }
}

/// Two lists of top values of one column agree on their first `k` entries.
proof fn lemma_top_lists_agree_upto(
    col: Seq<Seq<char>>,
    a: Seq<(Seq<char>, nat)>,
    b: Seq<(Seq<char>, nat)>,
    limit: nat,
    k: int,
)
    requires
        is_top_list(col, a, limit),
        is_top_list(col, b, limit),
        0 <= k <= a.len(),
        k <= b.len(),
    ensures
        forall|j: int| 0 <= j < k ==> a[j] == b[j],
    decreases k,
{
    if k > 0 {
        lemma_top_lists_agree_upto(col, a, b, limit, k - 1);
        let v = a[k - 1].0;
        let w = b[k - 1].0;
        assert(present_in(col, v));
        assert(present_in(col, w));
        if v != w {
            lemma_outranked(col, b, a, limit, k - 1);
            lemma_outranked(col, a, b, limit, k - 1);
            assert(ranks_before(col, w, v));
            assert(ranks_before(col, v, w));
        }
    }
}

/// Where two lists of top values agree before position `at` and differ at
/// it, the text that `a` holds there ranks before the text that `b` holds
/// there.
proof fn lemma_outranked(
    col: Seq<Seq<char>>,
    a: Seq<(Seq<char>, nat)>,
    b: Seq<(Seq<char>, nat)>,
    limit: nat,
    at: int,
)
    requires
        is_top_list(col, a, limit),
        is_top_list(col, b, limit),
        0 <= at < a.len(),
        at < b.len(),
        forall|j: int| 0 <= j < at ==> a[j] == b[j],
        a[at].0 != b[at].0,
    ensures
        ranks_before(col, a[at].0, b[at].0),
{
    let v = b[at].0;
    assert(present_in(col, v));
    if exists|l: int| 0 <= l < a.len() && (#[trigger] a[l]).0 == v {
        let l = choose|l: int| 0 <= l < a.len() && (#[trigger] a[l]).0 == v;
        if l < at {
            assert(a[l] == b[l]);
            assert(ranks_before(col, b[l].0, b[at].0));
        }
        assert(l > at);
        assert(ranks_before(col, a[at].0, a[l].0));
    } else {
        assert(forall|l: int| 0 <= l < a.len() ==> (#[trigger] a[l]).0 != v);
        assert(ranks_before(col, a[at].0, v));
    }
}

/// A column has one list of top values: two lists that both meet
/// `is_top_list` are the same list.
pub proof fn lemma_top_list_unique(
    col: Seq<Seq<char>>,
    a: Seq<(Seq<char>, nat)>,
    b: Seq<(Seq<char>, nat)>,
    limit: nat,
)
    requires
        is_top_list(col, a, limit),
        is_top_list(col, b, limit),
    ensures
        a == b,
{
    if a.len() <= b.len() {
        lemma_top_lists_agree_upto(col, a, b, limit, a.len() as int);
        lemma_equal_prefix_is_all(col, a, b, limit);
    } else {
        lemma_top_lists_agree_upto(col, a, b, limit, b.len() as int);
        assert forall|j: int| 0 <= j < b.len() implies b[j] == a[j] by {}
        lemma_equal_prefix_is_all(col, b, a, limit);
    }
    assert(a =~= b);
}

/// A list of top values that starts with the whole of another one ends
/// where the other ends.
proof fn lemma_equal_prefix_is_all(
    col: Seq<Seq<char>>,
    a: Seq<(Seq<char>, nat)>,
    b: Seq<(Seq<char>, nat)>,
    limit: nat,
)
    requires
        is_top_list(col, a, limit),
        is_top_list(col, b, limit),
        a.len() <= b.len(),
        forall|j: int| 0 <= j < a.len() ==> a[j] == b[j],
    ensures
        a.len() == b.len(),
{
    if a.len() < b.len() {
        let w = b[a.len() as int].0;
        assert(present_in(col, w));
        assert forall|j: int| 0 <= j < a.len() implies (#[trigger] a[j]).0 != w by {
            assert(a[j] == b[j]);
            assert(ranks_before(col, b[j].0, b[a.len() as int].0));
        }
    }
}

/// Entry `a` of a tally comes before entry `b`: its count is greater, or it
/// is as great and `a` is the earlier entry.
pub open spec fn entry_before(counts: Seq<usize>, a: int, b: int) -> bool {
    counts[a] > counts[b] || (counts[a] == counts[b] && a < b)
}

/// The first `limit` entries of a tally once the entries are put in order,
/// the greater count first and, of two equal counts, the earlier entry first.
pub fn leading_entries(counts: &Vec<usize>, limit: usize) -> (best: Vec<usize>)
    ensures
        best.len() <= limit,
        forall|k: int| 0 <= k < best.len() ==> (#[trigger] best[k]) < counts.len(),
        forall|k: int, l: int|
            0 <= k < l < best.len() ==> entry_before(
                counts@,
                (#[trigger] best[k]) as int,
                (#[trigger] best[l]) as int,
            ),
        forall|e: usize|
            e < counts.len() && !(#[trigger] best@.contains(e)) ==> best.len() == limit && forall|
                k: int,
            |
                0 <= k < best.len() ==> entry_before(
                    counts@,
                    (#[trigger] best[k]) as int,
                    e as int,
                ),
{
    let mut best: Vec<usize> = Vec::new();
    let mut e: usize = 0;
    while e < counts.len()
        invariant
            e <= counts.len(),
            best.len() <= limit,
            best.len() < limit ==> forall|x: usize| x < e ==> #[trigger] best@.contains(x),
            forall|k: int| 0 <= k < best.len() ==> (#[trigger] best[k]) < e,
            forall|k: int, l: int|
                0 <= k < l < best.len() ==> entry_before(
                    counts@,
                    (#[trigger] best[k]) as int,
                    (#[trigger] best[l]) as int,
                ),
            forall|x: usize|
                x < e && !(#[trigger] best@.contains(x)) ==> best.len() == limit && forall|k: int|
                    0 <= k < best.len() ==> entry_before(
                        counts@,
                        (#[trigger] best[k]) as int,
                        x as int,
                    ),
        decreases counts.len() - e,
    {
        let mut pos: usize = 0;
        while pos < best.len() && counts[best[pos]] >= counts[e]
            invariant
                pos <= best.len(),
                e < counts.len(),
                forall|k: int| 0 <= k < best.len() ==> (#[trigger] best[k]) < e,
                forall|k: int| 0 <= k < pos ==> counts[(#[trigger] best[k]) as int] >= counts[e as int],
            decreases best.len() - pos,
        {
            pos += 1;
        }
        let ghost old_best = best@;
        if pos < limit {
            best.insert(pos, e);
            let ghost grown = best@;
            assert(grown == old_best.insert(pos as int, e));
            assert(grown[pos as int] == e);
            assert forall|k: int| 0 <= k < grown.len() implies (#[trigger] grown[k]) < e + 1 by {
                if k < pos {
                    assert(grown[k] == old_best[k]);
                } else if k > pos {
                    assert(grown[k] == old_best[k - 1]);
                }
            }
            assert forall|k: int, l: int| 0 <= k < l < grown.len() implies entry_before(
                counts@,
                (#[trigger] grown[k]) as int,
                (#[trigger] grown[l]) as int,
            ) by {
                if l < pos {
                    assert(grown[k] == old_best[k] && grown[l] == old_best[l]);
                } else if l == pos {
                    assert(grown[k] == old_best[k]);
                } else if k == pos {
                    assert(grown[l] == old_best[l - 1]);
                    if l - 1 > pos {
                        assert(entry_before(
                            counts@,
                            old_best[pos as int] as int,
                            old_best[l - 1] as int,
                        ));
                    }
                } else if k < pos {
                    assert(grown[k] == old_best[k] && grown[l] == old_best[l - 1]);
                } else {
                    assert(grown[k] == old_best[k - 1] && grown[l] == old_best[l - 1]);
                }
            }
            assert forall|x: usize| old_best.contains(x) implies grown.contains(x) by {
                let k = choose|k: int| 0 <= k < old_best.len() && old_best[k] == x;
                if k < pos {
                    assert(grown[k] == x);
                } else {
                    assert(grown[k + 1] == x);
                }
            }
            if best.len() > limit {
                let last = best.pop();
                assert(best@ == grown.drop_last());
                assert(old_best.len() == limit);
                let ghost y = grown[limit as int];
                assert forall|x: usize| x < e + 1 && !(#[trigger] best@.contains(x)) implies best.len()
                    == limit && forall|k: int|
                    0 <= k < best.len() ==> entry_before(
                        counts@,
                        (#[trigger] best[k]) as int,
                        x as int,
                    ) by {
                    assert forall|k: int| 0 <= k < best.len() implies entry_before(
                        counts@,
                        (#[trigger] best[k]) as int,
                        x as int,
                    ) by {
                        assert(best[k] == grown[k]);
                        assert(entry_before(counts@, grown[k] as int, y as int));
                        if x == y {
                        } else {
                            // x is neither kept nor the one that left
                            if grown.contains(x) {
                                let m = choose|m: int| 0 <= m < grown.len() && grown[m] == x;
                                if m < limit {
                                    assert(best@[m] == x);
                                }
                                assert(false);
                            }
                            assert(!old_best.contains(x));
                            assert(x != e);
                            assert(y == old_best[limit - 1]);
                            assert(entry_before(counts@, old_best[limit - 1] as int, x as int));
                        }
                    }
                }
                assert forall|k: int, l: int| 0 <= k < l < best.len() implies entry_before(
                    counts@,
                    (#[trigger] best[k]) as int,
                    (#[trigger] best[l]) as int,
                ) by {
                    assert(best[k] == grown[k] && best[l] == grown[l]);
                }
            } else {
                assert forall|x: usize| x < e + 1 implies #[trigger] best@.contains(x) by {
                    if x < e {
                        assert(old_best.contains(x));
                    } else {
                        assert(grown[pos as int] == x);
                    }
                }
            }
        } else {
            assert(best.len() == limit);
            assert forall|k: int| 0 <= k < best.len() implies entry_before(
                counts@,
                (#[trigger] best[k]) as int,
                e as int,
            ) by {}
        }
        e += 1;
    }
    best
}

/// `firsts` and `counts` tally the first `n` cells of `col`: `firsts` holds,
/// in rising order, the positions at which a text that is not missing occurs
/// for the first time, and `counts` holds beside each the number of cells,
/// among the first `n`, with that text.
pub open spec fn tallies(col: Seq<Seq<char>>, firsts: Seq<usize>, counts: Seq<usize>, n: int) -> bool {
    &&& firsts.len() == counts.len()
    &&& forall|k: int|
        0 <= k < firsts.len() ==> {
            let at = (#[trigger] firsts[k]) as int;
            &&& 0 <= at < n
            &&& !missing_text(col[at])
            &&& forall|j: int| 0 <= j < at ==> col[j] != col[at]
            &&& counts[k] == occurrences(col.take(n), col[at])
        }
    &&& forall|k: int, l: int|
        0 <= k < l < firsts.len() ==> (#[trigger] firsts[k]) < (#[trigger] firsts[l])
    &&& forall|j: int|
        0 <= j < n && !missing_text(#[trigger] col[j]) ==> exists|k: int|
            0 <= k < firsts.len() && col[(#[trigger] firsts[k]) as int] == col[j]
}

/// Two entries of a tally stand for two different texts.
proof fn lemma_tally_texts_differ(
    col: Seq<Seq<char>>,
    firsts: Seq<usize>,
    counts: Seq<usize>,
    n: int,
    k: int,
    l: int,
)
    requires
        tallies(col, firsts, counts, n),
        0 <= k < firsts.len(),
        0 <= l < firsts.len(),
        k != l,
    ensures
        col[firsts[k] as int] != col[firsts[l] as int],
{
    if k < l {
        assert(firsts[k] < firsts[l]);
    } else {
        assert(firsts[l] < firsts[k]);
    }
}

/// A tally of `n` cells is a tally of `n + 1` cells where the next cell is
/// missing.
proof fn lemma_tally_skip(col: Seq<Seq<char>>, firsts: Seq<usize>, counts: Seq<usize>, n: int)
    requires
        0 <= n < col.len(),
        tallies(col, firsts, counts, n),
        missing_text(col[n]),
    ensures
        tallies(col, firsts, counts, n + 1),
{
    assert forall|k: int| 0 <= k < firsts.len() implies counts[k] == occurrences(
        col.take(n + 1),
        col[(#[trigger] firsts[k]) as int],
    ) by {
        lemma_count_step(col, is_text(col[firsts[k] as int]), n);
    }
}

/// Where the next cell holds the text of entry `m`, the tally of `n + 1`
/// cells has one more at `m`.
proof fn lemma_tally_bump(
    col: Seq<Seq<char>>,
    firsts: Seq<usize>,
    counts: Seq<usize>,
    n: int,
    m: int,
)
    requires
        0 <= n < col.len(),
        n < usize::MAX,
        tallies(col, firsts, counts, n),
        0 <= m < firsts.len(),
        col[firsts[m] as int] == col[n],
    ensures
        counts[m] <= n,
        tallies(col, firsts, counts.update(m, (counts[m] + 1) as usize), n + 1),
{
    lemma_count_bounded(col.take(n), is_text(col[firsts[m] as int]));
    assert(col.take(n).len() == n);
    let bumped = counts.update(m, (counts[m] + 1) as usize);
    {
        assert forall|k: int| 0 <= k < firsts.len() implies bumped[k] == occurrences(
            col.take(n + 1),
            col[(#[trigger] firsts[k]) as int],
        ) by {
            lemma_count_step(col, is_text(col[firsts[k] as int]), n);
            if k != m {
                lemma_tally_texts_differ(col, firsts, counts, n, k, m);
            }
        }
        assert forall|j: int| 0 <= j < n + 1 && !missing_text(#[trigger] col[j]) implies exists|
            k: int,
        |
            0 <= k < firsts.len() && col[(#[trigger] firsts[k]) as int] == col[j] by {
            if j == n {
                assert(col[firsts[m] as int] == col[j]);
            }
        }
    }
}

/// Where the next cell holds a text that no entry stands for, the tally of
/// `n + 1` cells has a new entry for it, with count 1.
proof fn lemma_tally_new(col: Seq<Seq<char>>, firsts: Seq<usize>, counts: Seq<usize>, n: int)
    requires
        0 <= n < col.len(),
        n <= usize::MAX,
        tallies(col, firsts, counts, n),
        !missing_text(col[n]),
        forall|k: int| 0 <= k < firsts.len() ==> col[(#[trigger] firsts[k]) as int] != col[n],
    ensures
        tallies(col, firsts.push(n as usize), counts.push(1), n + 1),
{
    let firsts2 = firsts.push(n as usize);
    let counts2 = counts.push(1);
    assert forall|j: int| 0 <= j < n implies col[j] != col[n] by {
        if col[j] == col[n] {
            let k = choose|k: int|
                0 <= k < firsts.len() && col[(#[trigger] firsts[k]) as int] == col[j];
            assert(col[firsts[k] as int] != col[n]);
        }
    }
    assert forall|j: int| 0 <= j < col.take(n).len() implies !is_text(col[n])(
        #[trigger] col.take(n)[j],
    ) by {
        assert(col.take(n)[j] == col[j]);
    }
    lemma_count_none(col.take(n), is_text(col[n]));
    lemma_count_step(col, is_text(col[n]), n);
    assert forall|k: int| 0 <= k < firsts2.len() implies {
        let at = (#[trigger] firsts2[k]) as int;
        &&& 0 <= at < n + 1
        &&& !missing_text(col[at])
        &&& forall|j: int| 0 <= j < at ==> col[j] != col[at]
        &&& counts2[k] == occurrences(col.take(n + 1), col[at])
    } by {
        if k < firsts.len() {
            assert(firsts2[k] == firsts[k]);
            lemma_count_step(col, is_text(col[firsts[k] as int]), n);
        }
    }
    assert forall|k: int, l: int| 0 <= k < l < firsts2.len() implies (#[trigger] firsts2[k]) < (
    #[trigger] firsts2[l]) by {
        assert(firsts2[k] == firsts[k]);
        if l < firsts.len() {
            assert(firsts2[l] == firsts[l]);
        }
    }
    assert forall|j: int| 0 <= j < n + 1 && !missing_text(#[trigger] col[j]) implies exists|k: int|
        0 <= k < firsts2.len() && col[(#[trigger] firsts2[k]) as int] == col[j] by {
        if j < n {
            let k = choose|k: int|
                0 <= k < firsts.len() && col[(#[trigger] firsts[k]) as int] == col[j];
            assert(firsts2[k] == firsts[k]);
        } else {
            assert(firsts2[firsts.len() as int] == n as usize);
        }
    }
}

/// `index` finds the entries of a tally by their texts: it maps the text of
/// each entry to the position of the entry, and nothing else.
spec fn indexes(col: Seq<Seq<char>>, firsts: Seq<usize>, index: Map<Seq<char>, usize>) -> bool {
    &&& forall|k: int|
        0 <= k < firsts.len() ==> index.contains_key(col[(#[trigger] firsts[k]) as int])
            && index[col[firsts[k] as int]] == k
    &&& forall|text: Seq<char>| #[trigger]
        index.contains_key(text) ==> index[text] < firsts.len() && col[firsts[index[text] as int] as int]
            == text
}

/// The texts of a column that are not missing, each once and in the order
/// in which they first occur, by the row of the first occurrence, and beside
/// each the number of cells that hold it.
pub fn tally(rows: &[Vec<String>], col_idx: usize) -> (out: (Vec<usize>, Vec<usize>))
    requires
        has_column(rows.deep_view(), col_idx as int),
    ensures
        tallies(column_of(rows.deep_view(), col_idx as int), out.0@, out.1@, rows.len() as int),
{
    let ghost col = column_of(rows.deep_view(), col_idx as int);
    let mut firsts: Vec<usize> = Vec::new();
    let mut counts: Vec<usize> = Vec::new();
    let mut index: StringHashMap<usize> = StringHashMap::new();
    let mut i: usize = 0;
    while i < rows.len()
        invariant
            i <= rows.len(),
            has_column(rows.deep_view(), col_idx as int),
            col == column_of(rows.deep_view(), col_idx as int),
            col.len() == rows.len(),
            tallies(col, firsts@, counts@, i as int),
            indexes(col, firsts@, index@),
        decreases rows.len() - i,
    {
        assert(rows.deep_view()[i as int].len() > col_idx);
        let cell = &rows[i][col_idx];
        assert(cell@ == col[i as int]);
        if is_missing(cell.as_str()) {
            proof {
                lemma_tally_skip(col, firsts@, counts@, i as int);
            }
        } else {
            match index.get(cell.as_str()) {
                Some(found) => {
                    let m = *found;
                    proof {
                        lemma_tally_bump(col, firsts@, counts@, i as int, m as int);
                    }
                    let bumped: usize = counts[m] + 1;
                    counts.set(m, bumped);
                },
                None => {
                    proof {
                        lemma_tally_new(col, firsts@, counts@, i as int);
                    }
                    let ghost old_firsts = firsts@;
                    let ghost old_index = index@;
                    index.insert(cell.clone(), firsts.len());
                    firsts.push(i);
                    counts.push(1);
                    proof {
                        assert forall|k: int| 0 <= k < firsts.len() implies index@.contains_key(
                            col[(#[trigger] firsts[k]) as int],
                        ) && index@[col[firsts[k] as int]] == k by {
                            if k < old_firsts.len() {
                                assert(firsts[k] == old_firsts[k]);
                                assert(old_index.contains_key(col[old_firsts[k] as int]));
                            }
                        }
                        assert forall|text: Seq<char>| #[trigger]
                            index@.contains_key(text) implies index@[text] < firsts.len()
                            && col[firsts[index@[text] as int] as int] == text by {
                            if text != col[i as int] {
                                assert(old_index.contains_key(text));
                                assert(firsts[old_index[text] as int] == old_firsts[old_index[text] as int]);
                            }
                        }
                    }
                },
            }
        }
        i += 1;
    }
    (firsts, counts)
}

/// What a list of texts and counts says, as plain values.
pub open spec fn listed(out: Seq<(String, usize)>) -> Seq<(Seq<char>, nat)> {
    Seq::new(out.len(), |k: int| (out[k].0@, out[k].1 as nat))
}

/// The leading entries of a tally of the whole column, written out as texts
/// and counts, are the list of its top values.
proof fn lemma_leading_entries_are_top(
    col: Seq<Seq<char>>,
    firsts: Seq<usize>,
    counts: Seq<usize>,
    best: Seq<usize>,
    top: Seq<(Seq<char>, nat)>,
    limit: nat,
)
    requires
        tallies(col, firsts, counts, col.len() as int),
        counts.len() <= usize::MAX,
        best.len() <= limit,
        forall|k: int| 0 <= k < best.len() ==> (#[trigger] best[k]) < counts.len(),
        forall|k: int, l: int|
            0 <= k < l < best.len() ==> entry_before(
                counts,
                (#[trigger] best[k]) as int,
                (#[trigger] best[l]) as int,
            ),
        forall|e: usize|
            e < counts.len() && !(#[trigger] best.contains(e)) ==> best.len() == limit && forall|
                k: int,
            |
                0 <= k < best.len() ==> entry_before(counts, (#[trigger] best[k]) as int, e as int),
        top.len() == best.len(),
        forall|k: int|
            0 <= k < top.len() ==> (#[trigger] top[k]).0 == col[firsts[best[k] as int] as int]
                && top[k].1 == counts[best[k] as int],
    ensures
        is_top_list(col, top, limit),
{
    assert(col.take(col.len() as int) =~= col);
    assert forall|e: int| 0 <= e < firsts.len() implies first_index(
        col,
        col[(#[trigger] firsts[e]) as int],
    ) == firsts[e] by {
        lemma_first_index(col, firsts[e] as int);
    }
    assert forall|a: int, b: int|
        0 <= a < firsts.len() && 0 <= b < firsts.len() && #[trigger] entry_before(
            counts,
            a,
            b,
        ) implies ranks_before(col, col[firsts[a] as int], col[firsts[b] as int]) by {
        assert(first_index(col, col[firsts[a] as int]) == firsts[a]);
        assert(first_index(col, col[firsts[b] as int]) == firsts[b]);
        if counts[a] == counts[b] {
            assert(firsts[a] < firsts[b]);
        }
    }
    assert forall|k: int| 0 <= k < top.len() implies present_in(col, (#[trigger] top[k]).0)
        && top[k].1 == occurrences(col, top[k].0) by {
        let e = best[k] as int;
        assert(col[firsts[e] as int] == top[k].0);
    }
    assert forall|k: int, l: int| 0 <= k < l < top.len() implies ranks_before(
        col,
        (#[trigger] top[k]).0,
        (#[trigger] top[l]).0,
    ) by {
        assert(entry_before(counts, best[k] as int, best[l] as int));
    }
    assert forall|v: Seq<char>|
        #![trigger present_in(col, v)]
        present_in(col, v) && (forall|k: int| 0 <= k < top.len() ==> (#[trigger] top[k]).0
            != v) implies top.len() == limit && forall|k: int|
        0 <= k < top.len() ==> ranks_before(col, (#[trigger] top[k]).0, v) by {
        let i = choose|i: int| 0 <= i < col.len() && col[i] == v;
        assert(!missing_text(col[i]));
        let e = choose|e: int| 0 <= e < firsts.len() && col[(#[trigger] firsts[e]) as int] == col[i];
        let eu = e as usize;
        assert(eu == e);
        if best.contains(eu) {
            let k = choose|k: int| 0 <= k < best.len() && best[k] == eu;
            assert(top[k].0 == col[firsts[best[k] as int] as int]);
            assert(false);
        }
        assert(best.len() == limit);
        assert forall|k: int| 0 <= k < top.len() implies ranks_before(
            col,
            (#[trigger] top[k]).0,
            v,
        ) by {
            assert(entry_before(counts, best[k] as int, eu as int));
            assert(top[k].0 == col[firsts[best[k] as int] as int]);
        }
    }
}

/// The five most frequent texts of the column `col_idx`, each with the
/// number of its cells. Missing cells are not counted. Of two texts that are
/// equally frequent, the one that occurs first in the column comes first.
pub fn top_values(rows: &[Vec<String>], col_idx: usize) -> (out: Vec<(String, usize)>)
    requires
        has_column(rows.deep_view(), col_idx as int),
    ensures
        is_top_list(
            column_of(rows.deep_view(), col_idx as int),
            listed(out@),
            TOP_VALUES as nat,
        ),
{
    let ghost col = column_of(rows.deep_view(), col_idx as int);
    let (firsts, counts) = tally(rows, col_idx);
    let best = leading_entries(&counts, TOP_VALUES);
    let mut out: Vec<(String, usize)> = Vec::new();
    let mut k: usize = 0;
    while k < best.len()
        invariant
            k <= best.len(),
            out.len() == k,
            has_column(rows.deep_view(), col_idx as int),
            col == column_of(rows.deep_view(), col_idx as int),
            firsts.len() == counts.len(),
            forall|e: int| 0 <= e < firsts.len() ==> (#[trigger] firsts[e]) < rows.len(),
            forall|t: int| 0 <= t < best.len() ==> (#[trigger] best[t]) < counts.len(),
            forall|t: int|
                0 <= t < k ==> (#[trigger] out[t]).0@ == col[firsts[best[t] as int] as int]
                    && out[t].1 == counts[best[t] as int],
        decreases best.len() - k,
    {
        let e = best[k];
        let at = firsts[e];
        assert(rows.deep_view()[at as int].len() > col_idx);
        let text = rows[at][col_idx].clone();
        out.push((text, counts[e]));
        k += 1;
    }
    proof {
        lemma_leading_entries_are_top(
            col,
            firsts@,
            counts@,
            best@,
            listed(out@),
            TOP_VALUES as nat,
        );
    }
    out
}

} // verus!
