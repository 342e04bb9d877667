//! Counting over sequences: how many items satisfy a predicate, and how many
//! different items there are.

use vstd::prelude::*;

verus! {

/// How many items of `s` satisfy `p`.
pub open spec fn count_where<A>(s: Seq<A>, p: spec_fn(A) -> bool) -> nat
    decreases s.len(),
{
    if s.len() == 0 {
        0
    } else {
        count_where(s.drop_last(), p) + if p(s.last()) {
            1nat
        } else {
            0nat
        }
    }
}

/// How many different items `s` holds.
pub open spec fn distinct_count<A>(s: Seq<A>) -> nat {
    s.to_set().len()
}

/// The count over the first `i + 1` items is the count over the first `i`,
/// plus one where item `i` satisfies `p`.
pub proof fn lemma_count_step<A>(s: Seq<A>, p: spec_fn(A) -> bool, i: int)
    requires
        0 <= i < s.len(),
    ensures
        count_where(s.take(i + 1), p) == count_where(s.take(i), p) + if p(s[i]) {
            1nat
        } else {
            0nat
        },
{
    assert(s.take(i + 1).drop_last() =~= s.take(i));
    assert(s.take(i + 1).last() == s[i]);
}

/// No more items satisfy `p` than there are items.
pub proof fn lemma_count_bounded<A>(s: Seq<A>, p: spec_fn(A) -> bool)
    ensures
        count_where(s, p) <= s.len(),
    decreases s.len(),
{
    if s.len() > 0 {
        lemma_count_bounded(s.drop_last(), p);
    }
}

/// Where no item satisfies `p`, the count is 0.
pub proof fn lemma_count_none<A>(s: Seq<A>, p: spec_fn(A) -> bool)
    requires
        forall|i: int| 0 <= i < s.len() ==> !p(#[trigger] s[i]),
    ensures
        count_where(s, p) == 0,
    decreases s.len(),
{
    if s.len() > 0 {
        let rest = s.drop_last();
        assert forall|i: int| 0 <= i < rest.len() implies !p(#[trigger] rest[i]) by {
            assert(rest[i] == s[i]);
        }
        lemma_count_none(rest, p);
        assert(s.last() == s[s.len() - 1]);
    }
}

/// Two lists of one length, of which the items at each position satisfy
/// their predicates together or not at all, have the same count.
pub proof fn lemma_count_alike<A, B>(
    s: Seq<A>,
    p: spec_fn(A) -> bool,
    t: Seq<B>,
    q: spec_fn(B) -> bool,
)
    requires
        s.len() == t.len(),
        forall|i: int| 0 <= i < s.len() ==> p(#[trigger] s[i]) == q(t[i]),
    ensures
        count_where(s, p) == count_where(t, q),
    decreases s.len(),
{
    if s.len() > 0 {
        let s0 = s.drop_last();
        let t0 = t.drop_last();
        assert forall|i: int| 0 <= i < s0.len() implies p(#[trigger] s0[i]) == q(t0[i]) by {
            assert(s0[i] == s[i]);
            assert(t0[i] == t[i]);
        }
        lemma_count_alike(s0, p, t0, q);
        assert(s.last() == s[s.len() - 1]);
        assert(t.last() == t[s.len() - 1]);
    }
}

/// Where every item satisfies exactly one of three predicates, the three
/// counts add up to the number of items.
pub proof fn lemma_count_partition<A>(
    s: Seq<A>,
    p: spec_fn(A) -> bool,
    q: spec_fn(A) -> bool,
    r: spec_fn(A) -> bool,
)
    requires
        forall|i: int|
            0 <= i < s.len() ==> (if p(#[trigger] s[i]) {
                1int
            } else {
                0int
            }) + (if q(s[i]) {
                1int
            } else {
                0int
            }) + (if r(s[i]) {
                1int
            } else {
                0int
            }) == 1,
    ensures
        count_where(s, p) + count_where(s, q) + count_where(s, r) == s.len(),
    decreases s.len(),
{
    if s.len() > 0 {
        let rest = s.drop_last();
        assert forall|i: int| 0 <= i < rest.len() implies (if p(#[trigger] rest[i]) {
            1int
        } else {
            0int
        }) + (if q(rest[i]) {
            1int
        } else {
            0int
        }) + (if r(rest[i]) {
            1int
        } else {
            0int
        }) == 1 by {
            assert(rest[i] == s[i]);
        }
        lemma_count_partition(rest, p, q, r);
        assert(s.last() == s[s.len() - 1]);
    }
}

/// The first `i + 1` items hold one more different item than the first `i`
/// exactly when item `i` does not occur among them.
pub proof fn lemma_distinct_step<A>(s: Seq<A>, i: int)
    requires
        0 <= i < s.len(),
    ensures
        distinct_count(s.take(i + 1)) == distinct_count(s.take(i)) + if s.take(i).contains(s[i]) {
            0nat
        } else {
            1nat
        },
{
    let before = s.take(i);
    s.lemma_take_succ_push(i);
    before.lemma_push_to_set_commute(s[i]);
    vstd::seq_lib::seq_to_set_is_finite(before);
    vstd::set::axiom_set_insert_len(before.to_set(), s[i]);
    assert(before.to_set().contains(s[i]) <==> before.contains(s[i]));
}

/// There are no more different items than items, and at least one where there
/// is an item.
pub proof fn lemma_distinct_bounded<A>(s: Seq<A>)
    ensures
        distinct_count(s) <= s.len(),
        s.len() > 0 ==> distinct_count(s) >= 1,
    decreases s.len(),
{
    if s.len() == 0 {
        assert(s.to_set() =~= Set::<A>::empty());
    } else {
        let i = s.len() - 1;
        lemma_distinct_bounded(s.take(i));
        lemma_distinct_step(s, i);
        assert(s.take(i + 1) =~= s);
    }
}

} // verus!
