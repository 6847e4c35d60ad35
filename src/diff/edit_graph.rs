//! The edit graph of two sequences, and the edit distance that a trace must attain.
use vstd::prelude::*;

verus! {

/// Fewest insertions and deletions that turn the first `i` elements of `a` into
/// the first `j` elements of `b`: a match at the last position is free, every
/// other step costs one.
pub open spec fn edit_distance<T>(a: Seq<T>, b: Seq<T>, i: nat, j: nat) -> nat
    decreases i + j,
{
    if i == 0 {
        j
    } else if j == 0 {
        i
    } else {
        let del = edit_distance(a, b, (i - 1) as nat, j) + 1;
        let ins = edit_distance(a, b, i, (j - 1) as nat) + 1;
        let edit = if del <= ins { del } else { ins };
        if a[i - 1] == b[j - 1] {
            let keep = edit_distance(a, b, (i - 1) as nat, (j - 1) as nat);
            if keep <= edit { keep } else { edit }
        } else {
            edit
        }
    }
}

/// `t` lists matched positions `(x, y)` with `a[x] == b[y]`, strictly increasing
/// in both coordinates from one pair to the next.
pub open spec fn is_common_trace<T>(a: Seq<T>, b: Seq<T>, t: Seq<(usize, usize)>) -> bool {
    &&& forall|p: int|
        0 <= p < t.len() ==> (#[trigger] t[p]).0 < a.len() && t[p].1 < b.len() && a[t[p].0 as int]
            == b[t[p].1 as int]
    &&& forall|p: int| 0 <= p < t.len() - 1 ==> (#[trigger] t[p]).0 < t[p + 1].0 && t[p].1 < t[p + 1].1
}

/// A common trace that leaves out exactly as many elements of the two
/// sequences, together, as the edit distance between them.
pub open spec fn is_optimal_trace<T>(a: Seq<T>, b: Seq<T>, t: Seq<(usize, usize)>) -> bool {
    &&& is_common_trace(a, b, t)
    &&& (a.len() - t.len()) + (b.len() - t.len()) == edit_distance(a, b, a.len(), b.len())
}

/// The distance is at least the difference of the two lengths, at most their
/// sum, and has the parity of their sum.
pub proof fn lemma_edit_distance_bounds<T>(a: Seq<T>, b: Seq<T>, i: nat, j: nat)
    ensures
        i <= j + edit_distance(a, b, i, j),
        j <= i + edit_distance(a, b, i, j),
        edit_distance(a, b, i, j) <= i + j,
        (edit_distance(a, b, i, j) + i + j) % 2 == 0,
    decreases i + j,
{
    if i > 0 && j > 0 {
        lemma_edit_distance_bounds(a, b, (i - 1) as nat, j);
        lemma_edit_distance_bounds(a, b, i, (j - 1) as nat);
        lemma_edit_distance_bounds(a, b, (i - 1) as nat, (j - 1) as nat);
    }
}

/// Dropping the last element of `b` changes the distance by at most one.
pub proof fn lemma_edit_distance_drop_b<T>(a: Seq<T>, b: Seq<T>, i: nat, j: nat)
    requires
        j >= 1,
    ensures
        edit_distance(a, b, i, (j - 1) as nat) <= edit_distance(a, b, i, j) + 1,
    decreases i + j,
{
    if i > 0 {
        lemma_edit_distance_bounds(a, b, i, j);
        if j > 1 {
            lemma_edit_distance_drop_b(a, b, (i - 1) as nat, j);
        }
    }
}

/// Dropping the last element of `a` changes the distance by at most one.
pub proof fn lemma_edit_distance_drop_a<T>(a: Seq<T>, b: Seq<T>, i: nat, j: nat)
    requires
        i >= 1,
    ensures
        edit_distance(a, b, (i - 1) as nat, j) <= edit_distance(a, b, i, j) + 1,
    decreases i + j,
{
    if j > 0 {
        lemma_edit_distance_bounds(a, b, i, j);
        if i > 1 {
            lemma_edit_distance_drop_a(a, b, i, (j - 1) as nat);
        }
    }
}


/// Going `d` steps further along `a` costs at most `d` more.
pub proof fn lemma_edit_distance_extend_a<T>(a: Seq<T>, b: Seq<T>, i: nat, i2: nat, j: nat)
    requires
        i <= i2,
    ensures
        edit_distance(a, b, i2, j) <= edit_distance(a, b, i, j) + (i2 - i),
    decreases i2 - i,
{
    if i < i2 {
        lemma_edit_distance_extend_a(a, b, i, (i2 - 1) as nat, j);
    }
}

/// Going `d` steps further along `b` costs at most `d` more.
pub proof fn lemma_edit_distance_extend_b<T>(a: Seq<T>, b: Seq<T>, i: nat, j: nat, j2: nat)
    requires
        j <= j2,
    ensures
        edit_distance(a, b, i, j2) <= edit_distance(a, b, i, j) + (j2 - j),
    decreases j2 - j,
{
    if j < j2 {
        lemma_edit_distance_extend_b(a, b, i, j, (j2 - 1) as nat);
    }
}

/// The distance does not depend on which sequence is taken first.
pub proof fn lemma_edit_distance_symmetric<T>(a: Seq<T>, b: Seq<T>, i: nat, j: nat)
    ensures
        edit_distance(a, b, i, j) == edit_distance(b, a, j, i),
    decreases i + j,
{
    if i > 0 && j > 0 {
        lemma_edit_distance_symmetric(a, b, (i - 1) as nat, j);
        lemma_edit_distance_symmetric(a, b, i, (j - 1) as nat);
        lemma_edit_distance_symmetric(a, b, (i - 1) as nat, (j - 1) as nat);
    }
}

/// A sequence is at distance zero from itself.
pub proof fn lemma_edit_distance_self<T>(a: Seq<T>, i: nat)
    ensures
        edit_distance(a, a, i, i) == 0,
    decreases i,
{
    if i > 0 {
        lemma_edit_distance_self(a, (i - 1) as nat);
    }
}

/// The cost of an optimal alignment is the same in both directions: an
/// optimal trace of `a` against `b` and one of `b` against `a` leave out as
/// many elements.
pub proof fn lemma_cost_symmetric<T>(a: Seq<T>, b: Seq<T>, t1: Seq<(usize, usize)>, t2: Seq<(usize, usize)>)
    requires
        is_optimal_trace(a, b, t1),
        is_optimal_trace(b, a, t2),
    ensures
        (a.len() - t1.len()) + (b.len() - t1.len()) == (b.len() - t2.len()) + (a.len() - t2.len()),
        t1.len() == t2.len(),
{
    lemma_edit_distance_symmetric(a, b, a.len(), b.len());
}

/// Pair `p` of a common trace has coordinates at least `p`.
proof fn lemma_trace_from_start<T>(a: Seq<T>, b: Seq<T>, t: Seq<(usize, usize)>, p: int)
    requires
        is_common_trace(a, b, t),
        0 <= p < t.len(),
    ensures
        t[p].0 >= p,
    decreases p,
{
    if p > 0 {
        lemma_trace_from_start(a, b, t, p - 1);
        assert(t[p - 1].0 < t[p].0);
    }
}

/// Pair `p` of a common trace leaves room for the pairs after it.
proof fn lemma_trace_to_end<T>(a: Seq<T>, b: Seq<T>, t: Seq<(usize, usize)>, p: int)
    requires
        is_common_trace(a, b, t),
        0 <= p < t.len(),
    ensures
        t[p].0 + (t.len() - p) <= a.len(),
        t[p].1 + (t.len() - p) <= b.len(),
    decreases t.len() - p,
{
    if p < t.len() - 1 {
        lemma_trace_to_end(a, b, t, p + 1);
        assert(t[p].0 < t[p + 1].0);
    }
}

/// Two equal sequences align with every element matched to itself: the
/// optimal trace is `(0, 0), (1, 1), ..., (n - 1, n - 1)`.
pub proof fn lemma_identical_trace<T>(a: Seq<T>, t: Seq<(usize, usize)>)
    requires
        is_optimal_trace(a, a, t),
    ensures
        t.len() == a.len(),
        forall|p: int| 0 <= p < t.len() ==> #[trigger] t[p] == (p as usize, p as usize),
{
    lemma_edit_distance_self(a, a.len());
    assert forall|p: int| 0 <= p < t.len() implies #[trigger] t[p] == (p as usize, p as usize) by {
        lemma_trace_from_start(a, a, t, p);
        lemma_trace_to_end(a, a, t, p);
        let swapped = t.map_values(|q: (usize, usize)| (q.1, q.0));
        assert(is_common_trace(a, a, swapped));
        lemma_trace_from_start(a, a, swapped, p);
        assert(swapped[p].0 == t[p].1);
    }
}

} // verus!
