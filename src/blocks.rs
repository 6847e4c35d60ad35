//! The change blocks of an alignment: the runs of unmatched lines that lie
//! before, between and after its matches.
use vstd::prelude::*;

verus! {

/// Lines `x_start .. x_end` of the left sequence give way to lines
/// `y_start .. y_end` of the right one. An empty left range is an addition, an
/// empty right range a deletion, and two nonempty ranges a change.
#[derive(Clone, Copy, Debug, PartialEq, Eq, Structural)]
pub struct Hunk {
    pub x_start: usize,
    pub x_end: usize,
    pub y_start: usize,
    pub y_end: usize,
}

/// Matched pairs below `(n, m)`, strictly increasing in both coordinates.
pub open spec fn is_trace_within(t: Seq<(usize, usize)>, n: usize, m: usize) -> bool {
    &&& forall|p: int| 0 <= p < t.len() ==> (#[trigger] t[p]).0 < n && t[p].1 < m
    &&& forall|p: int| 0 <= p < t.len() - 1 ==> (#[trigger] t[p]).0 < t[p + 1].0 && t[p].1 < t[p + 1].1
}

/// Gap `p` of a trace: from just after match `p - 1` (or from the top) up to
/// match `p` (or to the end).
pub open spec fn gap(t: Seq<(usize, usize)>, n: usize, m: usize, p: int) -> Hunk {
    Hunk {
        x_start: if p == 0 { 0 } else { (t[p - 1].0 + 1) as usize },
        x_end: if p == t.len() { n } else { t[p].0 },
        y_start: if p == 0 { 0 } else { (t[p - 1].1 + 1) as usize },
        y_end: if p == t.len() { m } else { t[p].1 },
    }
}

/// A gap that holds at least one line.
pub open spec fn is_change(h: Hunk) -> bool {
    h.x_start != h.x_end || h.y_start != h.y_end
}

/// The first `count` gaps of a trace that hold a line, in order.
pub open spec fn changes_upto(t: Seq<(usize, usize)>, n: usize, m: usize, count: int) -> Seq<Hunk> {
    Seq::new(count as nat, |p: int| gap(t, n, m, p)).filter(|h: Hunk| is_change(h))
}

proof fn lemma_changes_step(t: Seq<(usize, usize)>, n: usize, m: usize, count: int)
    requires
        count >= 0,
    ensures
        changes_upto(t, n, m, count + 1) == if is_change(gap(t, n, m, count)) {
            changes_upto(t, n, m, count).push(gap(t, n, m, count))
        } else {
            changes_upto(t, n, m, count)
        },
{
    let f = |p: int| gap(t, n, m, p);
    let s = Seq::new(count as nat, f);
    let s1 = Seq::new((count + 1) as nat, f);
    assert(s1.drop_last() =~= s);
    reveal(Seq::filter);
}

/// The change blocks between the matches of `trace`, for sequences of `n` and
/// `m` lines: every gap before, between and after the matches that holds a
/// line, in order.
pub fn change_blocks(trace: &Vec<(usize, usize)>, n: usize, m: usize) -> (r: Vec<Hunk>)
    requires
        is_trace_within(trace@, n, m),
    ensures
        r@ == changes_upto(trace@, n, m, trace@.len() + 1 as int),
{
    let ghost t = trace@;
    let mut r: Vec<Hunk> = Vec::new();
    let mut x: usize = 0;
    let mut y: usize = 0;
    let mut p: usize = 0;
    proof {
        reveal(Seq::filter);
        assert(Seq::new(0, |p: int| gap(t, n, m, p)) =~= Seq::<Hunk>::empty());
    }
    while p < trace.len()
        invariant
            t == trace@,
            is_trace_within(t, n, m),
            p <= t.len(),
            r@ == changes_upto(t, n, m, p as int),
            x == gap(t, n, m, p as int).x_start,
            y == gap(t, n, m, p as int).y_start,
        decreases t.len() - p,
    {
        let (tx, ty) = trace[p];
        let h = Hunk { x_start: x, x_end: tx, y_start: y, y_end: ty };
        proof {
            lemma_changes_step(t, n, m, p as int);
        }
        if x != tx || y != ty {
            r.push(h);
        }
        x = tx + 1;
        y = ty + 1;
        p = p + 1;
    }
    let h = Hunk { x_start: x, x_end: n, y_start: y, y_end: m };
    proof {
        lemma_changes_step(t, n, m, p as int);
    }
    if x != n || y != m {
        r.push(h);
    }
    r
}

} // verus!
