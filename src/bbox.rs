//! The extent of a topology's arcs in the stored grid.

use vstd::prelude::*;
use crate::feature::decode_arc;
use crate::topology::{Position, Stored, TopoJSON, arc_bounded, decoded};

verus! {

/// An axis-aligned box in the stored grid: `(x0, y0, x1, y1)`.
pub type Extent = (i64, i64, i64, i64);

pub open spec fn min(a: i64, b: i64) -> i64 {
    if a <= b { a } else { b }
}

pub open spec fn max(a: i64, b: i64) -> i64 {
    if a >= b { a } else { b }
}

/// The smallest box holding both boxes; no box stands for the empty set.
pub open spec fn union(a: Option<Extent>, b: Option<Extent>) -> Option<Extent> {
    match (a, b) {
        (None, _) => b,
        (_, None) => a,
        (Some(p), Some(q)) => Some((min(p.0, q.0), min(p.1, q.1), max(p.2, q.2), max(p.3, q.3))),
    }
}

/// The box of a single position.
pub open spec fn point_extent(p: Position) -> Option<Extent> {
    Some((p.0, p.1, p.0, p.1))
}

/// The box of the first `i` positions of `pts`.
pub open spec fn points_extent(pts: Seq<Position>, i: int) -> Option<Extent>
    decreases i,
{
    if i <= 0 || i > pts.len() {
        None
    } else {
        union(points_extent(pts, i - 1), point_extent(pts[i - 1]))
    }
}

/// The box of the decoded positions of the first `i` arcs.
pub open spec fn arcs_extent(arcs: Seq<Seq<Stored>>, delta: bool, i: int) -> Option<Extent>
    decreases i,
{
    if i <= 0 || i > arcs.len() {
        None
    } else {
        let d = decoded(arcs[i - 1], delta);
        union(arcs_extent(arcs, delta, i - 1), points_extent(d, d.len() as int))
    }
}

/// The box of every decoded position of every arc.
pub open spec fn extent_of(arcs: Seq<Seq<Stored>>, delta: bool) -> Option<Extent> {
    arcs_extent(arcs, delta, arcs.len() as int)
}

fn union_extent(a: Option<Extent>, b: Option<Extent>) -> (r: Option<Extent>)
    ensures
        r == union(a, b),
{
    match (a, b) {
        (None, _) => b,
        (_, None) => a,
        (Some(p), Some(q)) => Some((
            if p.0 <= q.0 { p.0 } else { q.0 },
            if p.1 <= q.1 { p.1 } else { q.1 },
            if p.2 >= q.2 { p.2 } else { q.2 },
            if p.3 >= q.3 { p.3 } else { q.3 },
        )),
    }
}

proof fn lemma_union_assoc(a: Option<Extent>, b: Option<Extent>, c: Option<Extent>)
    ensures
        union(union(a, b), c) == union(a, union(b, c)),
{
}

/// The box of the arcs `a` followed by the arcs `b` is the smallest box
/// holding the box of `a` and the box of `b`.
pub proof fn lemma_extent_union(a: Seq<Seq<Stored>>, b: Seq<Seq<Stored>>, delta: bool)
    ensures
        extent_of(a + b, delta) == union(extent_of(a, delta), extent_of(b, delta)),
    decreases b.len(),
{
    if b.len() == 0 {
        assert(a + b =~= a);
    } else {
        let b0 = b.drop_last();
        lemma_extent_union(a, b0, delta);
        assert((a + b).drop_last() =~= a + b0);
        lemma_arcs_extent_prefix(a + b, a + b0, delta, (a + b0).len() as int);
        lemma_arcs_extent_prefix(b, b0, delta, b0.len() as int);
        let d = decoded(b.last(), delta);
        assert((a + b)[(a + b).len() - 1] == b.last());
        lemma_union_assoc(extent_of(a, delta), extent_of(b0, delta), points_extent(d, d.len() as int));
    }
}

proof fn lemma_arcs_extent_prefix(s: Seq<Seq<Stored>>, t: Seq<Seq<Stored>>, delta: bool, i: int)
    requires
        0 <= i <= t.len() <= s.len(),
        forall|k: int| 0 <= k < t.len() ==> s[k] == t[k],
    ensures
        arcs_extent(s, delta, i) == arcs_extent(t, delta, i),
    decreases i,
{
    if i > 0 {
        lemma_arcs_extent_prefix(s, t, delta, i - 1);
    }
}

impl<P, M> TopoJSON<P, M> {
    /// The box of every decoded arc position, in the stored grid; `None` when
    /// there are no arcs.
    pub fn arcs_extent(&self) -> (r: Option<Extent>)
        requires
            self.arcs_wf(),
        ensures
            r == extent_of(self.arc_seqs(), self.delta_encoded),
    {
        let mut r: Option<Extent> = None;
        let mut j: usize = 0;
        while j < self.arcs.len()
            invariant
                self.arcs_wf(),
                j <= self.arcs@.len(),
                r == arcs_extent(self.arc_seqs(), self.delta_encoded, j as int),
            decreases self.arcs@.len() - j,
        {
            assert(self.arc_seqs()[j as int] == self.arcs@[j as int]@);
            let d = decode_arc(&self.arcs[j], self.delta_encoded);
            let mut e: Option<Extent> = None;
            let mut k: usize = 0;
            while k < d.len()
                invariant
                    k <= d@.len(),
                    e == points_extent(d@, k as int),
                decreases d@.len() - k,
            {
                let p = d[k];
                e = union_extent(e, Some((p.0, p.1, p.0, p.1)));
                k = k + 1;
            }
            r = union_extent(r, e);
            j = j + 1;
        }
        r
    }
}

} // verus!
