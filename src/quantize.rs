//! The integer side of quantization: compacting delta-encoded arcs, and the
//! checks made before quantizing.

use vstd::prelude::*;
use crate::topology::{Stored, TopoJSON, TopologyError, sum_x, sum_y};

verus! {

/// The deltas among the first `i` of `d`, after the first one, that are not
/// `(0, 0)`.
pub open spec fn moving(d: Seq<Stored>, i: int) -> Seq<Stored>
    decreases i,
{
    if i <= 1 || i > d.len() {
        Seq::empty()
    } else if d[i - 1] == (0i32, 0i32) {
        moving(d, i - 1)
    } else {
        moving(d, i - 1).push(d[i - 1])
    }
}

/// A quantized arc: its first delta, then every later delta that moves; an
/// arc left with one delta gets a `(0, 0)` after it.
pub open spec fn compacted(d: Seq<Stored>) -> Seq<Stored> {
    let k = seq![d[0]] + moving(d, d.len() as int);
    if k.len() == 1 { k.push((0i32, 0i32)) } else { k }
}

/// Drops the deltas of a quantized arc that do not move, but for the first,
/// and pads an arc left with one delta with a `(0, 0)`.
pub fn compact_arc(d: &Vec<Stored>) -> (r: Vec<Stored>)
    requires
        d@.len() >= 1,
    ensures
        r@ == compacted(d@),
        r@.len() >= 2,
{
    let mut r: Vec<Stored> = vec![d[0]];
    let mut i: usize = 1;
    while i < d.len()
        invariant
            1 <= i <= d@.len(),
            r@ == seq![d@[0]] + moving(d@, i as int),
        decreases d@.len() - i,
    {
        let p = d[i];
        if p.0 != 0 || p.1 != 0 {
            r.push(p);
        }
        i = i + 1;
        assert(r@ =~= seq![d@[0]] + moving(d@, i as int));
    }
    if r.len() == 1 {
        r.push((0, 0));
    }
    r
}

proof fn lemma_moving_sums(d: Seq<Stored>, i: int)
    requires
        1 <= i <= d.len(),
    ensures
        sum_x(seq![d[0]] + moving(d, i), (1 + moving(d, i).len()) as int) == sum_x(d, i),
        sum_y(seq![d[0]] + moving(d, i), (1 + moving(d, i).len()) as int) == sum_y(d, i),
    decreases i,
{
    if i > 1 {
        lemma_moving_sums(d, i - 1);
        let m0 = moving(d, i - 1);
        let s0 = seq![d[0]] + m0;
        let m1 = moving(d, i);
        let s1 = seq![d[0]] + m1;
        assert(sum_x(d, i) == sum_x(d, i - 1) + d[i - 1].0);
        assert(sum_y(d, i) == sum_y(d, i - 1) + d[i - 1].1);
        assert(s0.len() == 1 + m0.len());
        assert(s1.len() == 1 + m1.len());
        if d[i - 1] != (0i32, 0i32) {
            assert(m1 == m0.push(d[i - 1]));
            assert(s1 =~= s0.push(d[i - 1]));
            lemma_sum_prefix(s1, s0, s0.len() as int);
            assert(s1[s0.len() as int] == d[i - 1]);
            assert(sum_x(s1, s1.len() as int) == sum_x(s1, s0.len() as int) + d[i - 1].0);
            assert(sum_y(s1, s1.len() as int) == sum_y(s1, s0.len() as int) + d[i - 1].1);
        } else {
            assert(m1 == m0);
            assert(s1 == s0);
            assert(d[i - 1].0 == 0 && d[i - 1].1 == 0);
        }
    } else {
        let s = seq![d[0]] + moving(d, 1);
        assert(moving(d, 1) == Seq::<Stored>::empty());
        assert(s[0] == d[0]);
        assert(sum_x(s, 1) == sum_x(s, 0) + d[0].0);
        assert(sum_y(s, 1) == sum_y(s, 0) + d[0].1);
        assert(sum_x(d, 1) == sum_x(d, 0) + d[0].0);
        assert(sum_y(d, 1) == sum_y(d, 0) + d[0].1);
        assert(s.len() == 1);
    }
}

proof fn lemma_sum_prefix(s: Seq<Stored>, t: Seq<Stored>, i: int)
    requires
        0 <= i <= t.len() <= s.len(),
        forall|k: int| 0 <= k < t.len() ==> s[k] == t[k],
    ensures
        sum_x(s, i) == sum_x(t, i),
        sum_y(s, i) == sum_y(t, i),
    decreases i,
{
    if i > 0 {
        lemma_sum_prefix(s, t, i - 1);
    }
}

/// Compacting a quantized arc keeps where it ends: the deltas that it drops
/// do not move.
pub proof fn lemma_compact_keeps_end(d: Seq<Stored>)
    requires
        d.len() >= 1,
    ensures
        sum_x(compacted(d), compacted(d).len() as int) == sum_x(d, d.len() as int),
        sum_y(compacted(d), compacted(d).len() as int) == sum_y(d, d.len() as int),
{
    lemma_moving_sums(d, d.len() as int);
    let k = seq![d[0]] + moving(d, d.len() as int);
    if k.len() == 1 {
        let c = k.push((0i32, 0i32));
        lemma_sum_prefix(c, k, 1);
    }
}

impl<P, M> TopoJSON<P, M> {
    /// Checks that the topology may be quantized at resolution `n` (the
    /// floored resolution, `None` when it is not a number).
    pub fn quantize_resolution(&self, n: Option<i64>) -> (r: Result<i64, TopologyError>)
        ensures
            self.delta_encoded ==> r == Err::<i64, TopologyError>(TopologyError::QuantizeAlreadyQuantized),
            !self.delta_encoded && (n is None || n->0 < 2) ==> r == Err::<i64, TopologyError>(TopologyError::QuantizeBadN),
            !self.delta_encoded && n is Some && n->0 >= 2 ==> r == Ok::<i64, TopologyError>(n->0),
    {
        if self.delta_encoded {
            return Err(TopologyError::QuantizeAlreadyQuantized);
        }
        match n {
            Some(v) => if v >= 2 { Ok(v) } else { Err(TopologyError::QuantizeBadN) },
            None => Err(TopologyError::QuantizeBadN),
        }
    }
}

/// `v` clamped to the range of `i32`.
pub open spec fn clamp32(v: int) -> i32 {
    if v < i32::MIN { i32::MIN } else if v > i32::MAX { i32::MAX } else { v as i32 }
}

/// The delta of grid cell `k` from the one before it (from the origin for the
/// first), each component clamped to `i32`.
pub open spec fn grid_delta(cells: Seq<(i64, i64)>, k: int) -> Stored {
    let prev = if k == 0 { (0i64, 0i64) } else { cells[k - 1] };
    (clamp32(cells[k].0 - prev.0), clamp32(cells[k].1 - prev.1))
}

fn clamp(v: i128) -> (r: i32)
    ensures
        r == clamp32(v as int),
{
    if v < i32::MIN as i128 {
        i32::MIN
    } else if v > i32::MAX as i128 {
        i32::MAX
    } else {
        v as i32
    }
}

/// Delta-encodes the grid cells of an arc: each cell as its difference from
/// the one before, the first from the origin.
pub fn delta_encode(cells: &Vec<(i64, i64)>) -> (r: Vec<Stored>)
    ensures
        r@ == Seq::new(cells@.len(), |k: int| grid_delta(cells@, k)),
{
    let mut r: Vec<Stored> = Vec::new();
    let mut k: usize = 0;
    while k < cells.len()
        invariant
            k <= cells@.len(),
            r@ == Seq::new(k as nat, |j: int| grid_delta(cells@, j)),
        decreases cells@.len() - k,
    {
        let (px, py) = if k == 0 { (0i64, 0i64) } else { cells[k - 1] };
        let (x, y) = cells[k];
        let d = (clamp(x as i128 - px as i128), clamp(y as i128 - py as i128));
        r.push(d);
        k = k + 1;
        assert(r@ =~= Seq::new(k as nat, |j: int| grid_delta(cells@, j)));
    }
    r
}

/// Compacts each quantized arc.
pub fn compact_arcs(arcs: &Vec<Vec<Stored>>) -> (r: Vec<Vec<Stored>>)
    requires
        forall|j: int| 0 <= j < arcs@.len() ==> (#[trigger] arcs@[j])@.len() >= 1,
    ensures
        r@.len() == arcs@.len(),
        forall|j: int| 0 <= j < arcs@.len() ==> (#[trigger] r@[j])@ == compacted(arcs@[j]@),
{
    let mut r: Vec<Vec<Stored>> = Vec::new();
    let mut j: usize = 0;
    while j < arcs.len()
        invariant
            forall|j: int| 0 <= j < arcs@.len() ==> (#[trigger] arcs@[j])@.len() >= 1,
            j <= arcs@.len(),
            r@.len() == j,
            forall|k: int| 0 <= k < j ==> (#[trigger] r@[k])@ == compacted(arcs@[k]@),
        decreases arcs@.len() - j,
    {
        let c = compact_arc(&arcs[j]);
        r.push(c);
        j = j + 1;
    }
    r
}

} // verus!
