//! Merging polygons along their shared arcs.

use vstd::prelude::*;
use crate::feature::{ring_coords, lemma_ring_fits, positions_fit};
use crate::topology::{Geometry, Position, Stored, fits_i32, arc_bounded, TopoJSON, canonical, indices_valid, members_valid, lemma_member_valid, geometry_valid, paths_valid, path_valid};
use crate::stitch::{chained, chains_sound, covers, stitch_paths, chain_views};

verus! {

/// The arc lists of a polygon's rings.
pub type Rings = Seq<Seq<i32>>;

pub open spec fn rings_view(p: Seq<Vec<i32>>) -> Rings {
    p.map_values(|r: Vec<i32>| r@)
}

pub open spec fn polygons_view(v: Seq<Vec<Vec<i32>>>) -> Seq<Rings> {
    v.map_values(|p: Vec<Vec<i32>>| rings_view(p@))
}

/// The polygons of `g`, in order: its own rings when it is a polygon, one
/// entry per member of a multipolygon, those of each member of a collection.
pub open spec fn polygons_of<P, M>(g: Geometry<P, M>) -> Seq<Rings>
    decreases g, 0int,
{
    match g {
        Geometry::GeometryCollection { geometries, .. } => members_polygons(geometries@, geometries@.len() as int),
        Geometry::Polygon { arcs, .. } => seq![rings_view(arcs@)],
        Geometry::MultiPolygon { arcs, .. } => polygons_view(arcs@),
        _ => Seq::empty(),
    }
}

/// The polygons of the first `i` members of `gs`.
pub open spec fn members_polygons<P, M>(gs: Seq<Geometry<P, M>>, i: int) -> Seq<Rings>
    decreases gs, i,
{
    if i <= 0 || i > gs.len() {
        Seq::empty()
    } else {
        members_polygons(gs, i - 1) + polygons_of(gs[i - 1])
    }
}

/// A copy of a polygon's ring lists.
fn copy_rings(p: &Vec<Vec<i32>>) -> (r: Vec<Vec<i32>>)
    ensures
        rings_view(r@) == rings_view(p@),
{
    let mut r: Vec<Vec<i32>> = Vec::new();
    let mut k: usize = 0;
    while k < p.len()
        invariant
            k <= p@.len(),
            r@.len() == k,
            forall|j: int| 0 <= j < k ==> #[trigger] r@[j]@ == p@[j]@,
        decreases p@.len() - k,
    {
        let ring = crate::stitch::copy_path(&p[k]);
        r.push(ring);
        k = k + 1;
    }
    assert(rings_view(r@) =~= rings_view(p@));
    r
}

/// Appends the polygons of `g` to `out`.
fn collect_polygons<P, M>(g: &Geometry<P, M>, out: &mut Vec<Vec<Vec<i32>>>)
    ensures
        polygons_view(final(out)@) == polygons_view(old(out)@) + polygons_of(*g),
    decreases g, 1int,
{
    match g {
        Geometry::GeometryCollection { geometries, .. } => {
            collect_members(geometries, out);
        },
        Geometry::Polygon { arcs, .. } => {
            let p = copy_rings(arcs);
            out.push(p);
            assert(polygons_view(out@) =~= polygons_view(old(out)@) + polygons_of(*g));
        },
        Geometry::MultiPolygon { arcs, .. } => {
            let ghost base = old(out)@;
            let mut k: usize = 0;
            while k < arcs.len()
                invariant
                    k <= arcs@.len(),
                    out@.len() == base.len() + k,
                    forall|j: int| 0 <= j < base.len() ==> #[trigger] out@[j] == base[j],
                    forall|j: int| 0 <= j < k ==> rings_view(#[trigger] out@[base.len() + j]@) == rings_view(arcs@[j]@),
                decreases arcs@.len() - k,
            {
                let p = copy_rings(&arcs[k]);
                out.push(p);
                assert(out@[base.len() + k] == p);
                k = k + 1;
            }
            assert forall|j: int| 0 <= j < out@.len() implies #[trigger] polygons_view(out@)[j] == (polygons_view(base) + polygons_view(arcs@))[j] by {
                if j >= base.len() {
                    assert(out@[base.len() + (j - base.len())] == out@[j]);
                }
            }
            assert(polygons_view(out@) =~= polygons_view(old(out)@) + polygons_of(*g));
        },
        _ => {
            assert(polygons_view(out@) =~= polygons_view(old(out)@) + polygons_of(*g));
        },
    }
}

/// Appends the polygons of each geometry of `gs` to `out`.
fn collect_members<P, M>(gs: &Vec<Geometry<P, M>>, out: &mut Vec<Vec<Vec<i32>>>)
    ensures
        polygons_view(final(out)@) == polygons_view(old(out)@) + members_polygons(gs@, gs@.len() as int),
    decreases gs, 0int,
{
    let mut k: usize = 0;
    while k < gs.len()
        invariant
            k <= gs@.len(),
            polygons_view(out@) == polygons_view(old(out)@) + members_polygons(gs@, k as int),
        decreases gs@.len() - k,
    {
        proof {
            assert(decreases_to!(gs => gs@));
            assert(decreases_to!(gs@ => gs@[k as int]));
        }
        collect_polygons(&gs[k], out);
        k = k + 1;
        assert(polygons_view(out@) =~= polygons_view(old(out)@) + members_polygons(gs@, k as int));
    }
}

/// How many of the first `q` arcs of a ring name the canonical arc `c`.
pub open spec fn path_count(r: Seq<i32>, c: int, q: int) -> nat
    decreases q,
{
    if q <= 0 || q > r.len() {
        0
    } else {
        path_count(r, c, q - 1) + if canonical(r[q - 1]) == c { 1nat } else { 0nat }
    }
}

/// How many times the first `i` rings of a polygon name the canonical arc `c`.
pub open spec fn rings_count(p: Rings, c: int, i: int) -> nat
    decreases i,
{
    if i <= 0 || i > p.len() {
        0
    } else {
        rings_count(p, c, i - 1) + path_count(p[i - 1], c, p[i - 1].len() as int)
    }
}

/// How many of the first `i` polygons have a ring that names the canonical
/// arc `c`.
pub open spec fn polys_count(ps: Seq<Rings>, c: int, i: int) -> nat
    decreases i,
{
    if i <= 0 || i > ps.len() {
        0
    } else {
        polys_count(ps, c, i - 1) + if rings_count(ps[i - 1], c, ps[i - 1].len() as int) > 0 { 1nat } else { 0nat }
    }
}

/// How many polygons of `ps` have a ring that names the canonical arc `c`.
pub open spec fn occurrences(ps: Seq<Rings>, c: int) -> nat {
    polys_count(ps, c, ps.len() as int)
}

pub open spec fn capped(v: nat) -> nat {
    if v < 2 { v } else { 2 }
}

/// Counts, for each of `n` arcs, how many polygons name it, stopping at two.
fn count_arcs(polys: &Vec<Vec<Vec<i32>>>, n: usize) -> (counts: Vec<usize>)
    requires
        forall|p: int, r: int| 0 <= p < polys@.len() && 0 <= r < polys@[p]@.len()
            ==> indices_valid(#[trigger] polys@[p]@[r]@, n as int),
    ensures
        counts@.len() == n,
        forall|c: int| 0 <= c < n ==> #[trigger] counts@[c] == capped(occurrences(polygons_view(polys@), c)),
{
    let ghost ps = polygons_view(polys@);
    let mut counts: Vec<usize> = Vec::new();
    // The polygon (plus one) that last counted each arc.
    let mut mark: Vec<usize> = Vec::new();
    let mut c: usize = 0;
    while c < n
        invariant
            c <= n,
            counts@.len() == c,
            mark@.len() == c,
            forall|j: int| 0 <= j < c ==> #[trigger] counts@[j] == 0,
            forall|j: int| 0 <= j < c ==> #[trigger] mark@[j] == 0,
        decreases n - c,
    {
        counts.push(0);
        mark.push(0);
        c = c + 1;
    }
    let mut p: usize = 0;
    while p < polys.len()
        invariant
            ps == polygons_view(polys@),
            forall|p: int, r: int| 0 <= p < polys@.len() && 0 <= r < polys@[p]@.len()
                ==> indices_valid(#[trigger] polys@[p]@[r]@, n as int),
            p <= polys@.len(),
            counts@.len() == n,
            mark@.len() == n,
            forall|c: int| 0 <= c < n ==> #[trigger] counts@[c] == capped(polys_count(ps, c, p as int)),
            forall|c: int| 0 <= c < n ==> #[trigger] mark@[c] <= p,
        decreases polys@.len() - p,
    {
        let ghost rings = ps[p as int];
        assert(rings == rings_view(polys@[p as int]@));
        let mut r: usize = 0;
        while r < polys[p].len()
            invariant
                ps == polygons_view(polys@),
                rings == ps[p as int],
                rings == rings_view(polys@[p as int]@),
                forall|p: int, r: int| 0 <= p < polys@.len() && 0 <= r < polys@[p]@.len()
                    ==> indices_valid(#[trigger] polys@[p]@[r]@, n as int),
                p < polys@.len(),
                r <= polys@[p as int]@.len(),
                counts@.len() == n,
                mark@.len() == n,
                forall|c: int| 0 <= c < n ==> #[trigger] counts@[c] == capped(
                    polys_count(ps, c, p as int) + if rings_count(rings, c, r as int) > 0 { 1nat } else { 0nat }),
                forall|c: int| 0 <= c < n ==> #[trigger] mark@[c] <= p + 1
                    && (mark@[c] == p + 1 <==> rings_count(rings, c, r as int) > 0),
            decreases polys@[p as int]@.len() - r,
        {
            let ghost ring = rings[r as int];
            assert(ring == polys@[p as int]@[r as int]@);
            assert(indices_valid(polys@[p as int]@[r as int]@, n as int));
            let np = polys.len();
            let mut q: usize = 0;
            while q < polys[p][r].len()
                invariant
                    ring == polys@[p as int]@[r as int]@,
                    indices_valid(ring, n as int),
                    rings == ps[p as int],
                    p < polys@.len(),
                    polys@.len() == np,
                    r < polys@[p as int]@.len(),
                    q <= ring.len(),
                    counts@.len() == n,
                    mark@.len() == n,
                    forall|c: int| 0 <= c < n ==> #[trigger] counts@[c] == capped(
                        polys_count(ps, c, p as int)
                            + if rings_count(rings, c, r as int) + path_count(ring, c, q as int) > 0 { 1nat } else { 0nat }),
                    forall|c: int| 0 <= c < n ==> #[trigger] mark@[c] <= p + 1
                        && (mark@[c] == p + 1 <==> rings_count(rings, c, r as int) + path_count(ring, c, q as int) > 0),
                decreases ring.len() - q,
            {
                let a = polys[p][r][q];
                assert(canonical(ring[q as int]) < n);
                let c = crate::feature::arc_slot(a);
                if mark[c] != p + 1 {
                    mark.set(c, p + 1);
                    if counts[c] < 2 {
                        counts.set(c, counts[c] + 1);
                    }
                }
                q = q + 1;
            }
            r = r + 1;
        }
        p = p + 1;
    }
    counts
}

/// Twice the signed area of the triangle spanned by the origin, `a` and `b`.
pub open spec fn cross(a: Position, b: Position) -> int {
    a.0 as int * b.1 as int - a.1 as int * b.0 as int
}

/// The position before the `k`-th one, the last one coming before the first.
pub open spec fn prev_position(pts: Seq<Position>, k: int) -> Position {
    if k == 0 { pts.last() } else { pts[k - 1] }
}

/// The shoelace sum over the first `k` edges of a closed ring of positions.
pub open spec fn shoelace(pts: Seq<Position>, k: int) -> int
    decreases k,
{
    if k <= 0 || k > pts.len() {
        0
    } else {
        shoelace(pts, k - 1) + cross(prev_position(pts, k - 1), pts[k - 1])
    }
}

pub open spec fn abs(v: int) -> int {
    if v < 0 { -v } else { v }
}

/// Twice the planar area of the ring through the arcs `idx`, in the stored grid.
pub open spec fn ring_area(arcs: Seq<Seq<Stored>>, delta: bool, idx: Seq<i32>) -> int {
    let pts = ring_coords(arcs, delta, idx);
    abs(shoelace(pts, pts.len() as int))
}

proof fn lemma_cross_bound(a: Position, b: Position)
    requires
        fits_i32(a.0 as int), fits_i32(a.1 as int), fits_i32(b.0 as int), fits_i32(b.1 as int),
    ensures
        -0x4000_0000_0000_0000 <= a.0 as int * b.1 as int <= 0x4000_0000_0000_0000,
        -0x4000_0000_0000_0000 <= a.1 as int * b.0 as int <= 0x4000_0000_0000_0000,
        -0x8000_0000_0000_0000 <= cross(a, b) <= 0x8000_0000_0000_0000,
{
    let (x0, y0, x1, y1) = (a.0 as int, a.1 as int, b.0 as int, b.1 as int);
    assert(-0x4000_0000_0000_0000 <= x0 * y1 <= 0x4000_0000_0000_0000) by (nonlinear_arith)
        requires -0x8000_0000 <= x0 <= 0x8000_0000, -0x8000_0000 <= y1 <= 0x8000_0000;
    assert(-0x4000_0000_0000_0000 <= y0 * x1 <= 0x4000_0000_0000_0000) by (nonlinear_arith)
        requires -0x8000_0000 <= y0 <= 0x8000_0000, -0x8000_0000 <= x1 <= 0x8000_0000;
}

impl<P, M> TopoJSON<P, M> {
    /// Twice the planar area of the ring through the arcs `idx` (the absolute
    /// shoelace sum of its positions in the stored grid).
    pub fn ring_area(&self, idx: &Vec<i32>) -> (r: i128)
        requires
            self.arcs_wf(),
            path_valid(idx@, self.arcs@.len() as int),
        ensures
            r as int == ring_area(self.arc_seqs(), self.delta_encoded, idx@),
    {
        let ring = self.ring(idx);
        proof {
            let arcs = self.arc_seqs();
            assert forall|k: int| 0 <= k < idx@.len() implies canonical(#[trigger] idx@[k]) < arcs.len()
                && arcs[canonical(idx@[k])].len() >= 1 && arc_bounded(arcs[canonical(idx@[k])], self.delta_encoded) by {
                assert(arcs[canonical(idx@[k])] == self.arcs@[canonical(idx@[k])]@);
            }
            lemma_ring_fits(arcs, self.delta_encoded, idx@);
        }
        let n = ring.len();
        let mut acc: i128 = 0;
        let mut k: usize = 0;
        while k < n
            invariant
                n == ring@.len(),
                n >= 4,
                positions_fit(ring@),
                k <= n,
                acc as int == shoelace(ring@, k as int),
                -(k as int) * 0x8000_0000_0000_0000 <= acc <= (k as int) * 0x8000_0000_0000_0000,
            decreases n - k,
        {
            let a = if k == 0 { ring[n - 1] } else { ring[k - 1] };
            let b = ring[k];
            proof {
                assert(a == prev_position(ring@, k as int));
                lemma_cross_bound(a, b);
                assert((k as int + 1) * 0x8000_0000_0000_0000 <= 0x7fff_ffff_ffff_ffff_8000_0000_0000_0000) by (nonlinear_arith)
                    requires k < n, n <= 0xffff_ffff_ffff_ffff;
                assert((k as int + 1) * 0x8000_0000_0000_0000 == (k as int) * 0x8000_0000_0000_0000 + 0x8000_0000_0000_0000) by (nonlinear_arith);
            }
            let t = (a.0 as i128) * (b.1 as i128) - (a.1 as i128) * (b.0 as i128);
            acc = acc + t;
            k = k + 1;
        }
        if acc < 0 { -acc } else { acc }
    }
}

/// `a` is one of the arcs of the rings of the polygons `ps`.
pub open spec fn polygon_arc(ps: Seq<Rings>, a: i32) -> bool {
    exists|p: int, r: int, q: int|
        0 <= p < ps.len() && 0 <= r < ps[p].len() && 0 <= q < ps[p][r].len() && #[trigger] ps[p][r][q] == a
}

/// Some ring of some polygon of `m` holds an arc whose canonical index is `c`.
pub open spec fn multi_covers(m: Seq<Vec<Vec<i32>>>, c: int) -> bool {
    exists|p: int, r: int, q: int|
        0 <= p < m.len() && 0 <= r < m[p]@.len() && 0 <= q < m[p]@[r]@.len()
            && canonical(#[trigger] m[p]@[r]@[q]) == c
}

/// Every arc of polygon `p` that no other polygon names is either in the
/// result already or in the boundary list of the current group.
spec fn listed(ps: Seq<Rings>, p: int, result: Seq<Vec<Vec<i32>>>, group: Seq<i32>) -> bool {
    forall|r: int, q: int| 0 <= r < ps[p].len() && 0 <= q < ps[p][r].len()
        && occurrences(ps, canonical(#[trigger] ps[p][r][q])) < 2
        ==> multi_covers(result, canonical(ps[p][r][q])) || group.contains(ps[p][r][q])
}

/// The number of `true` among the first `i` flags.
spec fn count_true(s: Seq<bool>, i: int) -> nat
    decreases i,
{
    if i <= 0 || i > s.len() {
        0
    } else {
        count_true(s, i - 1) + if s[i - 1] { 1nat } else { 0nat }
    }
}

proof fn lemma_count_true_bound(s: Seq<bool>, i: int)
    requires
        0 <= i <= s.len(),
    ensures
        count_true(s, i) <= i,
    decreases i,
{
    if i > 0 {
        lemma_count_true_bound(s, i - 1);
    }
}

proof fn lemma_count_true_flip(s: Seq<bool>, j: int, i: int)
    requires
        0 <= j < s.len(),
        !s[j],
        0 <= i <= s.len(),
    ensures
        count_true(s.update(j, true), i) == count_true(s, i) + if j < i { 1nat } else { 0nat },
    decreases i,
{
    if i > 0 {
        lemma_count_true_flip(s, j, i - 1);
    }
}

proof fn lemma_path_count_pos(r: Seq<i32>, c: int, q: int, i: int)
    requires
        0 <= q < i <= r.len(),
        canonical(r[q]) == c,
    ensures
        path_count(r, c, i) >= 1,
    decreases i,
{
    if q < i - 1 {
        lemma_path_count_pos(r, c, q, i - 1);
    }
}

proof fn lemma_rings_count_ge(p: Rings, c: int, r: int, i: int)
    requires
        0 <= r < i <= p.len(),
    ensures
        rings_count(p, c, i) >= path_count(p[r], c, p[r].len() as int),
    decreases i,
{
    if r < i - 1 {
        lemma_rings_count_ge(p, c, r, i - 1);
    }
}

proof fn lemma_polys_count_ge(ps: Seq<Rings>, c: int, p: int, i: int)
    requires
        0 <= p < i <= ps.len(),
    ensures
        polys_count(ps, c, i) >= if rings_count(ps[p], c, ps[p].len() as int) > 0 { 1nat } else { 0nat },
    decreases i,
{
    if p < i - 1 {
        lemma_polys_count_ge(ps, c, p, i - 1);
    }
}

proof fn lemma_polys_count_two(ps: Seq<Rings>, c: int, p1: int, p2: int, i: int)
    requires
        0 <= p1 < p2 < i <= ps.len(),
    ensures
        polys_count(ps, c, i) >= (if rings_count(ps[p1], c, ps[p1].len() as int) > 0 { 1nat } else { 0nat })
            + (if rings_count(ps[p2], c, ps[p2].len() as int) > 0 { 1nat } else { 0nat }),
    decreases i,
{
    if p2 < i - 1 {
        lemma_polys_count_two(ps, c, p1, p2, i - 1);
    } else {
        lemma_polys_count_ge(ps, c, p1, i - 1);
    }
}

/// An arc that the rings of two different polygons name is counted twice.
pub proof fn lemma_two_polygons_count(ps: Seq<Rings>, c: int, p1: int, p2: int)
    requires
        0 <= p1 < ps.len(),
        0 <= p2 < ps.len(),
        p1 != p2,
        names_poly(ps[p1], c),
        names_poly(ps[p2], c),
    ensures
        occurrences(ps, c) >= 2,
{
    let (a, b) = choose|a: int, b: int| 0 <= a < ps[p1].len() && 0 <= b < ps[p1][a].len() && canonical(#[trigger] ps[p1][a][b]) == c;
    let (a2, b2) = choose|a: int, b: int| 0 <= a < ps[p2].len() && 0 <= b < ps[p2][a].len() && canonical(#[trigger] ps[p2][a][b]) == c;
    lemma_path_count_pos(ps[p1][a], c, b, ps[p1][a].len() as int);
    lemma_rings_count_ge(ps[p1], c, a, ps[p1].len() as int);
    lemma_path_count_pos(ps[p2][a2], c, b2, ps[p2][a2].len() as int);
    lemma_rings_count_ge(ps[p2], c, a2, ps[p2].len() as int);
    if p1 < p2 {
        lemma_polys_count_two(ps, c, p1, p2, ps.len() as int);
    } else {
        lemma_polys_count_two(ps, c, p2, p1, ps.len() as int);
    }
}

/// An arc of a polygon is counted at least once.
proof fn lemma_occurs(ps: Seq<Rings>, p: int, r: int, q: int)
    requires
        0 <= p < ps.len(),
        0 <= r < ps[p].len(),
        0 <= q < ps[p][r].len(),
    ensures
        occurrences(ps, canonical(ps[p][r][q])) >= 1,
{
    let c = canonical(ps[p][r][q]);
    lemma_path_count_pos(ps[p][r], c, q, ps[p][r].len() as int);
    lemma_rings_count_ge(ps[p], c, r, ps[p].len() as int);
    lemma_polys_count_ge(ps, c, p, ps.len() as int);
}

/// Every ring of every polygon of a valid geometry is a valid arc list.
pub open spec fn rings_valid(ps: Seq<Rings>, n: int) -> bool {
    forall|p: int, r: int| 0 <= p < ps.len() && 0 <= r < ps[p].len() ==> path_valid(#[trigger] ps[p][r], n)
}

proof fn lemma_polygons_valid<P, M>(g: Geometry<P, M>, n: int)
    requires
        geometry_valid(g, n),
    ensures
        rings_valid(polygons_of(g), n),
    decreases g, 1int,
{
    match g {
        Geometry::GeometryCollection { geometries, .. } => {
            assert(decreases_to!(g => g->geometries));
            lemma_members_polygons_valid(geometries, n, geometries@.len() as int);
        },
        Geometry::Polygon { arcs, .. } => {
            assert forall|p: int, r: int| 0 <= p < polygons_of(g).len() && 0 <= r < polygons_of(g)[p].len()
                implies path_valid(#[trigger] polygons_of(g)[p][r], n) by {
                assert(path_valid(arcs@[r]@, n));
            }
        },
        Geometry::MultiPolygon { arcs, .. } => {
            assert forall|p: int, r: int| 0 <= p < polygons_of(g).len() && 0 <= r < polygons_of(g)[p].len()
                implies path_valid(#[trigger] polygons_of(g)[p][r], n) by {
                assert(paths_valid(arcs@[p]@, n));
                assert(path_valid(arcs@[p]@[r]@, n));
            }
        },
        _ => {},
    }
}

/// The rings of a merge of valid polygons are valid arc lists.
pub(crate) proof fn lemma_merged_valid(arcs: Seq<Seq<Stored>>, delta: bool, ps: Seq<Rings>, n: int, result: Seq<Vec<Vec<i32>>>)
    requires
        rings_valid(ps, n),
        merged_sound(arcs, delta, ps, result),
    ensures
        forall|p: int, r: int| 0 <= p < result.len() && 0 <= r < result[p]@.len()
            ==> path_valid(#[trigger] result[p]@[r]@, n),
{
    assert forall|p: int, r: int| 0 <= p < result.len() && 0 <= r < result[p]@.len()
        implies path_valid(#[trigger] result[p]@[r]@, n) by {
        assert(merged_polygon(arcs, delta, ps, result[p]@));
        let ring = result[p]@[r]@;
        assert forall|q: int| 0 <= q < ring.len() implies canonical(#[trigger] ring[q]) < n by {
            assert(boundary_arc(ps, ring[q]));
            let (a, b, c) = choose|a: int, b: int, c: int| 0 <= a < ps.len() && 0 <= b < ps[a].len()
                && 0 <= c < ps[a][b].len() && #[trigger] ps[a][b][c] == ring[q];
            assert(path_valid(ps[a][b], n));
        }
    }
}

/// The rings of the polygons of valid objects are valid arc lists.
pub(crate) proof fn lemma_objects_rings_valid<P, M>(objects: Vec<Geometry<P, M>>, n: int)
    requires
        members_valid(objects@, n, objects@.len() as int),
    ensures
        rings_valid(members_polygons(objects@, objects@.len() as int), n),
{
    lemma_members_polygons_valid(objects, n, objects@.len() as int);
}

proof fn lemma_members_polygons_valid<P, M>(gs: Vec<Geometry<P, M>>, n: int, i: int)
    requires
        members_valid(gs@, n, i),
        0 <= i <= gs@.len(),
    ensures
        rings_valid(members_polygons(gs@, i), n),
    decreases gs, 0int, i,
{
    if i > 0 {
        lemma_members_polygons_valid(gs, n, i - 1);
        assert(decreases_to!(gs => gs@));
        assert(decreases_to!(gs@ => gs@[i - 1]));
        lemma_polygons_valid(gs@[i - 1], n);
        let a = members_polygons(gs@, i - 1);
        let b = polygons_of(gs@[i - 1]);
        assert forall|p: int, r: int| 0 <= p < (a + b).len() && 0 <= r < (a + b)[p].len()
            implies path_valid(#[trigger] (a + b)[p][r], n) by {
            if p < a.len() {
                assert((a + b)[p] == a[p]);
            } else {
                assert((a + b)[p] == b[p - a.len()]);
            }
        }
    }
}

/// Each arc list of `a` is, by value, one of `b`.
pub open spec fn paths_within(a: Seq<Vec<i32>>, b: Seq<Vec<i32>>) -> bool {
    forall|j: int| 0 <= j < a.len() ==> path_views(b).contains((#[trigger] a[j])@)
}

/// The arc lists of `a`, as sequences.
pub open spec fn path_views(a: Seq<Vec<i32>>) -> Seq<Seq<i32>> {
    a.map_values(|v: Vec<i32>| v@)
}

/// One step of moving the largest ring to the front: ring `i` changes
/// places with the first ring when its area is larger.
pub open spec fn promote_step(arcs: Seq<Seq<Stored>>, delta: bool, s: Seq<Seq<i32>>, i: int) -> Seq<Seq<i32>> {
    if ring_area(arcs, delta, s[i]) > ring_area(arcs, delta, s[0]) {
        s.update(0, s[i]).update(i, s[0])
    } else {
        s
    }
}

/// The rings `s` after the steps for rings `1 .. k`.
pub open spec fn promote(arcs: Seq<Seq<Stored>>, delta: bool, s: Seq<Seq<i32>>, k: int) -> Seq<Seq<i32>>
    decreases k,
{
    if k <= 1 || k > s.len() {
        s
    } else {
        promote_step(arcs, delta, promote(arcs, delta, s, k - 1), k - 1)
    }
}

/// The rings `s` with the ring of largest area moved to the front.
pub open spec fn largest_order(arcs: Seq<Seq<Stored>>, delta: bool, s: Seq<Seq<i32>>) -> Seq<Seq<i32>> {
    promote(arcs, delta, s, s.len() as int)
}

/// The first ring of `rings` has the largest area.
pub open spec fn largest_first(arcs: Seq<Seq<Stored>>, delta: bool, rings: Seq<Vec<i32>>) -> bool {
    forall|j: int| 0 <= j < rings.len()
        ==> ring_area(arcs, delta, (#[trigger] rings[j])@) <= ring_area(arcs, delta, rings[0]@)
}

proof fn lemma_swap_views(before: Seq<Vec<i32>>, after: Seq<Vec<i32>>, i: int, orig: Seq<Vec<i32>>)
    requires
        0 < i < before.len(),
        after.len() == before.len(),
        after[0]@ == before[i]@,
        after[i]@ == before[0]@,
        forall|j: int| 0 <= j < after.len() && j != 0 && j != i ==> (#[trigger] after[j])@ == before[j]@,
        paths_within(before, orig),
        paths_within(orig, before),
    ensures
        paths_within(after, orig),
        paths_within(orig, after),
{
    let vb = path_views(before);
    let va = path_views(after);
    assert forall|j: int| 0 <= j < after.len() implies path_views(orig).contains((#[trigger] after[j])@) by {
        let jj = if j == 0 { i } else if j == i { 0 } else { j };
        assert(after[j]@ == before[jj]@);
    }
    assert forall|k: int| 0 <= k < orig.len() implies va.contains((#[trigger] orig[k])@) by {
        assert(vb.contains(orig[k]@));
        let jj = choose|jj: int| 0 <= jj < vb.len() && vb[jj] == orig[k]@;
        let j = if jj == 0 { i } else if jj == i { 0 } else { jj };
        assert(va[j] == after[j]@);
        assert(after[j]@ == before[jj]@);
    }
}

impl<P, M> TopoJSON<P, M> {
    /// Moves the ring of largest area to the front: whenever a later ring
    /// is larger than the current first one, the two change places.
    fn largest_ring_first(&self, rings: Vec<Vec<i32>>) -> (r: Vec<Vec<i32>>)
        requires
            self.arcs_wf(),
            forall|j: int| 0 <= j < rings@.len() ==> path_valid(#[trigger] rings@[j]@, self.arcs@.len() as int),
        ensures
            r@.len() == rings@.len(),
            paths_within(r@, rings@),
            paths_within(rings@, r@),
            r@.len() > 0 ==> largest_first(self.arc_seqs(), self.delta_encoded, r@),
            path_views(r@) == largest_order(self.arc_seqs(), self.delta_encoded, path_views(rings@)),
    {
        let ghost arcs = self.arc_seqs();
        let ghost delta = self.delta_encoded;
        let mut rings = rings;
        let ghost orig = rings@;
        let n = rings.len();
        if n == 0 {
            return rings;
        }
        assert(orig[0]@ == rings@[0]@);
        let mut best = self.ring_area(&rings[0]);
        assert(paths_within(rings@, orig) && paths_within(orig, rings@)) by {
            assert forall|j: int| 0 <= j < rings@.len() implies path_views(orig).contains((#[trigger] rings@[j])@) by {
                assert(path_views(orig)[j] == orig[j]@);
            }
        }
        let mut i: usize = 1;
        while i < n
            invariant
                self.arcs_wf(),
                arcs == self.arc_seqs(),
                delta == self.delta_encoded,
                n == rings@.len(),
                n == orig.len(),
                1 <= i <= n,
                forall|j: int| 0 <= j < orig.len() ==> path_valid(#[trigger] orig[j]@, self.arcs@.len() as int),
                paths_within(rings@, orig),
                paths_within(orig, rings@),
                best as int == ring_area(arcs, delta, rings@[0]@),
                forall|j: int| 0 <= j < i ==> ring_area(arcs, delta, (#[trigger] rings@[j])@) <= best,
                path_views(rings@) == promote(arcs, delta, path_views(orig), i as int),
            decreases n - i,
        {
            assert(path_views(orig).contains(rings@[i as int]@));
            assert(path_valid(rings@[i as int]@, self.arcs@.len() as int));
            let ai = self.ring_area(&rings[i]);
            if ai > best {
                let ghost before = rings@;
                let first = crate::stitch::copy_path(&rings[0]);
                let other = crate::stitch::copy_path(&rings[i]);
                rings.set(0, other);
                rings.set(i, first);
                best = ai;
                proof {
                    assert forall|j: int| 0 <= j < rings@.len() && j != 0 && j != i implies
                        (#[trigger] rings@[j])@ == before[j]@ by {}
                    lemma_swap_views(before, rings@, i as int, orig);
                    assert(path_views(rings@) =~= path_views(before).update(0, path_views(before)[i as int]).update(i as int, path_views(before)[0]));
                    assert forall|j: int| 0 <= j < i + 1 implies ring_area(arcs, delta, (#[trigger] rings@[j])@) <= best by {
                        let jj = if j == 0 { i as int } else if j == i { 0 } else { j };
                        assert(rings@[j]@ == before[jj]@);
                    }
                }
            }
            i = i + 1;
        }
        rings
    }
}

/// Every polygon of `result` is a non-empty list of chained rings, made of
/// arcs that exactly one polygon of `ps` names, the ring of largest area first.
pub open spec fn merged_sound(arcs: Seq<Seq<Stored>>, delta: bool, ps: Seq<Rings>, result: Seq<Vec<Vec<i32>>>) -> bool {
    forall|p: int| 0 <= p < result.len() ==> merged_polygon(arcs, delta, ps, #[trigger] result[p]@)
}

/// A non-empty list of chained rings made of arcs that exactly one polygon of
/// `ps` names, the ring of largest area first.
pub open spec fn merged_polygon(arcs: Seq<Seq<Stored>>, delta: bool, ps: Seq<Rings>, rings: Seq<Vec<i32>>) -> bool {
    &&& rings.len() >= 1
    &&& largest_first(arcs, delta, rings)
    &&& forall|r: int| 0 <= r < rings.len() ==> {
        &&& (#[trigger] rings[r])@.len() >= 1
        &&& chained(arcs, delta, rings[r]@)
        &&& forall|q: int| 0 <= q < rings[r]@.len() ==> boundary_arc(ps, #[trigger] rings[r]@[q])
    }
}

/// `x` is an arc of a ring of `ps` that no other polygon names.
pub open spec fn boundary_arc(ps: Seq<Rings>, x: i32) -> bool {
    polygon_arc(ps, x) && occurrences(ps, canonical(x)) == 1
}

proof fn lemma_count_zero(s: Seq<bool>, i: int)
    requires
        0 <= i <= s.len(),
        forall|j: int| 0 <= j < s.len() ==> !(#[trigger] s[j]),
    ensures
        count_true(s, i) == 0,
    decreases i,
{
    if i > 0 {
        lemma_count_zero(s, i - 1);
    }
}

proof fn lemma_push_keeps<A>(s: Seq<A>, y: A)
    ensures
        forall|x: A| s.contains(x) ==> #[trigger] s.push(y).contains(x),
{
    assert forall|x: A| s.contains(x) implies #[trigger] s.push(y).contains(x) by {
        let w = choose|w: int| 0 <= w < s.len() && s[w] == x;
        assert(s.push(y)[w] == x);
    }
}

proof fn lemma_multi_covers_push(m: Seq<Vec<Vec<i32>>>, y: Vec<Vec<i32>>)
    ensures
        forall|c: int| multi_covers(m, c) ==> #[trigger] multi_covers(m.push(y), c),
{
    assert forall|c: int| multi_covers(m, c) implies #[trigger] multi_covers(m.push(y), c) by {
        let (p, r, q) = choose|p: int, r: int, q: int|
            0 <= p < m.len() && 0 <= r < m[p]@.len() && 0 <= q < m[p]@[r]@.len()
                && canonical(#[trigger] m[p]@[r]@[q]) == c;
        assert(m.push(y)[p] == m[p]);
    }
}

/// Every polygon filed under an arc of ring position `(p, r, q)` is visited.
spec fn neighbors_visited(ps: Seq<Rings>, by_arc: Seq<Vec<usize>>, visited: Seq<bool>, p: int, r: int, q: int) -> bool {
    forall|k: int| 0 <= k < by_arc[canonical(ps[p][r][q])]@.len()
        ==> visited[#[trigger] by_arc[canonical(ps[p][r][q])]@[k] as int]
}

proof fn lemma_neighbors_visited_grows(ps: Seq<Rings>, by_arc: Seq<Vec<usize>>, before: Seq<bool>, after: Seq<bool>, p: int, r: int, q: int)
    requires
        before.len() == after.len(),
        forall|x: int| 0 <= x < before.len() && #[trigger] before[x] ==> after[x],
        forall|j: int, k: int| 0 <= j < by_arc.len() && 0 <= k < by_arc[j]@.len() ==> #[trigger] by_arc[j]@[k] < before.len(),
        rings_valid(ps, by_arc.len() as int),
        0 <= p < ps.len(),
        0 <= r <= ps[p].len(),
        forall|rr: int, qq: int| 0 <= rr < r && 0 <= qq < ps[p][rr].len()
            ==> #[trigger] neighbors_visited(ps, by_arc, before, p, rr, qq),
        r < ps[p].len() ==> forall|qq: int| 0 <= qq < q ==> #[trigger] neighbors_visited(ps, by_arc, before, p, r, qq),
        r < ps[p].len() ==> q <= ps[p][r].len(),
    ensures
        forall|rr: int, qq: int| 0 <= rr < r && 0 <= qq < ps[p][rr].len()
            ==> #[trigger] neighbors_visited(ps, by_arc, after, p, rr, qq),
        r < ps[p].len() ==> forall|qq: int| 0 <= qq < q ==> #[trigger] neighbors_visited(ps, by_arc, after, p, r, qq),
{
    assert forall|rr: int, qq: int| 0 <= rr < ps[p].len() && 0 <= qq < ps[p][rr].len()
        && neighbors_visited(ps, by_arc, before, p, rr, qq)
        implies #[trigger] neighbors_visited(ps, by_arc, after, p, rr, qq) by {
        let c = canonical(ps[p][rr][qq]);
        assert(path_valid(ps[p][rr], by_arc.len() as int));
        assert forall|k: int| 0 <= k < by_arc[c]@.len() implies after[#[trigger] by_arc[c]@[k] as int] by {
            assert(before[by_arc[c]@[k] as int]);
        }
    }
}

impl<P, M> TopoJSON<P, M> {
    /// Puts on `stack` (marking them visited) the polygons not yet visited
    /// that share an arc with polygon `qi`. The ghost `group` records, for
    /// the proof, the arcs of `qi` that no other polygon names.
    #[verifier::rlimit(40)]
    fn visit_polygon(
        polys: &Vec<Vec<Vec<i32>>>,
        qi: usize,
        counts: &Vec<usize>,
        by_arc: &Vec<Vec<usize>>,
        visited: &mut Vec<bool>,
        stack: &mut Vec<usize>,
        group_in: Ghost<Seq<i32>>,
    ) -> (group_out: Ghost<Seq<i32>>)
        requires
            qi < polys@.len(),
            rings_valid(polygons_view(polys@), counts@.len() as int),
            forall|c: int| 0 <= c < counts@.len() ==> #[trigger] counts@[c] == capped(occurrences(polygons_view(polys@), c)),
            by_arc@.len() == counts@.len(),
            forall|j: int, k: int| 0 <= j < by_arc@.len() && 0 <= k < by_arc@[j]@.len() ==> #[trigger] by_arc@[j]@[k] < polys@.len(),
            old(visited)@.len() == polys@.len(),
            filed_sound(by_arc@, polygons_view(polys@)),
        ensures
            final(visited)@.len() == polys@.len(),
            forall|j: int| 0 <= j < polys@.len() && #[trigger] final(visited)@[j] && !old(visited)@[j]
                ==> share(polygons_view(polys@), qi as int, j),
            forall|g: int| group_in@.len() <= g < group_out@.len()
                ==> in_polygon(polygons_view(polys@)[qi as int], #[trigger] group_out@[g]),
            final(stack)@.len() >= old(stack)@.len(),
            final(stack)@.take(old(stack)@.len() as int) == old(stack)@,
            forall|j: int| old(stack)@.len() <= j < final(stack)@.len() ==> #[trigger] final(stack)@[j] < polys@.len(),
            forall|j: int| old(stack)@.len() <= j < final(stack)@.len() ==> !old(visited)@[#[trigger] final(stack)@[j] as int],
            forall|j: int| old(stack)@.len() <= j < final(stack)@.len() ==> final(visited)@[#[trigger] final(stack)@[j] as int],
            count_true(final(visited)@, polys@.len() as int)
                == count_true(old(visited)@, polys@.len() as int) + (final(stack)@.len() - old(stack)@.len()),
            forall|j: int| 0 <= j < polys@.len() && #[trigger] old(visited)@[j] ==> final(visited)@[j],
            forall|j: int| 0 <= j < polys@.len() && #[trigger] final(visited)@[j] && !old(visited)@[j]
                ==> final(stack)@.contains(j as usize),
            group_out@.take(group_in@.len() as int) == group_in@,
            group_out@.len() >= group_in@.len(),
            forall|j: int| group_in@.len() <= j < group_out@.len()
                ==> boundary_arc(polygons_view(polys@), #[trigger] group_out@[j])
                    && canonical(group_out@[j]) < counts@.len(),
            forall|r: int, q: int| 0 <= r < polygons_view(polys@)[qi as int].len()
                && 0 <= q < polygons_view(polys@)[qi as int][r].len()
                && occurrences(polygons_view(polys@), canonical(#[trigger] polygons_view(polys@)[qi as int][r][q])) < 2
                ==> group_out@.contains(polygons_view(polys@)[qi as int][r][q]),
            forall|r: int, q: int| 0 <= r < polygons_view(polys@)[qi as int].len()
                && 0 <= q < polygons_view(polys@)[qi as int][r].len()
                ==> #[trigger] neighbors_visited(polygons_view(polys@), by_arc@, final(visited)@, qi as int, r, q),
    {
        let ghost ps = polygons_view(polys@);
        let ghost mut group = group_in@;
        assert(group.take(group_in@.len() as int) =~= group_in@);
        let ghost np = polys@.len();
        let ghost n = counts@.len();
        let ghost count0 = count_true(visited@, np as int);
        let mut r: usize = 0;
        while r < polys[qi].len()
            invariant
                ps == polygons_view(polys@),
                np == polys@.len(),
                n == counts@.len(),
                qi < np,
                rings_valid(ps, n as int),
                forall|c: int| 0 <= c < n ==> #[trigger] counts@[c] == capped(occurrences(ps, c)),
                by_arc@.len() == n,
                forall|j: int, k: int| 0 <= j < by_arc@.len() && 0 <= k < by_arc@[j]@.len() ==> #[trigger] by_arc@[j]@[k] < np,
                visited@.len() == np,
                r <= ps[qi as int].len(),
                stack@.len() >= old(stack)@.len(),
                stack@.take(old(stack)@.len() as int) == old(stack)@,
                forall|j: int| old(stack)@.len() <= j < stack@.len() ==> #[trigger] stack@[j] < np,
                forall|j: int| old(stack)@.len() <= j < stack@.len() ==> !old(visited)@[#[trigger] stack@[j] as int],
                forall|j: int| old(stack)@.len() <= j < stack@.len() ==> visited@[#[trigger] stack@[j] as int],
                count_true(visited@, np as int) == count0 + (stack@.len() - old(stack)@.len()),
                forall|j: int| 0 <= j < np && #[trigger] old(visited)@[j] ==> visited@[j],
                forall|j: int| 0 <= j < np && #[trigger] visited@[j] && !old(visited)@[j] ==> stack@.contains(j as usize),
                group.take(group_in@.len() as int) == group_in@,
                group.len() >= group_in@.len(),
                forall|j: int| group_in@.len() <= j < group.len()
                    ==> boundary_arc(ps, #[trigger] group[j]) && canonical(group[j]) < n,
                forall|rr: int, q: int| 0 <= rr < r && 0 <= q < ps[qi as int][rr].len()
                    && occurrences(ps, canonical(#[trigger] ps[qi as int][rr][q])) < 2
                    ==> group.contains(ps[qi as int][rr][q]),
                forall|rr: int, q: int| 0 <= rr < r && 0 <= q < ps[qi as int][rr].len()
                    ==> #[trigger] neighbors_visited(ps, by_arc@, visited@, qi as int, rr, q),
                filed_sound(by_arc@, ps),
                forall|j: int| 0 <= j < np && #[trigger] visited@[j] && !old(visited)@[j] ==> share(ps, qi as int, j),
                forall|g: int| group_in@.len() <= g < group.len() ==> in_polygon(ps[qi as int], #[trigger] group[g]),
            decreases ps[qi as int].len() - r,
        {
            assert(ps[qi as int][r as int] == polys@[qi as int]@[r as int]@);
            assert(path_valid(ps[qi as int][r as int], n as int));
            let mut q: usize = 0;
            while q < polys[qi][r].len()
                invariant
                    ps == polygons_view(polys@),
                    np == polys@.len(),
                    n == counts@.len(),
                    qi < np,
                    r < ps[qi as int].len(),
                    ps[qi as int][r as int] == polys@[qi as int]@[r as int]@,
                    path_valid(ps[qi as int][r as int], n as int),
                    rings_valid(ps, n as int),
                    forall|c: int| 0 <= c < n ==> #[trigger] counts@[c] == capped(occurrences(ps, c)),
                    by_arc@.len() == n,
                    forall|j: int, k: int| 0 <= j < by_arc@.len() && 0 <= k < by_arc@[j]@.len() ==> #[trigger] by_arc@[j]@[k] < np,
                    visited@.len() == np,
                    q <= ps[qi as int][r as int].len(),
                    stack@.len() >= old(stack)@.len(),
                    stack@.take(old(stack)@.len() as int) == old(stack)@,
                    forall|j: int| old(stack)@.len() <= j < stack@.len() ==> #[trigger] stack@[j] < np,
                    forall|j: int| old(stack)@.len() <= j < stack@.len() ==> !old(visited)@[#[trigger] stack@[j] as int],
                    forall|j: int| old(stack)@.len() <= j < stack@.len() ==> visited@[#[trigger] stack@[j] as int],
                    count_true(visited@, np as int) == count0 + (stack@.len() - old(stack)@.len()),
                    forall|j: int| 0 <= j < np && #[trigger] old(visited)@[j] ==> visited@[j],
                    forall|j: int| 0 <= j < np && #[trigger] visited@[j] && !old(visited)@[j] ==> stack@.contains(j as usize),
                    group.take(group_in@.len() as int) == group_in@,
                    group.len() >= group_in@.len(),
                    forall|j: int| group_in@.len() <= j < group.len()
                        ==> boundary_arc(ps, #[trigger] group[j]) && canonical(group[j]) < n,
                    forall|rr: int, qq: int| 0 <= rr < r && 0 <= qq < ps[qi as int][rr].len()
                        && occurrences(ps, canonical(#[trigger] ps[qi as int][rr][qq])) < 2
                        ==> group.contains(ps[qi as int][rr][qq]),
                    forall|qq: int| 0 <= qq < q
                        && occurrences(ps, canonical(#[trigger] ps[qi as int][r as int][qq])) < 2
                        ==> group.contains(ps[qi as int][r as int][qq]),
                    forall|rr: int, qq: int| 0 <= rr < r && 0 <= qq < ps[qi as int][rr].len()
                        ==> #[trigger] neighbors_visited(ps, by_arc@, visited@, qi as int, rr, qq),
                    forall|qq: int| 0 <= qq < q ==> #[trigger] neighbors_visited(ps, by_arc@, visited@, qi as int, r as int, qq),
                    filed_sound(by_arc@, ps),
                    forall|j: int| 0 <= j < np && #[trigger] visited@[j] && !old(visited)@[j] ==> share(ps, qi as int, j),
                    forall|g: int| group_in@.len() <= g < group.len() ==> in_polygon(ps[qi as int], #[trigger] group[g]),
                decreases ps[qi as int][r as int].len() - q,
            {
                let a = polys[qi][r][q];
                assert(a == ps[qi as int][r as int][q as int]);
                assert(canonical(a) < n);
                let c = crate::feature::arc_slot(a);
                proof {
                    if counts@[c as int] < 2 {
                        lemma_occurs(ps, qi as int, r as int, q as int);
                        lemma_push_keeps(group, a);
                        let group_prev = group;
                        group = group.push(a);
                        assert(group.last() == a);
                        assert(group.take(group_in@.len() as int) =~= group_in@);
                        assert forall|g: int| group_in@.len() <= g < group.len() implies in_polygon(ps[qi as int], #[trigger] group[g]) by {
                            if g < group_prev.len() {
                                assert(group[g] == group_prev[g]);
                            } else {
                                assert(ps[qi as int][r as int][q as int] == a);
                            }
                        }
                    }
                }
                let mut k: usize = 0;
                while k < by_arc[c].len()
                    invariant
                        np == polys@.len(),
                        c < by_arc@.len(),
                        forall|j: int, k: int| 0 <= j < by_arc@.len() && 0 <= k < by_arc@[j]@.len() ==> #[trigger] by_arc@[j]@[k] < np,
                        visited@.len() == np,
                        k <= by_arc@[c as int]@.len(),
                        stack@.len() >= old(stack)@.len(),
                        stack@.take(old(stack)@.len() as int) == old(stack)@,
                        forall|j: int| old(stack)@.len() <= j < stack@.len() ==> #[trigger] stack@[j] < np,
                        forall|j: int| old(stack)@.len() <= j < stack@.len() ==> !old(visited)@[#[trigger] stack@[j] as int],
                        forall|j: int| old(stack)@.len() <= j < stack@.len() ==> visited@[#[trigger] stack@[j] as int],
                        count_true(visited@, np as int) == count0 + (stack@.len() - old(stack)@.len()),
                        forall|j: int| 0 <= j < np && #[trigger] old(visited)@[j] ==> visited@[j],
                        forall|j: int| 0 <= j < np && #[trigger] visited@[j] && !old(visited)@[j] ==> stack@.contains(j as usize),
                        forall|kk: int| 0 <= kk < k ==> visited@[#[trigger] by_arc@[c as int]@[kk] as int],
                        ps == polygons_view(polys@),
                        rings_valid(ps, by_arc@.len() as int),
                        qi < np,
                        r < ps[qi as int].len(),
                        q < ps[qi as int][r as int].len(),
                        forall|rr: int, qq: int| 0 <= rr < r && 0 <= qq < ps[qi as int][rr].len()
                            ==> #[trigger] neighbors_visited(ps, by_arc@, visited@, qi as int, rr, qq),
                        forall|qq: int| 0 <= qq < q ==> #[trigger] neighbors_visited(ps, by_arc@, visited@, qi as int, r as int, qq),
                        filed_sound(by_arc@, ps),
                        c as int == canonical(ps[qi as int][r as int][q as int]),
                        forall|j: int| 0 <= j < np && #[trigger] visited@[j] && !old(visited)@[j] ==> share(ps, qi as int, j),
                    decreases by_arc@[c as int]@.len() - k,
                {
                    let ghost vis_before = visited@;
                    let j = by_arc[c][k];
                    assert(by_arc@[c as int]@[k as int] < np);
                    if !visited[j] {
                        proof {
                            lemma_count_true_flip(visited@, j as int, np as int);
                            lemma_push_keeps(stack@, j);
                        }
                        let ghost vis_prev = visited@;
                        visited.set(j, true);
                        stack.push(j);
                        proof {
                            assert(names_poly(ps[j as int], c as int));
                            assert(names_poly(ps[qi as int], c as int));
                            assert(share(ps, qi as int, j as int));
                            assert forall|jj: int| 0 <= jj < np && #[trigger] visited@[jj] && !old(visited)@[jj]
                                implies share(ps, qi as int, jj) by {
                                if jj != j {
                                    assert(vis_prev[jj]);
                                }
                            }
                        }
                        proof {
                            assert(stack@.last() == j);
                            assert(stack@.take(old(stack)@.len() as int) =~= old(stack)@);
                        }
                    }
                    proof {
                        assert(forall|x: int| 0 <= x < np && #[trigger] vis_before[x] ==> visited@[x]);
                        lemma_neighbors_visited_grows(ps, by_arc@, vis_before, visited@, qi as int, r as int, q as int);
                    }
                    k = k + 1;
                }
                q = q + 1;
            }
            r = r + 1;
        }
        Ghost(group)
    }
}

/// `path` leads from polygon `a` to polygon `b`, each step to a polygon that
/// shares an arc with the one before.
pub open spec fn linked(ps: Seq<Rings>, a: int, b: int, path: Seq<int>) -> bool {
    &&& path.len() >= 1
    &&& path[0] == a
    &&& path[path.len() - 1] == b
    &&& forall|i: int| 0 <= i < path.len() ==> 0 <= #[trigger] path[i] < ps.len()
    &&& forall|i: int| 0 <= i < path.len() - 1 ==> share(ps, path[i], #[trigger] path[i + 1])
}

/// Polygon `b` is reached from polygon `a` through shared arcs.
pub open spec fn connected(ps: Seq<Rings>, a: int, b: int) -> bool {
    exists|path: Seq<int>| #[trigger] linked(ps, a, b, path)
}

/// Every arc of the merged polygon `poly` belongs to a polygon reached
/// through shared arcs from one and the same polygon.
pub open spec fn rooted(ps: Seq<Rings>, poly: Seq<Vec<i32>>) -> bool {
    exists|root: int| #[trigger] rooted_at(ps, poly, root)
}

/// Every arc of `poly` belongs to a polygon reached from polygon `root`.
pub open spec fn rooted_at(ps: Seq<Rings>, poly: Seq<Vec<i32>>, root: int) -> bool {
    &&& 0 <= root < ps.len()
    &&& forall|r: int, q: int| 0 <= r < poly.len() && 0 <= q < poly[r]@.len()
        ==> #[trigger] reached(ps, root, poly[r]@[q])
}

/// The arc `x` belongs to a polygon reached from polygon `root`.
pub open spec fn reached(ps: Seq<Rings>, root: int, x: i32) -> bool {
    exists|p: int| 0 <= p < ps.len() && connected(ps, root, p) && #[trigger] in_polygon(ps[p], x)
}

/// `x` is an arc of a polygon that the current group visited.
spec fn from_group(ps: Seq<Rings>, visited: Seq<bool>, start_vis: Seq<bool>, x: i32) -> bool {
    exists|j: int| 0 <= j < ps.len() && visited[j] && !start_vis[j] && #[trigger] in_polygon(ps[j], x)
}

proof fn lemma_connected_start(ps: Seq<Rings>, a: int)
    requires
        0 <= a < ps.len(),
    ensures
        connected(ps, a, a),
{
    assert(linked(ps, a, a, seq![a]));
}

proof fn lemma_connected_step(ps: Seq<Rings>, a: int, b: int, c: int)
    requires
        connected(ps, a, b),
        share(ps, b, c),
        0 <= c < ps.len(),
    ensures
        connected(ps, a, c),
{
    let path = choose|path: Seq<int>| #[trigger] linked(ps, a, b, path);
    let next = path.push(c);
    assert forall|i: int| 0 <= i < next.len() implies 0 <= #[trigger] next[i] < ps.len() by {
        if i < path.len() {
            assert(next[i] == path[i]);
        }
    }
    assert forall|i: int| 0 <= i < next.len() - 1 implies share(ps, next[i], #[trigger] next[i + 1]) by {
        if i < path.len() - 1 {
            assert(next[i] == path[i] && next[i + 1] == path[i + 1]);
        } else {
            assert(next[i] == b && next[i + 1] == c);
        }
    }
    assert(linked(ps, a, c, next));
}

/// The arcs among the first `q` of `ring` that at most one polygon of `ps`
/// names, in order.
pub open spec fn ring_boundary(ps: Seq<Rings>, ring: Seq<i32>, q: int) -> Seq<i32>
    decreases q,
{
    if q <= 0 || q > ring.len() {
        Seq::empty()
    } else if occurrences(ps, canonical(ring[q - 1])) < 2 {
        ring_boundary(ps, ring, q - 1).push(ring[q - 1])
    } else {
        ring_boundary(ps, ring, q - 1)
    }
}

/// The arcs of the first `r` rings of `rings` that at most one polygon of `ps`
/// names, ring after ring.
pub open spec fn poly_boundary(ps: Seq<Rings>, rings: Rings, r: int) -> Seq<i32>
    decreases r,
{
    if r <= 0 || r > rings.len() {
        Seq::empty()
    } else {
        poly_boundary(ps, rings, r - 1) + ring_boundary(ps, rings[r - 1], rings[r - 1].len() as int)
    }
}

/// The boundary arcs of the polygons among the first `i` that are reached
/// from polygon `root`, polygon after polygon.
pub open spec fn group_boundary(ps: Seq<Rings>, root: int, i: int) -> Seq<i32>
    decreases i,
{
    if i <= 0 || i > ps.len() {
        Seq::empty()
    } else if connected(ps, root, i - 1) {
        group_boundary(ps, root, i - 1) + poly_boundary(ps, ps[i - 1], ps[i - 1].len() as int)
    } else {
        group_boundary(ps, root, i - 1)
    }
}

/// No polygon before `r` reaches it: `r` is the first polygon of its group.
pub open spec fn is_root(ps: Seq<Rings>, r: int) -> bool {
    forall|p: int| 0 <= p < r ==> !#[trigger] connected(ps, p, r)
}

/// `prev` followed by the merged polygon of the arcs `list`: their stitched
/// rings, largest first, unless there are none.
#[verifier::opaque]
pub open spec fn next_merged(arcs: Seq<Seq<Stored>>, delta: bool, prev: Seq<Seq<Seq<i32>>>, list: Seq<i32>) -> Seq<Seq<Seq<i32>>> {
    let rings = largest_order(arcs, delta, stitch_paths(arcs, delta, list));
    if rings.len() > 0 { prev.push(rings) } else { prev }
}

/// The merged polygons of the groups whose first polygon is among the first
/// `i`, in that order.
pub open spec fn merge_polys(arcs: Seq<Seq<Stored>>, delta: bool, ps: Seq<Rings>, i: int) -> Seq<Seq<Seq<i32>>>
    decreases i,
{
    if i <= 0 || i > ps.len() {
        Seq::empty()
    } else if is_root(ps, i - 1) {
        next_merged(arcs, delta, merge_polys(arcs, delta, ps, i - 1), group_boundary(ps, i - 1, ps.len() as int))
    } else {
        merge_polys(arcs, delta, ps, i - 1)
    }
}

/// The number of polygons of `objects`.
pub open spec fn objects_polygon_count<P, M>(objects: Seq<Geometry<P, M>>) -> int {
    members_polygons(objects, objects.len() as int).len() as int
}

/// The rings of each merged polygon, as sequences.
pub open spec fn poly_views(m: Seq<Vec<Vec<i32>>>) -> Seq<Seq<Seq<i32>>> {
    m.map_values(|p: Vec<Vec<i32>>| path_views(p@))
}

proof fn lemma_ring_boundary_contains(ps: Seq<Rings>, ring: Seq<i32>, q: int, x: i32)
    requires
        0 <= q <= ring.len(),
    ensures
        ring_boundary(ps, ring, q).contains(x)
            <==> exists|k: int| 0 <= k < q && #[trigger] ring[k] == x && occurrences(ps, canonical(x)) < 2,
    decreases q,
{
    if q > 0 {
        lemma_ring_boundary_contains(ps, ring, q - 1, x);
        let prev = ring_boundary(ps, ring, q - 1);
        if occurrences(ps, canonical(ring[q - 1])) < 2 {
            let cur = prev.push(ring[q - 1]);
            if cur.contains(x) {
                let w = choose|w: int| 0 <= w < cur.len() && cur[w] == x;
                if w < prev.len() {
                    assert(prev[w] == x);
                } else {
                    assert(ring[q - 1] == x);
                }
            }
            if prev.contains(x) {
                let w = choose|w: int| 0 <= w < prev.len() && prev[w] == x;
                assert(cur[w] == x);
            }
            if ring[q - 1] == x {
                assert(cur[prev.len() as int] == x);
            }
        }
    }
}

proof fn lemma_concat_contains(a: Seq<i32>, b: Seq<i32>, x: i32)
    ensures
        (a + b).contains(x) <==> a.contains(x) || b.contains(x),
{
    if (a + b).contains(x) {
        let w = choose|w: int| 0 <= w < (a + b).len() && (a + b)[w] == x;
        if w < a.len() {
            assert(a[w] == x);
        } else {
            assert(b[w - a.len()] == x);
        }
    }
    if a.contains(x) {
        let w = choose|w: int| 0 <= w < a.len() && a[w] == x;
        assert((a + b)[w] == x);
    }
    if b.contains(x) {
        let w = choose|w: int| 0 <= w < b.len() && b[w] == x;
        assert((a + b)[a.len() + w] == x);
    }
}

proof fn lemma_poly_boundary_contains(ps: Seq<Rings>, rings: Rings, r: int, x: i32)
    requires
        0 <= r <= rings.len(),
    ensures
        poly_boundary(ps, rings, r).contains(x)
            <==> exists|a: int, b: int| 0 <= a < r && 0 <= b < rings[a].len() && #[trigger] rings[a][b] == x
                && occurrences(ps, canonical(x)) < 2,
    decreases r,
{
    if r > 0 {
        lemma_poly_boundary_contains(ps, rings, r - 1, x);
        lemma_ring_boundary_contains(ps, rings[r - 1], rings[r - 1].len() as int, x);
        lemma_concat_contains(poly_boundary(ps, rings, r - 1), ring_boundary(ps, rings[r - 1], rings[r - 1].len() as int), x);
        if exists|k: int| 0 <= k < rings[r - 1].len() && #[trigger] rings[r - 1][k] == x && occurrences(ps, canonical(x)) < 2 {
            let k = choose|k: int| 0 <= k < rings[r - 1].len() && #[trigger] rings[r - 1][k] == x && occurrences(ps, canonical(x)) < 2;
            assert(rings[r - 1][k] == x);
        }
        if exists|a: int, b: int| 0 <= a < r && 0 <= b < rings[a].len() && #[trigger] rings[a][b] == x
            && occurrences(ps, canonical(x)) < 2 {
            let (a, b) = choose|a: int, b: int| 0 <= a < r && 0 <= b < rings[a].len() && #[trigger] rings[a][b] == x
                && occurrences(ps, canonical(x)) < 2;
            if a == r - 1 {
                assert(rings[r - 1][b] == x);
            } else {
                assert(rings[a][b] == x);
            }
        }
    }
}

/// The boundary list of a group holds exactly the arcs that at most one polygon
/// names of the polygons the group's root reaches.
proof fn lemma_group_boundary_contains(ps: Seq<Rings>, root: int, i: int, x: i32)
    requires
        0 <= i <= ps.len(),
    ensures
        group_boundary(ps, root, i).contains(x)
            <==> exists|p: int| 0 <= p < i && connected(ps, root, p) && #[trigger] in_polygon(ps[p], x)
                && occurrences(ps, canonical(x)) < 2,
    decreases i,
{
    if i > 0 {
        lemma_group_boundary_contains(ps, root, i - 1, x);
        let p = i - 1;
        lemma_poly_boundary_contains(ps, ps[p], ps[p].len() as int, x);
        if connected(ps, root, p) {
            lemma_concat_contains(group_boundary(ps, root, p), poly_boundary(ps, ps[p], ps[p].len() as int), x);
        }
        if exists|q: int| 0 <= q < i && connected(ps, root, q) && #[trigger] in_polygon(ps[q], x)
            && occurrences(ps, canonical(x)) < 2 {
            let q = choose|q: int| 0 <= q < i && connected(ps, root, q) && #[trigger] in_polygon(ps[q], x)
                && occurrences(ps, canonical(x)) < 2;
            if q == p {
                let (a, b) = choose|a: int, b: int| 0 <= a < ps[p].len() && 0 <= b < ps[p][a].len() && #[trigger] ps[p][a][b] == x;
                assert(ps[p][a][b] == x);
            }
        }
        if connected(ps, root, p) && poly_boundary(ps, ps[p], ps[p].len() as int).contains(x) {
            let (a, b) = choose|a: int, b: int| 0 <= a < ps[p].len() && 0 <= b < ps[p][a].len() && #[trigger] ps[p][a][b] == x
                && occurrences(ps, canonical(x)) < 2;
            assert(in_polygon(ps[p], x));
        }
    }
}

/// A set of polygons closed under sharing holds every polygon that one of
/// its members reaches.
proof fn lemma_path_closed(ps: Seq<Rings>, set: Seq<bool>, a: int, b: int)
    requires
        set.len() == ps.len(),
        connected(ps, a, b),
        set[a],
        forall|j: int, q: int| 0 <= j < ps.len() && 0 <= q < ps.len() && set[j] && #[trigger] share(ps, j, q) ==> set[q],
    ensures
        set[b],
{
    let path = choose|path: Seq<int>| #[trigger] linked(ps, a, b, path);
    lemma_path_prefix_closed(ps, set, path, path.len() as int - 1);
}

proof fn lemma_path_prefix_closed(ps: Seq<Rings>, set: Seq<bool>, path: Seq<int>, i: int)
    requires
        set.len() == ps.len(),
        path.len() >= 1,
        0 <= i < path.len(),
        forall|k: int| 0 <= k < path.len() ==> 0 <= #[trigger] path[k] < ps.len(),
        forall|k: int| 0 <= k < path.len() - 1 ==> share(ps, path[k], #[trigger] path[k + 1]),
        set[path[0]],
        forall|j: int, q: int| 0 <= j < ps.len() && 0 <= q < ps.len() && set[j] && #[trigger] share(ps, j, q) ==> set[q],
    ensures
        set[path[i]],
    decreases i,
{
    if i > 0 {
        lemma_path_prefix_closed(ps, set, path, i - 1);
        let k = i - 1;
        assert(share(ps, path[k], path[k + 1]));
        assert(k + 1 == i);
    }
}

/// At the end of a group, the polygons it visited are exactly those its
/// first polygon reaches.
proof fn lemma_component(ps: Seq<Rings>, start_vis: Seq<bool>, visited: Seq<bool>, p0: int, q: int)
    requires
        start_vis.len() == ps.len(),
        visited.len() == ps.len(),
        0 <= p0 < ps.len(),
        visited[p0],
        !start_vis[p0],
        connected(ps, p0, q),
        forall|j: int, q2: int| 0 <= j < ps.len() && 0 <= q2 < ps.len() && visited[j] && !start_vis[j]
            && #[trigger] share(ps, j, q2) ==> visited[q2],
        forall|j: int, q2: int| 0 <= j < ps.len() && 0 <= q2 < ps.len() && start_vis[j]
            && #[trigger] share(ps, j, q2) ==> start_vis[q2],
    ensures
        visited[q] && !start_vis[q],
{
    let set = Seq::new(ps.len(), |j: int| visited[j] && !start_vis[j]);
    assert forall|j: int, q2: int| 0 <= j < ps.len() && 0 <= q2 < ps.len() && set[j] && #[trigger] share(ps, j, q2)
        implies set[q2] by {
        if start_vis[q2] {
            lemma_share_symmetric(ps, j, q2);
            assert(share(ps, q2, j));
        }
    }
    lemma_path_closed(ps, set, p0, q);
    let path = choose|path: Seq<int>| #[trigger] linked(ps, p0, q, path);
    assert(0 <= path[path.len() - 1] < ps.len());
}

/// Every polygon filed under a canonical arc names that arc.
spec fn filed_sound(by_arc: Seq<Vec<usize>>, ps: Seq<Rings>) -> bool {
    forall|c: int, k: int| 0 <= c < by_arc.len() && 0 <= k < by_arc[c]@.len()
        ==> names_poly(ps[#[trigger] by_arc[c]@[k] as int], c)
}

/// Every arc position of `ps` before ring position `(p, r, q)` has its
/// polygon filed under its canonical arc.
spec fn filed_upto(by_arc: Seq<Vec<usize>>, ps: Seq<Rings>, p: int, r: int, q: int) -> bool {
    forall|a: int, b: int, d: int| 0 <= a < ps.len() && 0 <= b < ps[a].len() && 0 <= d < ps[a][b].len()
        && (a < p || (a == p && (b < r || (b == r && d < q))))
        ==> by_arc[canonical(#[trigger] ps[a][b][d])]@.contains(a as usize)
}

proof fn lemma_filed_step(old_by: Seq<Vec<usize>>, by: Seq<Vec<usize>>, ps: Seq<Rings>, p: int, r: int, q: int, c: int)
    requires
        filed_upto(old_by, ps, p, r, q),
        0 <= p < ps.len(),
        0 <= r < ps[p].len(),
        0 <= q < ps[p][r].len(),
        c == canonical(ps[p][r][q]),
        0 <= c < old_by.len(),
        by.len() == old_by.len(),
        by[c]@ == old_by[c]@.push(p as usize),
        forall|j: int| 0 <= j < by.len() && j != c ==> #[trigger] by[j] == old_by[j],
        forall|a: int, b: int, d: int| 0 <= a < ps.len() && 0 <= b < ps[a].len() && 0 <= d < ps[a][b].len()
            ==> 0 <= canonical(#[trigger] ps[a][b][d]) < old_by.len(),
    ensures
        filed_upto(by, ps, p, r, q + 1),
{
    assert forall|a: int, b: int, d: int| 0 <= a < ps.len() && 0 <= b < ps[a].len() && 0 <= d < ps[a][b].len()
        && (a < p || (a == p && (b < r || (b == r && d < q + 1))))
        implies by[canonical(#[trigger] ps[a][b][d])]@.contains(a as usize) by {
        let cc = canonical(ps[a][b][d]);
        if a == p && b == r && d == q {
            assert(by[c]@[old_by[c]@.len() as int] == p as usize);
        } else if cc == c {
            let w = choose|w: int| 0 <= w < old_by[c]@.len() && old_by[c]@[w] == a as usize;
            assert(by[c]@[w] == a as usize);
        } else {
            assert(by[cc] == old_by[cc]);
        }
    }
}

/// One of the rings `rings` names the canonical arc `c`.
pub open spec fn names_poly(rings: Rings, c: int) -> bool {
    exists|a: int, b: int| 0 <= a < rings.len() && 0 <= b < rings[a].len() && canonical(#[trigger] rings[a][b]) == c
}

/// Polygons `p` and `q` of `ps` name a common canonical arc.
pub open spec fn share(ps: Seq<Rings>, p: int, q: int) -> bool {
    exists|c: int| names_poly(ps[p], c) && #[trigger] names_poly(ps[q], c)
}

/// `x` is one of the arcs of the rings `rings`.
pub open spec fn in_polygon(rings: Rings, x: i32) -> bool {
    exists|a: int, b: int| 0 <= a < rings.len() && 0 <= b < rings[a].len() && #[trigger] rings[a][b] == x
}

/// One of the rings of the merged polygon `poly` names the canonical arc `c`.
pub open spec fn poly_covers(poly: Seq<Vec<i32>>, c: int) -> bool {
    exists|r: int, q: int| 0 <= r < poly.len() && 0 <= q < poly[r]@.len() && canonical(#[trigger] poly[r]@[q]) == c
}

/// Polygons that share an arc are merged together: the arcs of either that
/// no other polygon names are in one and the same merged polygon.
pub open spec fn grouped(ps: Seq<Rings>, result: Seq<Vec<Vec<i32>>>) -> bool {
    forall|p: int, q: int, x: i32, y: i32|
        0 <= p < ps.len() && 0 <= q < ps.len() && share(ps, p, q)
        && #[trigger] in_polygon(ps[p], x) && occurrences(ps, canonical(x)) == 1
        && #[trigger] in_polygon(ps[q], y) && occurrences(ps, canonical(y)) == 1
        ==> exists|k: int| 0 <= k < result.len() && poly_covers(result[k]@, canonical(x))
            && #[trigger] poly_covers(result[k]@, canonical(y))
}

/// The arcs of polygon `p` that no other polygon names are in merged polygon
/// `pidx[p]`.
spec fn placed(ps: Seq<Rings>, result: Seq<Vec<Vec<i32>>>, pidx: Seq<int>, p: int) -> bool {
    forall|x: i32| #[trigger] in_polygon(ps[p], x) && occurrences(ps, canonical(x)) == 1
        ==> 0 <= pidx[p] < result.len() && poly_covers(result[pidx[p]]@, canonical(x))
}

/// Every polygon sharing an arc with `p` is visited and merged where `p` is.
spec fn tied(ps: Seq<Rings>, visited: Seq<bool>, pidx: Seq<int>, p: int) -> bool {
    forall|q: int| 0 <= q < ps.len() && #[trigger] share(ps, p, q) ==> visited[q] && pidx[q] == pidx[p]
}

/// The arcs of `p` that no other polygon names are in `group`, and every
/// polygon sharing an arc with `p` is visited.
spec fn gathered(ps: Seq<Rings>, group: Seq<i32>, visited: Seq<bool>, p: int) -> bool {
    &&& forall|x: i32| #[trigger] in_polygon(ps[p], x) && occurrences(ps, canonical(x)) == 1 ==> group.contains(x)
    &&& forall|q: int| 0 <= q < ps.len() && #[trigger] share(ps, p, q) ==> visited[q]
}

proof fn lemma_share_symmetric(ps: Seq<Rings>, p: int, q: int)
    ensures
        share(ps, p, q) == share(ps, q, p),
{
    if share(ps, p, q) {
        let c = choose|c: int| names_poly(ps[p], c) && #[trigger] names_poly(ps[q], c);
        assert(names_poly(ps[q], c) && names_poly(ps[p], c));
    }
    if share(ps, q, p) {
        let c = choose|c: int| names_poly(ps[q], c) && #[trigger] names_poly(ps[p], c);
        assert(names_poly(ps[p], c) && names_poly(ps[q], c));
    }
}

/// After polygon `p` is visited, so is every polygon that shares an arc with it.
proof fn lemma_sharers_visited(ps: Seq<Rings>, by_arc: Seq<Vec<usize>>, visited: Seq<bool>, p: int)
    requires
        0 <= p < ps.len(),
        ps.len() <= usize::MAX,
        filed_upto(by_arc, ps, ps.len() as int, 0, 0),
        forall|r: int, q: int| 0 <= r < ps[p].len() && 0 <= q < ps[p][r].len()
            ==> #[trigger] neighbors_visited(ps, by_arc, visited, p, r, q),
    ensures
        forall|q: int| 0 <= q < ps.len() && #[trigger] share(ps, p, q) ==> visited[q],
{
    assert forall|q: int| 0 <= q < ps.len() && #[trigger] share(ps, p, q) implies visited[q] by {
        let c = choose|c: int| names_poly(ps[p], c) && #[trigger] names_poly(ps[q], c);
        let (a, b) = choose|a: int, b: int| 0 <= a < ps[p].len() && 0 <= b < ps[p][a].len() && canonical(#[trigger] ps[p][a][b]) == c;
        let (a2, b2) = choose|a2: int, b2: int| 0 <= a2 < ps[q].len() && 0 <= b2 < ps[q][a2].len() && canonical(#[trigger] ps[q][a2][b2]) == c;
        assert(by_arc[canonical(ps[q][a2][b2])]@.contains(q as usize));
        let k = choose|k: int| 0 <= k < by_arc[c]@.len() && by_arc[c]@[k] == q as usize;
        assert(neighbors_visited(ps, by_arc, visited, p, a, b));
        assert(visited[by_arc[c]@[k] as int]);
    }
}

/// The arcs of a group that its stitched paths cover are covered by the
/// merged polygon made of those paths.
proof fn lemma_group_placed(group: Seq<i32>, stitched: Seq<Vec<i32>>, rings: Seq<Vec<i32>>)
    requires
        forall|k: int| 0 <= k < group.len() ==> covers(stitched, canonical(#[trigger] group[k])),
        paths_within(stitched, rings),
    ensures
        forall|x: i32| group.contains(x) ==> #[trigger] poly_covers(rings, canonical(x)),
{
    assert forall|x: i32| group.contains(x) implies #[trigger] poly_covers(rings, canonical(x)) by {
        let w = choose|w: int| 0 <= w < group.len() && group[w] == x;
        assert(covers(stitched, canonical(group[w])));
        let (pp, qq) = choose|pp: int, qq: int| 0 <= pp < stitched.len() && 0 <= qq < stitched[pp]@.len()
            && canonical(#[trigger] stitched[pp]@[qq]) == canonical(x);
        assert(path_views(rings).contains(stitched[pp]@));
        let rr = choose|rr: int| 0 <= rr < rings.len() && path_views(rings)[rr] == stitched[pp]@;
        assert(rings[rr]@ == stitched[pp]@);
        assert(canonical(rings[rr]@[qq]) == canonical(x));
    }
}

/// At the end of a group, the polygons it visited are placed in the merged
/// polygon it added, and stay tied to the polygons they share arcs with.
proof fn lemma_group_end(
    ps: Seq<Rings>,
    start_vis: Seq<bool>,
    visited: Seq<bool>,
    pidx: Seq<int>,
    pidx2: Seq<int>,
    before: Seq<Vec<Vec<i32>>>,
    result: Seq<Vec<Vec<i32>>>,
    group: Seq<i32>,
)
    requires
        start_vis.len() == ps.len(),
        visited.len() == ps.len(),
        pidx.len() == ps.len(),
        pidx2 == Seq::new(ps.len(), |j: int| if visited[j] && !start_vis[j] { before.len() as int } else { pidx[j] }),
        forall|j: int| 0 <= j < ps.len() && start_vis[j] ==> #[trigger] visited[j],
        forall|j: int| 0 <= j < ps.len() && #[trigger] start_vis[j]
            ==> placed(ps, before, pidx, j) && tied(ps, start_vis, pidx, j),
        forall|j: int| 0 <= j < ps.len() && #[trigger] visited[j] && !start_vis[j] ==> gathered(ps, group, visited, j),
        result.len() >= before.len(),
        forall|k: int| 0 <= k < before.len() ==> #[trigger] result[k] == before[k],
        forall|x: i32| #[trigger] group.contains(x) ==> result.len() == before.len() + 1
            && poly_covers(result[before.len() as int]@, canonical(x)),
    ensures
        forall|j: int| 0 <= j < ps.len() && #[trigger] visited[j]
            ==> placed(ps, result, pidx2, j) && tied(ps, visited, pidx2, j),
{
    assert forall|j: int| 0 <= j < ps.len() && #[trigger] visited[j]
        implies placed(ps, result, pidx2, j) && tied(ps, visited, pidx2, j) by {
        if start_vis[j] {
            assert(pidx2[j] == pidx[j]);
            assert forall|x: i32| #[trigger] in_polygon(ps[j], x) && occurrences(ps, canonical(x)) == 1
                implies 0 <= pidx2[j] < result.len() && poly_covers(result[pidx2[j]]@, canonical(x)) by {
                assert(placed(ps, before, pidx, j));
                assert(result[pidx[j]] == before[pidx[j]]);
            }
            assert forall|q: int| 0 <= q < ps.len() && #[trigger] share(ps, j, q) implies visited[q] && pidx2[q] == pidx2[j] by {
                assert(tied(ps, start_vis, pidx, j));
                assert(start_vis[q]);
            }
        } else {
            assert(gathered(ps, group, visited, j));
            assert(pidx2[j] == before.len());
            assert forall|x: i32| #[trigger] in_polygon(ps[j], x) && occurrences(ps, canonical(x)) == 1
                implies 0 <= pidx2[j] < result.len() && poly_covers(result[pidx2[j]]@, canonical(x)) by {
                assert(group.contains(x));
            }
            assert forall|q: int| 0 <= q < ps.len() && #[trigger] share(ps, j, q) implies visited[q] && pidx2[q] == pidx2[j] by {
                assert(visited[q]);
                if start_vis[q] {
                    lemma_share_symmetric(ps, j, q);
                    assert(tied(ps, start_vis, pidx, q));
                    assert(share(ps, q, j));
                    assert(start_vis[j]);
                }
            }
        }
    }
}

proof fn lemma_gathered_grows(ps: Seq<Rings>, g0: Seq<i32>, g1: Seq<i32>, v0: Seq<bool>, v1: Seq<bool>, j: int)
    requires
        gathered(ps, g0, v0, j),
        forall|x: i32| g0.contains(x) ==> #[trigger] g1.contains(x),
        forall|q: int| 0 <= q < ps.len() && #[trigger] v0[q] ==> v1[q],
    ensures
        gathered(ps, g1, v1, j),
{
}

impl<P, M> TopoJSON<P, M> {
    /// The index of each polygon naming each of the `n` arcs.
    fn polygons_by_arc(polys: &Vec<Vec<Vec<i32>>>, n: usize) -> (by_arc: Vec<Vec<usize>>)
        requires
            rings_valid(polygons_view(polys@), n as int),
        ensures
            by_arc@.len() == n,
            forall|j: int, k: int| 0 <= j < n && 0 <= k < by_arc@[j]@.len() ==> #[trigger] by_arc@[j]@[k] < polys@.len(),
            filed_upto(by_arc@, polygons_view(polys@), polys@.len() as int, 0, 0),
            filed_sound(by_arc@, polygons_view(polys@)),
    {
        let ghost ps = polygons_view(polys@);
        proof {
            assert forall|a: int, b: int, d: int| 0 <= a < ps.len() && 0 <= b < ps[a].len() && 0 <= d < ps[a][b].len()
                implies 0 <= canonical(#[trigger] ps[a][b][d]) < n by {
                assert(path_valid(ps[a][b], n as int));
            }
        }
        let np = polys.len();
        let mut by_arc: Vec<Vec<usize>> = Vec::new();
        let mut c: usize = 0;
        while c < n
            invariant
                c <= n,
                by_arc@.len() == c,
                forall|j: int, k: int| 0 <= j < c && 0 <= k < by_arc@[j]@.len() ==> #[trigger] by_arc@[j]@[k] < np,
                forall|j: int| 0 <= j < c ==> (#[trigger] by_arc@[j])@.len() == 0,
            decreases n - c,
        {
            by_arc.push(Vec::new());
            c = c + 1;
        }
        let mut p: usize = 0;
        while p < np
            invariant
                np == polys@.len(),
                ps == polygons_view(polys@),
                rings_valid(ps, n as int),
                by_arc@.len() == n,
                forall|j: int, k: int| 0 <= j < n && 0 <= k < by_arc@[j]@.len() ==> #[trigger] by_arc@[j]@[k] < np,
                p <= np,
                forall|a: int, b: int, d: int| 0 <= a < ps.len() && 0 <= b < ps[a].len() && 0 <= d < ps[a][b].len()
                    ==> 0 <= canonical(#[trigger] ps[a][b][d]) < n,
                filed_upto(by_arc@, ps, p as int, 0, 0),
                filed_sound(by_arc@, ps),
            decreases np - p,
        {
            let mut r: usize = 0;
            while r < polys[p].len()
                invariant
                    np == polys@.len(),
                    ps == polygons_view(polys@),
                    rings_valid(ps, n as int),
                    p < np,
                    by_arc@.len() == n,
                    forall|j: int, k: int| 0 <= j < n && 0 <= k < by_arc@[j]@.len() ==> #[trigger] by_arc@[j]@[k] < np,
                    r <= polys@[p as int]@.len(),
                    forall|a: int, b: int, d: int| 0 <= a < ps.len() && 0 <= b < ps[a].len() && 0 <= d < ps[a][b].len()
                        ==> 0 <= canonical(#[trigger] ps[a][b][d]) < n,
                    filed_upto(by_arc@, ps, p as int, r as int, 0),
                    filed_sound(by_arc@, ps),
                decreases polys@[p as int]@.len() - r,
            {
                assert(ps[p as int][r as int] == polys@[p as int]@[r as int]@);
                assert(path_valid(ps[p as int][r as int], n as int));
                let mut q: usize = 0;
                while q < polys[p][r].len()
                    invariant
                        np == polys@.len(),
                        ps == polygons_view(polys@),
                        p < np,
                        r < polys@[p as int]@.len(),
                        ps[p as int][r as int] == polys@[p as int]@[r as int]@,
                        indices_valid(polys@[p as int]@[r as int]@, n as int),
                        by_arc@.len() == n,
                        forall|j: int, k: int| 0 <= j < n && 0 <= k < by_arc@[j]@.len() ==> #[trigger] by_arc@[j]@[k] < np,
                        q <= polys@[p as int]@[r as int]@.len(),
                        forall|a: int, b: int, d: int| 0 <= a < ps.len() && 0 <= b < ps[a].len() && 0 <= d < ps[a][b].len()
                            ==> 0 <= canonical(#[trigger] ps[a][b][d]) < n,
                        filed_upto(by_arc@, ps, p as int, r as int, q as int),
                        filed_sound(by_arc@, ps),
                    decreases polys@[p as int]@[r as int]@.len() - q,
                {
                    assert(canonical(polys@[p as int]@[r as int]@[q as int]) < n);
                    let c = crate::feature::arc_slot(polys[p][r][q]);
                    let ghost old_by = by_arc@;
                    let mut bucket: Vec<usize> = crate::stitch::copy_indices(&by_arc[c]);
                    bucket.push(p);
                    by_arc.set(c, bucket);
                    proof {
                        lemma_filed_step(old_by, by_arc@, ps, p as int, r as int, q as int, c as int);
                        assert forall|cc: int, k: int| 0 <= cc < by_arc@.len() && 0 <= k < by_arc@[cc]@.len()
                            implies names_poly(ps[#[trigger] by_arc@[cc]@[k] as int], cc) by {
                            if cc == c && k == old_by[c as int]@.len() {
                                assert(by_arc@[cc]@[k] == p);
                                assert(canonical(ps[p as int][r as int][q as int]) == cc);
                            } else if cc == c {
                                assert(by_arc@[cc]@[k] == old_by[cc]@[k]);
                            } else {
                                assert(by_arc@[cc] == old_by[cc]);
                            }
                        }
                    }
                    q = q + 1;
                }
                r = r + 1;
            }
            p = p + 1;
        }
        by_arc
    }

    /// Stitches the arcs of a group and, if that gives any ring, adds them,
    /// the ring of largest area first, as one more merged polygon.
    #[verifier::rlimit(60)]
    fn close_group(&self, ps: Ghost<Seq<Rings>>, group: &Vec<i32>, result: &mut Vec<Vec<Vec<i32>>>)
        requires
            self.arcs_wf(),
            forall|j: int| 0 <= j < group@.len() ==> boundary_arc(ps@, #[trigger] group@[j]),
            forall|j: int| 0 <= j < group@.len() ==> canonical(#[trigger] group@[j]) < self.arcs@.len(),
            merged_sound(self.arc_seqs(), self.delta_encoded, ps@, old(result)@),
        ensures
            merged_sound(self.arc_seqs(), self.delta_encoded, ps@, final(result)@),
            final(result)@.len() == old(result)@.len() || final(result)@.len() == old(result)@.len() + 1,
            forall|k: int| 0 <= k < old(result)@.len() ==> #[trigger] final(result)@[k] == old(result)@[k],
            forall|x: i32| #[trigger] group@.contains(x) ==> final(result)@.len() == old(result)@.len() + 1
                && poly_covers(final(result)@[old(result)@.len() as int]@, canonical(x))
                && multi_covers(final(result)@, canonical(x)),
            final(result)@.len() == old(result)@.len() + 1 ==> forall|r: int, q: int|
                0 <= r < final(result)@[old(result)@.len() as int]@.len()
                && 0 <= q < final(result)@[old(result)@.len() as int]@[r]@.len()
                ==> group@.contains(#[trigger] final(result)@[old(result)@.len() as int]@[r]@[q]),
            poly_views(final(result)@) == next_merged(self.arc_seqs(), self.delta_encoded, poly_views(old(result)@), group@),
    {
        let ghost arcs = self.arc_seqs();
        let ghost delta = self.delta_encoded;
        let ghost n = self.arcs@.len();
        let stitched = self.stitch(group);
        proof {
            assert forall|j: int| 0 <= j < stitched@.len() implies path_valid(#[trigger] stitched@[j]@, n as int) by {
                assert forall|q: int| 0 <= q < stitched@[j]@.len() implies canonical(#[trigger] stitched@[j]@[q]) < n by {
                    assert(group@.contains(stitched@[j]@[q]));
                }
            }
        }
        assert(path_views(stitched@) =~= chain_views(stitched@));
        proof {
            reveal(next_merged);
        }
        let rings = self.largest_ring_first(stitched);
        let ghost result_before = result@;
        if rings.len() == 0 {
            assert(poly_views(result@) == next_merged(arcs, delta, poly_views(result_before), group@));
        }
        if rings.len() > 0 {
            proof {
                assert forall|r: int| 0 <= r < rings@.len() implies {
                    &&& (#[trigger] rings@[r])@.len() >= 1
                    &&& chained(arcs, delta, rings@[r]@)
                    &&& forall|q: int| 0 <= q < rings@[r]@.len() ==> boundary_arc(ps@, #[trigger] rings@[r]@[q])
                } by {
                    assert(path_views(stitched@).contains(rings@[r]@));
                    let w = choose|w: int| 0 <= w < stitched@.len() && path_views(stitched@)[w] == rings@[r]@;
                    assert(stitched@[w]@ == rings@[r]@);
                    assert forall|q: int| 0 <= q < rings@[r]@.len() implies boundary_arc(ps@, #[trigger] rings@[r]@[q]) by {
                        assert(rings@[r]@[q] == stitched@[w]@[q]);
                        assert(group@.contains(stitched@[w]@[q]));
                    }
                }
            }
            result.push(rings);
            proof {
                assert(poly_views(result@) =~= poly_views(result_before).push(path_views(rings@)));
                assert forall|r: int, q: int| 0 <= r < result@[result_before.len() as int]@.len()
                    && 0 <= q < result@[result_before.len() as int]@[r]@.len()
                    implies group@.contains(#[trigger] result@[result_before.len() as int]@[r]@[q]) by {
                    assert(result@[result_before.len() as int] == rings);
                    assert(path_views(stitched@).contains(rings@[r]@));
                    let w = choose|w: int| 0 <= w < stitched@.len() && path_views(stitched@)[w] == rings@[r]@;
                    assert(stitched@[w]@ == rings@[r]@);
                    assert(rings@[r]@[q] == stitched@[w]@[q]);
                    assert(group@.contains(stitched@[w]@[q]));
                }
                assert forall|p: int| 0 <= p < result@.len() implies merged_polygon(arcs, delta, ps@, #[trigger] result@[p]@) by {
                    if p < result_before.len() {
                        assert(result@[p] == result_before[p]);
                    }
                }
            }
        }
        proof {
            lemma_group_placed(group@, stitched@, rings@);
            assert forall|x: i32| #[trigger] group@.contains(x) implies result@.len() == result_before.len() + 1
                && poly_covers(result@[result_before.len() as int]@, canonical(x))
                && multi_covers(result@, canonical(x)) by {
                let w = choose|w: int| 0 <= w < group@.len() && group@[w] == x;
                assert(covers(stitched@, canonical(group@[w])));
                assert(poly_covers(rings@, canonical(x)));
                let (rr, qq) = choose|rr: int, qq: int| 0 <= rr < rings@.len() && 0 <= qq < rings@[rr]@.len()
                    && canonical(#[trigger] rings@[rr]@[qq]) == canonical(x);
                assert(result@[result_before.len() as int] == rings);
                assert(canonical(result@[result_before.len() as int]@[rr]@[qq]) == canonical(x));
            }
        }
    }

    /// The arcs that at most one polygon names, of the polygons for which
    /// `visited` holds and `seen` does not, polygon after polygon.
    fn boundary_list(
        polys: &Vec<Vec<Vec<i32>>>,
        counts: &Vec<usize>,
        visited: &Vec<bool>,
        seen: &Vec<bool>,
        root: Ghost<int>,
    ) -> (list: Vec<i32>)
        requires
            rings_valid(polygons_view(polys@), counts@.len() as int),
            forall|c: int| 0 <= c < counts@.len() ==> #[trigger] counts@[c] == capped(occurrences(polygons_view(polys@), c)),
            visited@.len() == polys@.len(),
            seen@.len() == polys@.len(),
            forall|p: int| 0 <= p < polys@.len() ==> (visited@[p] && !seen@[p]) == #[trigger] connected(polygons_view(polys@), root@, p),
        ensures
            list@ == group_boundary(polygons_view(polys@), root@, polys@.len() as int),
    {
        let ghost ps = polygons_view(polys@);
        let ghost n = counts@.len();
        let mut list: Vec<i32> = Vec::new();
        let mut p: usize = 0;
        while p < polys.len()
            invariant
                ps == polygons_view(polys@),
                n == counts@.len(),
                rings_valid(ps, n as int),
                forall|c: int| 0 <= c < n ==> #[trigger] counts@[c] == capped(occurrences(ps, c)),
                visited@.len() == polys@.len(),
                seen@.len() == polys@.len(),
                forall|p: int| 0 <= p < polys@.len() ==> (visited@[p] && !seen@[p]) == #[trigger] connected(ps, root@, p),
                p <= polys@.len(),
                list@ == group_boundary(ps, root@, p as int),
            decreases polys@.len() - p,
        {
            assert(connected(ps, root@, p as int) == (visited@[p as int] && !seen@[p as int]));
            if visited[p] && !seen[p] {
                let ghost base = list@;
                let ghost rings = ps[p as int];
                assert(rings == rings_view(polys@[p as int]@));
                let mut r: usize = 0;
                while r < polys[p].len()
                    invariant
                        ps == polygons_view(polys@),
                        n == counts@.len(),
                        rings_valid(ps, n as int),
                        forall|c: int| 0 <= c < n ==> #[trigger] counts@[c] == capped(occurrences(ps, c)),
                        p < polys@.len(),
                        rings == ps[p as int],
                        rings == rings_view(polys@[p as int]@),
                        r <= rings.len(),
                        list@ == base + poly_boundary(ps, rings, r as int),
                    decreases rings.len() - r,
                {
                    let ghost ring = rings[r as int];
                    assert(ring == polys@[p as int]@[r as int]@);
                    assert(path_valid(ring, n as int));
                    let ghost mid = list@;
                    assert(ring_boundary(ps, ring, 0) =~= Seq::<i32>::empty());
                    assert(list@ =~= mid + ring_boundary(ps, ring, 0));
                    let mut q: usize = 0;
                    while q < polys[p][r].len()
                        invariant
                            ps == polygons_view(polys@),
                            n == counts@.len(),
                            forall|c: int| 0 <= c < n ==> #[trigger] counts@[c] == capped(occurrences(ps, c)),
                            p < polys@.len(),
                            r < polys@[p as int]@.len(),
                            ring == polys@[p as int]@[r as int]@,
                            path_valid(ring, n as int),
                            q <= ring.len(),
                            list@ == mid + ring_boundary(ps, ring, q as int),
                        decreases ring.len() - q,
                    {
                        let a = polys[p][r][q];
                        assert(canonical(ring[q as int]) < n);
                        let c = crate::feature::arc_slot(a);
                        if counts[c] < 2 {
                            list.push(a);
                        }
                        q = q + 1;
                        assert(list@ =~= mid + ring_boundary(ps, ring, q as int));
                    }
                    r = r + 1;
                    assert(list@ =~= base + poly_boundary(ps, rings, r as int));
                }
                p = p + 1;
                assert(list@ =~= group_boundary(ps, root@, p as int));
            } else {
                p = p + 1;
            }
        }
        list
    }

    /// A copy of a list of flags.
    fn copy_flags(v: &Vec<bool>) -> (r: Vec<bool>)
        ensures
            r@ == v@,
    {
        let mut r: Vec<bool> = Vec::new();
        let mut k: usize = 0;
        while k < v.len()
            invariant
                k <= v@.len(),
                r@ == v@.take(k as int),
            decreases v@.len() - k,
        {
            r.push(v[k]);
            k = k + 1;
            assert(r@ =~= v@.take(k as int));
        }
        assert(v@.take(k as int) =~= v@);
        r
    }

    /// Visits, from polygon `p0`, every polygon reachable through shared arcs,
    /// and adds their group's merged polygon (if it has arcs) to `result`.
    #[verifier::rlimit(100)]
    fn merge_group(
        &self,
        polys: &Vec<Vec<Vec<i32>>>,
        p0: usize,
        counts: &Vec<usize>,
        by_arc: &Vec<Vec<usize>>,
        visited: &mut Vec<bool>,
        result: &mut Vec<Vec<Vec<i32>>>,
        pidx: Ghost<Seq<int>>,
    ) -> (pidx_final: Ghost<Seq<int>>)
        requires
            self.arcs_wf(),
            rings_valid(polygons_view(polys@), self.arcs@.len() as int),
            counts@.len() == self.arcs@.len(),
            forall|c: int| 0 <= c < self.arcs@.len() ==> #[trigger] counts@[c] == capped(occurrences(polygons_view(polys@), c)),
            by_arc@.len() == self.arcs@.len(),
            forall|j: int, k: int| 0 <= j < self.arcs@.len() && 0 <= k < by_arc@[j]@.len() ==> #[trigger] by_arc@[j]@[k] < polys@.len(),
            filed_upto(by_arc@, polygons_view(polys@), polys@.len() as int, 0, 0),
            filed_sound(by_arc@, polygons_view(polys@)),
            forall|k: int| 0 <= k < old(result)@.len() ==> rooted(polygons_view(polys@), #[trigger] old(result)@[k]@),
            old(visited)@.len() == polys@.len(),
            p0 < polys@.len(),
            !old(visited)@[p0 as int],
            forall|j: int| 0 <= j < polys@.len() && #[trigger] old(visited)@[j]
                ==> listed(polygons_view(polys@), j, old(result)@, Seq::empty()),
            merged_sound(self.arc_seqs(), self.delta_encoded, polygons_view(polys@), old(result)@),
            pidx@.len() == polys@.len(),
            forall|j: int| 0 <= j < polys@.len() && #[trigger] old(visited)@[j]
                ==> placed(polygons_view(polys@), old(result)@, pidx@, j) && tied(polygons_view(polys@), old(visited)@, pidx@, j),
        ensures
            final(visited)@.len() == polys@.len(),
            final(visited)@[p0 as int],
            forall|j: int| 0 <= j < polys@.len() && #[trigger] old(visited)@[j] ==> final(visited)@[j],
            forall|j: int| 0 <= j < polys@.len() && #[trigger] final(visited)@[j]
                ==> listed(polygons_view(polys@), j, final(result)@, Seq::empty()),
            merged_sound(self.arc_seqs(), self.delta_encoded, polygons_view(polys@), final(result)@),
            forall|k: int| 0 <= k < final(result)@.len() ==> rooted(polygons_view(polys@), #[trigger] final(result)@[k]@),
            forall|q: int| 0 <= q < polys@.len() && #[trigger] final(visited)@[q] && !old(visited)@[q]
                ==> connected(polygons_view(polys@), p0 as int, q),
            poly_views(final(result)@) == next_merged(self.arc_seqs(), self.delta_encoded, poly_views(old(result)@),
                group_boundary(polygons_view(polys@), p0 as int, polys@.len() as int)),
            pidx_final@.len() == polys@.len(),
            forall|j: int| 0 <= j < polys@.len() && #[trigger] final(visited)@[j]
                ==> placed(polygons_view(polys@), final(result)@, pidx_final@, j)
                    && tied(polygons_view(polys@), final(visited)@, pidx_final@, j),
    {
        let ghost arcs = self.arc_seqs();
        let ghost delta = self.delta_encoded;
        let ghost ps = polygons_view(polys@);
        let ghost np = polys@.len();
        let n = self.arcs.len();
        let ghost pidx = pidx@;
        let ghost mut pidx_out = pidx;
        let np_len = polys.len();
        assert(np == np_len);
        proof {
            lemma_count_true_bound(visited@, np as int);
            lemma_count_true_flip(visited@, p0 as int, np as int);
        }
        let ghost start_vis = visited@;
        let seen = Self::copy_flags(visited);
        visited.set(p0, true);
        let mut stack: Vec<usize> = vec![p0];
        let ghost mut group: Seq<i32> = Seq::empty();
        proof {
            assert(stack@.contains(p0));
            lemma_connected_start(ps, p0 as int);
        }
        while stack.len() > 0
            invariant
                ps == polygons_view(polys@),
                np == polys@.len(),
                n == self.arcs@.len(),
                rings_valid(ps, n as int),
                counts@.len() == n,
                forall|c: int| 0 <= c < n ==> #[trigger] counts@[c] == capped(occurrences(ps, c)),
                by_arc@.len() == n,
                forall|j: int, k: int| 0 <= j < n && 0 <= k < by_arc@[j]@.len() ==> #[trigger] by_arc@[j]@[k] < np,
                visited@.len() == np,
                forall|j: int| 0 <= j < stack@.len() ==> #[trigger] stack@[j] < np,
                p0 < np,
                forall|j: int| 0 <= j < np && #[trigger] old(visited)@[j] ==> visited@[j],
                visited@[p0 as int],
                forall|j: int| 0 <= j < np && #[trigger] visited@[j] && !stack@.contains(j as usize)
                    ==> listed(ps, j, result@, group),
                forall|j: int| 0 <= j < group.len() ==> boundary_arc(ps, #[trigger] group[j]),
                forall|j: int| 0 <= j < group.len() ==> canonical(#[trigger] group[j]) < n,
                merged_sound(arcs, delta, ps, result@),
                pidx.len() == np,
                ps.len() == np,
                np <= usize::MAX,
                start_vis.len() == np,
                filed_sound(by_arc@, ps),
                forall|j: int| 0 <= j < np && #[trigger] visited@[j] && !start_vis[j] ==> connected(ps, p0 as int, j),
                forall|j: int| 0 <= j < stack@.len() ==> visited@[#[trigger] stack@[j] as int],
                forall|g: int| 0 <= g < group.len() ==> from_group(ps, visited@, start_vis, #[trigger] group[g]),
                forall|k: int| 0 <= k < result@.len() ==> rooted(ps, #[trigger] result@[k]@),
                filed_upto(by_arc@, ps, np as int, 0, 0),
                !start_vis[p0 as int],
                forall|j: int| 0 <= j < np && #[trigger] start_vis[j] ==> visited@[j],
                forall|j: int| 0 <= j < np && #[trigger] start_vis[j]
                    ==> placed(ps, result@, pidx, j) && tied(ps, start_vis, pidx, j),
                forall|j: int| 0 <= j < stack@.len() ==> !start_vis[#[trigger] stack@[j] as int],
                forall|j: int| 0 <= j < np && #[trigger] visited@[j] && !start_vis[j] && !stack@.contains(j as usize)
                    ==> gathered(ps, group, visited@, j),
            decreases np - count_true(visited@, np as int), stack@.len(),
        {
            proof {
                lemma_count_true_bound(visited@, np as int);
            }
            let ghost stack_before = stack@;
            let ghost visited_before = visited@;
            let ghost group_before = group;
            let qi = stack.pop().unwrap();
            proof {
                assert(stack_before =~= stack@.push(qi));
                assert(qi == stack_before[stack_before.len() - 1]);
            }
            let ghost stack_mid = stack@;
            let next_group = Self::visit_polygon(polys, qi, counts, by_arc, visited, &mut stack, Ghost(group));
            proof {
                group = next_group@;
            }
            proof {
                assert(visited_before[qi as int] && !start_vis[qi as int]);
                assert forall|j: int| 0 <= j < np && #[trigger] visited@[j] && !start_vis[j] implies connected(ps, p0 as int, j) by {
                    if !visited_before[j] {
                        lemma_connected_step(ps, p0 as int, qi as int, j);
                    }
                }
                assert forall|j: int| 0 <= j < stack@.len() implies visited@[#[trigger] stack@[j] as int] by {
                    if j < stack_mid.len() {
                        assert(stack@[j] == stack@.take(stack_mid.len() as int)[j]);
                        assert(stack_mid[j] == stack_before[j]);
                        assert(visited_before[stack_before[j] as int]);
                    }
                }
                assert forall|g: int| 0 <= g < group.len() implies from_group(ps, visited@, start_vis, #[trigger] group[g]) by {
                    if g < group_before.len() {
                        assert(group[g] == group.take(group_before.len() as int)[g]);
                        assert(from_group(ps, visited_before, start_vis, group_before[g]));
                        let w = choose|w: int| 0 <= w < ps.len() && visited_before[w] && !start_vis[w] && #[trigger] in_polygon(ps[w], group_before[g]);
                        assert(visited@[w]);
                    } else {
                        assert(in_polygon(ps[qi as int], group[g]));
                    }
                }
                lemma_count_true_bound(visited@, np as int);
                assert forall|j: int| 0 <= j < np && #[trigger] old(visited)@[j] implies visited@[j] by {
                    assert(visited_before[j]);
                }
                assert(visited_before[p0 as int]);
                assert forall|j: int| 0 <= j < stack@.len() implies #[trigger] stack@[j] < np by {
                    if j < stack_mid.len() {
                        assert(stack@[j] == stack@.take(stack_mid.len() as int)[j]);
                        assert(stack_mid[j] == stack_before[j]);
                    }
                }
                assert forall|j: int| 0 <= j < group.len() implies boundary_arc(ps, #[trigger] group[j])
                    && canonical(group[j]) < n by {
                    if j < group_before.len() {
                        assert(group[j] == group.take(group_before.len() as int)[j]);
                    }
                }
                assert forall|x: i32| group_before.contains(x) implies #[trigger] group.contains(x) by {
                    let w = choose|w: int| 0 <= w < group_before.len() && group_before[w] == x;
                    assert(group[w] == group.take(group_before.len() as int)[w]);
                }
                assert forall|j: int| 0 <= j < np && #[trigger] start_vis[j] implies visited@[j] by {
                    assert(visited_before[j]);
                }
                assert forall|j: int| 0 <= j < stack@.len() implies !start_vis[#[trigger] stack@[j] as int] by {
                    if j < stack_mid.len() {
                        assert(stack@[j] == stack@.take(stack_mid.len() as int)[j]);
                        assert(stack_mid[j] == stack_before[j]);
                    } else {
                        assert(!visited_before[stack@[j] as int]);
                    }
                }
                assert forall|j: int| 0 <= j < np && #[trigger] visited@[j] && !start_vis[j] && !stack@.contains(j as usize)
                    implies gathered(ps, group, visited@, j) by {
                    if j == qi {
                        lemma_sharers_visited(ps, by_arc@, visited@, qi as int);
                        assert forall|x: i32| #[trigger] in_polygon(ps[j], x) && occurrences(ps, canonical(x)) == 1
                            implies group.contains(x) by {
                            let (a, b) = choose|a: int, b: int| 0 <= a < ps[j].len() && 0 <= b < ps[j][a].len() && #[trigger] ps[j][a][b] == x;
                            assert(occurrences(ps, canonical(ps[qi as int][a][b])) < 2);
                        }
                    } else {
                        assert(visited_before[j]) by {
                            if !visited_before[j] {
                                assert(stack@.contains(j as usize));
                            }
                        }
                        assert(!stack_before.contains(j as usize)) by {
                            if stack_before.contains(j as usize) {
                                let w = choose|w: int| 0 <= w < stack_before.len() && stack_before[w] == j as usize;
                                assert(w < stack_mid.len());
                                assert(stack@[w] == stack@.take(stack_mid.len() as int)[w]);
                            }
                        }
                        lemma_gathered_grows(ps, group_before, group, visited_before, visited@, j);
                    }
                }
                assert forall|j: int| 0 <= j < np && #[trigger] visited@[j] && !stack@.contains(j as usize)
                    implies listed(ps, j, result@, group) by {
                    if j == qi {
                    } else {
                        assert(visited_before[j]) by {
                            if !visited_before[j] {
                                assert(stack@.contains(j as usize));
                            }
                        }
                        assert(!stack_before.contains(j as usize)) by {
                            if stack_before.contains(j as usize) {
                                let w = choose|w: int| 0 <= w < stack_before.len() && stack_before[w] == j as usize;
                                assert(w < stack_mid.len());
                                assert(stack@[w] == stack@.take(stack_mid.len() as int)[w]);
                            }
                        }
                    }
                }
            }
        }
        proof {
            assert forall|q: int| 0 <= q < np implies (visited@[q] && !seen@[q]) == #[trigger] connected(ps, p0 as int, q) by {
                if connected(ps, p0 as int, q) {
                    assert forall|j: int, q2: int| 0 <= j < ps.len() && 0 <= q2 < ps.len() && visited@[j] && !start_vis[j]
                        && #[trigger] share(ps, j, q2) implies visited@[q2] by {
                        assert(!stack@.contains(j as usize));
                        assert(gathered(ps, group, visited@, j));
                    }
                    assert forall|j: int, q2: int| 0 <= j < ps.len() && 0 <= q2 < ps.len() && start_vis[j]
                        && #[trigger] share(ps, j, q2) implies start_vis[q2] by {
                        assert(tied(ps, start_vis, pidx, j));
                    }
                    lemma_component(ps, start_vis, visited@, p0 as int, q);
                }
            }
        }
        let list = Self::boundary_list(polys, counts, visited, &seen, Ghost(p0 as int));
        proof {
            assert forall|g: int| 0 <= g < list@.len() implies boundary_arc(ps, #[trigger] list@[g])
                && canonical(list@[g]) < n by {
                let x = list@[g];
                lemma_group_boundary_contains(ps, p0 as int, np as int, x);
                assert(list@.contains(x));
                let w = choose|w: int| 0 <= w < np && connected(ps, p0 as int, w) && #[trigger] in_polygon(ps[w], x)
                    && occurrences(ps, canonical(x)) < 2;
                let (a, b) = choose|a: int, b: int| 0 <= a < ps[w].len() && 0 <= b < ps[w][a].len() && #[trigger] ps[w][a][b] == x;
                lemma_occurs(ps, w, a, b);
                assert(path_valid(ps[w][a], n as int));
            }
        }
        let ghost result_before = result@;
        self.close_group(Ghost(ps), &list, result);
        proof {
            assert forall|k: int| 0 <= k < result@.len() implies rooted(ps, #[trigger] result@[k]@) by {
                if k < result_before.len() {
                    assert(result@[k] == result_before[k]);
                } else {
                    let poly = result@[k]@;
                    assert forall|r: int, q: int| 0 <= r < poly.len() && 0 <= q < poly[r]@.len()
                        implies #[trigger] reached(ps, p0 as int, poly[r]@[q]) by {
                        let x = poly[r]@[q];
                        assert(list@.contains(result@[result_before.len() as int]@[r]@[q]));
                        lemma_group_boundary_contains(ps, p0 as int, np as int, x);
                    }
                    assert(rooted_at(ps, poly, p0 as int));
                }
            }
            assert forall|j: int| 0 <= j < np && #[trigger] visited@[j] && !start_vis[j]
                implies gathered(ps, list@, visited@, j) by {
                assert(!stack@.contains(j as usize));
                assert(gathered(ps, group, visited@, j));
                assert(connected(ps, p0 as int, j));
                assert forall|x: i32| #[trigger] in_polygon(ps[j], x) && occurrences(ps, canonical(x)) == 1
                    implies list@.contains(x) by {
                    lemma_group_boundary_contains(ps, p0 as int, np as int, x);
                }
            }
            lemma_multi_covers_push(result_before, result@[result@.len() - 1]);
            assert forall|j: int| 0 <= j < np && #[trigger] visited@[j] implies listed(ps, j, result@, Seq::empty()) by {
                if result@.len() > result_before.len() {
                    lemma_multi_covers_push(result_before, result@[result_before.len() as int]);
                    assert(result@ =~= result_before.push(result@[result_before.len() as int]));
                } else {
                    assert(result@ =~= result_before);
                }
                if start_vis[j] {
                    assert(listed(ps, j, result_before, Seq::empty()));
                } else {
                    assert(gathered(ps, list@, visited@, j));
                    assert forall|r: int, q: int| 0 <= r < ps[j].len() && 0 <= q < ps[j][r].len()
                        && occurrences(ps, canonical(#[trigger] ps[j][r][q])) < 2
                        implies multi_covers(result@, canonical(ps[j][r][q])) || Seq::<i32>::empty().contains(ps[j][r][q]) by {
                        lemma_occurs(ps, j, r, q);
                        assert(in_polygon(ps[j], ps[j][r][q]));
                        assert(list@.contains(ps[j][r][q]));
                    }
                }
            }
            let ghost pidx2 = Seq::new(np as nat, |j: int| if visited@[j] && !start_vis[j] { result_before.len() as int } else { pidx[j] });
            lemma_group_end(ps, start_vis, visited@, pidx, pidx2, result_before, result@, list@);
            pidx_out = pidx2;
        }
        Ghost(pidx_out)
    }

    /// Dissolves the arcs shared between polygons: the polygons of `objects`
    /// are grouped by shared arcs (each group reaching from its first
    /// polygon), and each group becomes one polygon whose rings are its arcs
    /// named by a single polygon, taken polygon after polygon and stitched
    /// together, the ring of largest area first. Groups come in the order of
    /// their first polygon; groups without such arcs are left out.
    #[verifier::rlimit(100)]
    pub fn merge_arcs(&self, objects: &Vec<Geometry<P, M>>) -> (result: Vec<Vec<Vec<i32>>>)
        requires
            self.arcs_wf(),
            members_valid(objects@, self.arcs@.len() as int, objects@.len() as int),
        ensures
            merged_sound(self.arc_seqs(), self.delta_encoded, members_polygons(objects@, objects@.len() as int), result@),
            forall|x: i32| #[trigger] boundary_arc(members_polygons(objects@, objects@.len() as int), x)
                ==> multi_covers(result@, canonical(x)),
            grouped(members_polygons(objects@, objects@.len() as int), result@),
            forall|k: int| 0 <= k < result@.len()
                ==> rooted(members_polygons(objects@, objects@.len() as int), #[trigger] result@[k]@),
            poly_views(result@) == merge_polys(self.arc_seqs(), self.delta_encoded,
                members_polygons(objects@, objects@.len() as int), objects_polygon_count(objects@)),
    {
        let ghost arcs = self.arc_seqs();
        let ghost delta = self.delta_encoded;
        let n = self.arcs.len();
        let mut polys: Vec<Vec<Vec<i32>>> = Vec::new();
        collect_members(objects, &mut polys);
        let ghost ps = polygons_view(polys@);
        assert(ps =~= members_polygons(objects@, objects@.len() as int));
        proof {
            lemma_members_polygons_valid(*objects, n as int, objects@.len() as int);
        }
        let np = polys.len();
        assert forall|p: int, r: int| 0 <= p < polys@.len() && 0 <= r < polys@[p]@.len()
            implies indices_valid(#[trigger] polys@[p]@[r]@, n as int) by {
            assert(ps[p][r] == polys@[p]@[r]@);
            assert(path_valid(ps[p][r], n as int));
        }
        let counts = count_arcs(&polys, n);
        let by_arc = Self::polygons_by_arc(&polys, n);
        let ghost mut pidx: Seq<int> = Seq::new(np as nat, |j: int| 0int);

        let mut visited: Vec<bool> = Vec::new();
        let mut k: usize = 0;
        while k < np
            invariant
                k <= np,
                visited@.len() == k,
                forall|j: int| 0 <= j < k ==> !(#[trigger] visited@[j]),
            decreases np - k,
        {
            visited.push(false);
            k = k + 1;
        }
        proof {
            lemma_count_zero(visited@, np as int);
        }
        let mut result: Vec<Vec<Vec<i32>>> = Vec::new();
        let mut p0: usize = 0;
        while p0 < np
            invariant
                self.arcs_wf(),
                arcs == self.arc_seqs(),
                delta == self.delta_encoded,
                ps == polygons_view(polys@),
                np == polys@.len(),
                n == self.arcs@.len(),
                rings_valid(ps, n as int),
                counts@.len() == n,
                forall|c: int| 0 <= c < n ==> #[trigger] counts@[c] == capped(occurrences(ps, c)),
                by_arc@.len() == n,
                forall|j: int, k: int| 0 <= j < n && 0 <= k < by_arc@[j]@.len() ==> #[trigger] by_arc@[j]@[k] < np,
                visited@.len() == np,
                p0 <= np,
                forall|j: int| 0 <= j < p0 ==> #[trigger] visited@[j],
                forall|j: int| 0 <= j < np && #[trigger] visited@[j] ==> listed(ps, j, result@, Seq::empty()),
                merged_sound(arcs, delta, ps, result@),
                pidx.len() == np,
                ps.len() == np,
                filed_upto(by_arc@, ps, np as int, 0, 0),
                filed_sound(by_arc@, ps),
                forall|j: int| 0 <= j < np && #[trigger] visited@[j]
                    ==> placed(ps, result@, pidx, j) && tied(ps, visited@, pidx, j),
                forall|k: int| 0 <= k < result@.len() ==> rooted(ps, #[trigger] result@[k]@),
                poly_views(result@) == merge_polys(arcs, delta, ps, p0 as int),
                forall|q: int| 0 <= q < np && #[trigger] visited@[q]
                    ==> exists|r: int| 0 <= r <= q && r < p0 && #[trigger] connected(ps, r, q),
            decreases np - p0,
        {
            let ghost result_prev = result@;
            if !visited[p0] {
                let ghost visited_prev = visited@;
                proof {
                    assert forall|p: int| 0 <= p < p0 implies !#[trigger] connected(ps, p, p0 as int) by {
                        if connected(ps, p, p0 as int) {
                            assert(visited_prev[p]);
                            assert forall|j: int, q: int| 0 <= j < ps.len() && 0 <= q < ps.len() && visited_prev[j]
                                && #[trigger] share(ps, j, q) implies visited_prev[q] by {
                                assert(tied(ps, visited_prev, pidx, j));
                            }
                            lemma_path_closed(ps, visited_prev, p, p0 as int);
                        }
                    }
                    assert(is_root(ps, p0 as int));
                }
                let next = self.merge_group(&polys, p0, &counts, &by_arc, &mut visited, &mut result, Ghost(pidx));
                proof {
                    pidx = next@;
                    assert forall|j: int| 0 <= j < p0 implies #[trigger] visited@[j] by {
                        assert(visited_prev[j]);
                    }
                    assert(merge_polys(arcs, delta, ps, p0 + 1) == next_merged(arcs, delta, merge_polys(arcs, delta, ps, p0 as int),
                        group_boundary(ps, p0 as int, np as int)));
                    assert forall|q: int| 0 <= q < np && #[trigger] visited@[q]
                        implies exists|r: int| 0 <= r <= q && r < p0 + 1 && #[trigger] connected(ps, r, q) by {
                        if visited_prev[q] {
                            let r = choose|r: int| 0 <= r <= q && r < p0 && #[trigger] connected(ps, r, q);
                            assert(connected(ps, r, q));
                        } else {
                            assert(connected(ps, p0 as int, q));
                            assert(q >= p0) by {
                                if q < p0 {
                                    assert(visited_prev[q]);
                                }
                            }
                        }
                    }
                }
            } else {
                proof {
                    let r = choose|r: int| 0 <= r <= p0 && r < p0 && #[trigger] connected(ps, r, p0 as int);
                    assert(!is_root(ps, p0 as int));
                    assert(merge_polys(arcs, delta, ps, p0 + 1) == merge_polys(arcs, delta, ps, p0 as int));
                }
            }
            p0 = p0 + 1;
        }
        proof {
            assert forall|x: i32| #[trigger] boundary_arc(ps, x) implies multi_covers(result@, canonical(x)) by {
                let (p, r, q) = choose|p: int, r: int, q: int|
                    0 <= p < ps.len() && 0 <= r < ps[p].len() && 0 <= q < ps[p][r].len() && #[trigger] ps[p][r][q] == x;
                assert(visited@[p]);
                assert(listed(ps, p, result@, Seq::empty()));
            }
            assert(np == objects_polygon_count(objects@));
            assert forall|p: int, q: int, x: i32, y: i32|
                0 <= p < ps.len() && 0 <= q < ps.len() && share(ps, p, q)
                && #[trigger] in_polygon(ps[p], x) && occurrences(ps, canonical(x)) == 1
                && #[trigger] in_polygon(ps[q], y) && occurrences(ps, canonical(y)) == 1
                implies exists|k: int| 0 <= k < result@.len() && poly_covers(result@[k]@, canonical(x))
                    && #[trigger] poly_covers(result@[k]@, canonical(y)) by {
                assert(visited@[p] && visited@[q]);
                assert(placed(ps, result@, pidx, p) && tied(ps, visited@, pidx, p));
                assert(placed(ps, result@, pidx, q));
                assert(pidx[q] == pidx[p]);
            }
        }
        result
    }
}

} // verus!
