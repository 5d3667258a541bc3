//! Reconstruction: the positions of arcs, lines, rings and polygons in the
//! stored grid, and of whole geometries and features.

use vstd::prelude::*;
use crate::topology::{
    meta_of, TopologyError, Geometry, TopoJSON, canonical, members_valid, lemma_member_valid, path_valid, paths_valid, geometry_valid, Position, Stored, arc_bounded, arc_points, decoded, fits_i32, sum_x, sum_y,
};

verus! {

/// `points` followed by `a`, the last point of `points` (the joining vertex)
/// given way to the first point of `a`.
pub open spec fn join(points: Seq<Position>, a: Seq<Position>) -> Seq<Position> {
    if points.len() == 0 { a } else { points.drop_last() + a }
}

/// The positions of the arcs `idx`, joined one after the other.
pub open spec fn line_points(arcs: Seq<Seq<Stored>>, delta: bool, idx: Seq<i32>) -> Seq<Position>
    decreases idx.len(),
{
    if idx.len() == 0 {
        Seq::empty()
    } else {
        join(line_points(arcs, delta, idx.drop_last()), arc_points(arcs, delta, idx.last()))
    }
}

/// `s` padded with copies of its first element up to length `n`.
pub open spec fn pad_to(s: Seq<Position>, n: int) -> Seq<Position> {
    if s.len() >= n { s } else { s + Seq::new((n - s.len()) as nat, |k: int| s[0]) }
}

/// The coordinates of a line: its joined positions, at least two of them.
pub open spec fn line_coords(arcs: Seq<Seq<Stored>>, delta: bool, idx: Seq<i32>) -> Seq<Position> {
    pad_to(line_points(arcs, delta, idx), 2)
}

/// The coordinates of a ring: those of its line, at least four of them.
pub open spec fn ring_coords(arcs: Seq<Seq<Stored>>, delta: bool, idx: Seq<i32>) -> Seq<Position> {
    pad_to(line_coords(arcs, delta, idx), 4)
}

/// A geometry's coordinates in the stored grid: arc-based geometries are
/// reconstructed from their arcs, point coordinates are carried as given.
#[derive(Debug, PartialEq)]
pub enum FeatureGeometryType<P> {
    GeometryCollection { geometries: Vec<FeatureGeometryType<P>> },
    Point { coordinates: P },
    MultiPoint { coordinates: Vec<P> },
    LineString { coordinates: Vec<Position> },
    MultiLineString { coordinates: Vec<Vec<Position>> },
    Polygon { coordinates: Vec<Vec<Position>> },
    MultiPolygon { coordinates: Vec<Vec<Vec<Position>>> },
}

/// The result of reconstructing one object: a collection is turned into one
/// feature per member, any other geometry into a single feature.
#[derive(Debug, PartialEq)]
pub enum Feature<P, M> {
    Item(FeatureItem<P, M>),
    Collection(Vec<FeatureItem<P, M>>),
}

/// A reconstructed geometry, with the metadata of the geometry it was made of.
#[derive(Debug, PartialEq)]
pub struct FeatureItem<P, M> {
    pub geometry: FeatureGeometryType<P>,
    pub meta: M,
}

pub open spec fn lines_match(arcs: Seq<Seq<Stored>>, delta: bool, paths: Seq<Vec<i32>>, out: Seq<Vec<Position>>) -> bool {
    &&& out.len() == paths.len()
    &&& forall|k: int| 0 <= k < paths.len() ==> #[trigger] out[k]@ == line_coords(arcs, delta, paths[k]@)
}

pub open spec fn rings_match(arcs: Seq<Seq<Stored>>, delta: bool, paths: Seq<Vec<i32>>, out: Seq<Vec<Position>>) -> bool {
    &&& out.len() == paths.len()
    &&& forall|k: int| 0 <= k < paths.len() ==> #[trigger] out[k]@ == ring_coords(arcs, delta, paths[k]@)
}

/// `out` is the reconstruction of `g` against the arcs.
pub open spec fn reconstructs<P, M>(arcs: Seq<Seq<Stored>>, delta: bool, g: Geometry<P, M>, out: FeatureGeometryType<P>) -> bool
    decreases g, 0int,
{
    match g {
        Geometry::GeometryCollection { geometries, .. } => match out {
            FeatureGeometryType::GeometryCollection { geometries: outs } => {
                &&& outs@.len() == geometries@.len()
                &&& members_reconstruct(arcs, delta, geometries@, outs@, geometries@.len() as int)
            },
            _ => false,
        },
        Geometry::Point { coordinates, .. } => out == FeatureGeometryType::<P>::Point { coordinates },
        Geometry::MultiPoint { coordinates, .. } => match out {
            FeatureGeometryType::MultiPoint { coordinates: c } => c@ == coordinates@,
            _ => false,
        },
        Geometry::LineString { arcs: idx, .. } => match out {
            FeatureGeometryType::LineString { coordinates } => coordinates@ == line_coords(arcs, delta, idx@),
            _ => false,
        },
        Geometry::MultiLineString { arcs: paths, .. } => match out {
            FeatureGeometryType::MultiLineString { coordinates } => lines_match(arcs, delta, paths@, coordinates@),
            _ => false,
        },
        Geometry::Polygon { arcs: paths, .. } => match out {
            FeatureGeometryType::Polygon { coordinates } => rings_match(arcs, delta, paths@, coordinates@),
            _ => false,
        },
        Geometry::MultiPolygon { arcs: polys, .. } => match out {
            FeatureGeometryType::MultiPolygon { coordinates } => {
                &&& coordinates@.len() == polys@.len()
                &&& forall|k: int| 0 <= k < polys@.len()
                    ==> rings_match(arcs, delta, #[trigger] polys@[k]@, coordinates@[k]@)
            },
            _ => false,
        },
    }
}

/// The first `i` members of `outs` reconstruct those of `gs`.
pub open spec fn members_reconstruct<P, M>(
    arcs: Seq<Seq<Stored>>,
    delta: bool,
    gs: Seq<Geometry<P, M>>,
    outs: Seq<FeatureGeometryType<P>>,
    i: int,
) -> bool
    decreases gs, i,
{
    if i <= 0 || i > gs.len() {
        true
    } else {
        reconstructs(arcs, delta, gs[i - 1], outs[i - 1]) && members_reconstruct(arcs, delta, gs, outs, i - 1)
    }
}

proof fn lemma_members_reconstruct_push<P, M>(
    arcs: Seq<Seq<Stored>>,
    delta: bool,
    gs: Seq<Geometry<P, M>>,
    outs: Seq<FeatureGeometryType<P>>,
    o: FeatureGeometryType<P>,
    i: int,
)
    requires
        members_reconstruct(arcs, delta, gs, outs, i),
        0 <= i <= outs.len(),
        i <= gs.len(),
    ensures
        members_reconstruct(arcs, delta, gs, outs.push(o), i),
    decreases i,
{
    if i > 0 {
        lemma_members_reconstruct_push(arcs, delta, gs, outs, o, i - 1);
    }
}

/// Decodes the stored coordinates of one arc into grid positions.
pub fn decode_arc(a: &Vec<Stored>, delta: bool) -> (r: Vec<Position>)
    requires
        arc_bounded(a@, delta),
    ensures
        r@ == decoded(a@, delta),
{
    let mut r: Vec<Position> = Vec::new();
    let mut x: i64 = 0;
    let mut y: i64 = 0;
    let mut k: usize = 0;
    while k < a.len()
        invariant
            arc_bounded(a@, delta),
            k <= a@.len(),
            delta ==> x as int == sum_x(a@, k as int),
            delta ==> y as int == sum_y(a@, k as int),
            delta && k > 0 ==> fits_i32(x as int) && fits_i32(y as int),
            delta && k == 0 ==> x == 0 && y == 0,
            r@ == decoded(a@, delta).take(k as int),
        decreases a@.len() - k,
    {
        let (px, py) = a[k];
        if delta {
            assert(crate::topology::prefix_fits(a@, k + 1));
            x = x + px as i64;
            y = y + py as i64;
            r.push((x, y));
        } else {
            r.push((px as i64, py as i64));
        }
        k = k + 1;
        assert(r@ =~= decoded(a@, delta).take(k as int));
    }
    assert(r@ =~= decoded(a@, delta));
    r
}

/// The arc that a signed index names, as an index into the arc list.
pub(crate) fn arc_slot(i: i32) -> (r: usize)
    ensures
        r as int == canonical(i),
{
    if i < 0 { (-1i32 - i) as usize } else { i as usize }
}

/// Reverses, in place, the last `n` positions of `points` (all of them when
/// there are fewer than `n`).
pub fn reverse(points: &mut Vec<Position>, n: usize)
    ensures
        ({
            let len = old(points)@.len();
            let m = if n <= len { n as int } else { len as int };
            final(points)@ == old(points)@.take(len - m) + old(points)@.skip(len - m).reverse()
        }),
{
    let ghost start = points@;
    let len = points.len();
    let m = if n <= len { n } else { len };
    let mut tail: Vec<Position> = Vec::new();
    let mut k: usize = 0;
    while k < m
        invariant
            m <= len,
            len == start.len(),
            k <= m,
            points@ == start.take(len - k),
            tail@ == start.skip(len - k).reverse(),
        decreases m - k,
    {
        let p = points.pop().unwrap();
        tail.push(p);
        k = k + 1;
        assert(points@ =~= start.take(len - k));
        assert(tail@ =~= start.skip(len - k).reverse());
    }
    let mut j: usize = 0;
    while j < m
        invariant
            m <= len,
            len == start.len(),
            j <= m,
            tail@ == start.skip(len - m).reverse(),
            points@ == start.take(len - m) + tail@.take(j as int),
        decreases m - j,
    {
        points.push(tail[j]);
        j = j + 1;
        assert(points@ =~= start.take(len - m) + tail@.take(j as int));
    }
    assert(tail@.take(j as int) =~= tail@);
}

proof fn lemma_join_len(points: Seq<Position>, a: Seq<Position>)
    ensures
        join(points, a).len() >= a.len(),
        points.len() >= 1 ==> join(points, a).len() == points.len() - 1 + a.len(),
{
}

impl<P, M> TopoJSON<P, M> {
    /// Drops the last point of `points` (if any) and appends the positions of
    /// arc `i`, reversed when `i` is negative.
    pub fn push_arc(&self, i: i32, points: &mut Vec<Position>)
        requires
            self.arcs_wf(),
            canonical(i) < self.arcs@.len(),
        ensures
            final(points)@ == join(old(points)@, arc_points(self.arc_seqs(), self.delta_encoded, i)),
    {
        if points.len() > 0 {
            points.pop();
        }
        let c = arc_slot(i);
        assert(self.arc_seqs()[c as int] == self.arcs@[c as int]@);
        let d = decode_arc(&self.arcs[c], self.delta_encoded);
        let ghost base = points@;
        let n = d.len();
        let mut k: usize = 0;
        while k < n
            invariant
                n == d@.len(),
                k <= n,
                points@ == base + d@.take(k as int),
            decreases n - k,
        {
            points.push(d[k]);
            k = k + 1;
            assert(points@ =~= base + d@.take(k as int));
        }
        assert(d@.take(n as int) =~= d@);
        if i < 0 {
            reverse(points, n);
            proof {
                let all = base + d@;
                assert(all.take(all.len() - n) =~= base);
                assert(all.skip(all.len() - n) =~= d@);
            }
        }
    }

    /// The coordinates of the line through the arcs `idx`: the arcs joined at
    /// their shared vertices, a lone point repeated once.
    pub fn line(&self, idx: &Vec<i32>) -> (r: Vec<Position>)
        requires
            self.arcs_wf(),
            path_valid(idx@, self.arcs@.len() as int),
        ensures
            r@ == line_coords(self.arc_seqs(), self.delta_encoded, idx@),
            r@.len() >= 2,
    {
        let ghost arcs = self.arc_seqs();
        let ghost delta = self.delta_encoded;
        let mut points: Vec<Position> = Vec::new();
        let mut k: usize = 0;
        while k < idx.len()
            invariant
                self.arcs_wf(),
                path_valid(idx@, self.arcs@.len() as int),
                arcs == self.arc_seqs(),
                delta == self.delta_encoded,
                k <= idx@.len(),
                points@ == line_points(arcs, delta, idx@.take(k as int)),
                k > 0 ==> points@.len() >= 1,
            decreases idx@.len() - k,
        {
            let i = idx[k];
            assert(canonical(idx@[k as int]) < self.arcs@.len());
            self.push_arc(i, &mut points);
            proof {
                assert(idx@.take(k + 1).drop_last() =~= idx@.take(k as int));
                assert(self.arcs@[canonical(i)]@.len() >= 1);
                assert(arcs[canonical(i)] == self.arcs@[canonical(i)]@);
                lemma_join_len(line_points(arcs, delta, idx@.take(k as int)), arc_points(arcs, delta, i));
            }
            k = k + 1;
        }
        assert(idx@.take(k as int) =~= idx@);
        if points.len() < 2 {
            let p = points[0];
            points.push(p);
            assert(points@ =~= line_coords(arcs, delta, idx@));
        }
        points
    }

    /// The coordinates of the ring through the arcs `idx`: its line, padded
    /// with copies of the first position up to four positions.
    pub fn ring(&self, idx: &Vec<i32>) -> (r: Vec<Position>)
        requires
            self.arcs_wf(),
            path_valid(idx@, self.arcs@.len() as int),
        ensures
            r@ == ring_coords(self.arc_seqs(), self.delta_encoded, idx@),
            r@.len() >= 4,
    {
        let mut points = self.line(idx);
        let ghost lc = points@;
        while points.len() < 4
            invariant
                lc.len() >= 2,
                points@.len() >= lc.len(),
                lc.len() < 4 ==> points@.len() <= 4,
                lc.len() >= 4 ==> points@.len() == lc.len(),
                points@ =~= lc + Seq::new((points@.len() - lc.len()) as nat, |k: int| lc[0]),
            decreases 4 - points@.len(),
        {
            let p = points[0];
            points.push(p);
        }
        assert(points@ =~= pad_to(lc, 4));
        points
    }

    /// The coordinates of each line of `paths`.
    pub fn lines(&self, paths: &Vec<Vec<i32>>) -> (r: Vec<Vec<Position>>)
        requires
            self.arcs_wf(),
            paths_valid(paths@, self.arcs@.len() as int),
        ensures
            lines_match(self.arc_seqs(), self.delta_encoded, paths@, r@),
    {
        let mut r: Vec<Vec<Position>> = Vec::new();
        let mut k: usize = 0;
        while k < paths.len()
            invariant
                self.arcs_wf(),
                paths_valid(paths@, self.arcs@.len() as int),
                k <= paths@.len(),
                r@.len() == k,
                forall|j: int| 0 <= j < k ==> #[trigger] r@[j]@ == line_coords(self.arc_seqs(), self.delta_encoded, paths@[j]@),
            decreases paths@.len() - k,
        {
            assert(path_valid(paths@[k as int]@, self.arcs@.len() as int));
            let l = self.line(&paths[k]);
            r.push(l);
            k = k + 1;
        }
        r
    }

    /// The coordinates of each ring of a polygon.
    pub fn polygon(&self, paths: &Vec<Vec<i32>>) -> (r: Vec<Vec<Position>>)
        requires
            self.arcs_wf(),
            paths_valid(paths@, self.arcs@.len() as int),
        ensures
            rings_match(self.arc_seqs(), self.delta_encoded, paths@, r@),
    {
        let mut r: Vec<Vec<Position>> = Vec::new();
        let mut k: usize = 0;
        while k < paths.len()
            invariant
                self.arcs_wf(),
                paths_valid(paths@, self.arcs@.len() as int),
                k <= paths@.len(),
                r@.len() == k,
                forall|j: int| 0 <= j < k ==> #[trigger] r@[j]@ == ring_coords(self.arc_seqs(), self.delta_encoded, paths@[j]@),
            decreases paths@.len() - k,
        {
            assert(path_valid(paths@[k as int]@, self.arcs@.len() as int));
            let l = self.ring(&paths[k]);
            r.push(l);
            k = k + 1;
        }
        r
    }
}

impl<P: Copy, M: Copy> TopoJSON<P, M> {
    /// Reconstructs the coordinates of `g`: lines and rings from their arcs,
    /// points carried as they are, collections member by member.
    pub fn object(&self, g: &Geometry<P, M>) -> (r: FeatureGeometryType<P>)
        requires
            self.arcs_wf(),
            geometry_valid(*g, self.arcs@.len() as int),
        ensures
            reconstructs(self.arc_seqs(), self.delta_encoded, *g, r),
        decreases g, 1int,
    {
        match g {
            Geometry::GeometryCollection { geometries, .. } => {
                let outs = self.members(geometries);
                FeatureGeometryType::GeometryCollection { geometries: outs }
            },
            Geometry::Point { coordinates, .. } => FeatureGeometryType::Point { coordinates: *coordinates },
            Geometry::MultiPoint { coordinates, .. } => {
                let mut c: Vec<P> = Vec::new();
                let mut k: usize = 0;
                while k < coordinates.len()
                    invariant
                        k <= coordinates@.len(),
                        c@ == coordinates@.take(k as int),
                    decreases coordinates@.len() - k,
                {
                    c.push(coordinates[k]);
                    k = k + 1;
                    assert(c@ =~= coordinates@.take(k as int));
                }
                assert(c@ =~= coordinates@);
                FeatureGeometryType::MultiPoint { coordinates: c }
            },
            Geometry::LineString { arcs, .. } => FeatureGeometryType::LineString { coordinates: self.line(arcs) },
            Geometry::MultiLineString { arcs, .. } => FeatureGeometryType::MultiLineString {
                coordinates: self.lines(arcs),
            },
            Geometry::Polygon { arcs, .. } => FeatureGeometryType::Polygon { coordinates: self.polygon(arcs) },
            Geometry::MultiPolygon { arcs, .. } => {
                let mut polys: Vec<Vec<Vec<Position>>> = Vec::new();
                let mut k: usize = 0;
                while k < arcs.len()
                    invariant
                        self.arcs_wf(),
                        forall|j: int| 0 <= j < arcs@.len() ==> paths_valid(#[trigger] arcs@[j]@, self.arcs@.len() as int),
                        k <= arcs@.len(),
                        polys@.len() == k,
                        forall|j: int| 0 <= j < k ==> rings_match(
                            self.arc_seqs(), self.delta_encoded, #[trigger] arcs@[j]@, polys@[j]@),
                    decreases arcs@.len() - k,
                {
                    let p = self.polygon(&arcs[k]);
                    polys.push(p);
                    k = k + 1;
                }
                FeatureGeometryType::MultiPolygon { coordinates: polys }
            },
        }
    }

    /// Reconstructs each member of a collection.
    pub fn members(&self, geometries: &Vec<Geometry<P, M>>) -> (outs: Vec<FeatureGeometryType<P>>)
        requires
            self.arcs_wf(),
            members_valid(geometries@, self.arcs@.len() as int, geometries@.len() as int),
        ensures
            outs@.len() == geometries@.len(),
            members_reconstruct(self.arc_seqs(), self.delta_encoded, geometries@, outs@, geometries@.len() as int),
        decreases geometries, 0int,
    {
        let mut outs: Vec<FeatureGeometryType<P>> = Vec::new();
        let mut k: usize = 0;
        while k < geometries.len()
            invariant
                self.arcs_wf(),
                members_valid(geometries@, self.arcs@.len() as int, geometries@.len() as int),
                k <= geometries@.len(),
                outs@.len() == k,
                members_reconstruct(self.arc_seqs(), self.delta_encoded, geometries@, outs@, k as int),
            decreases geometries@.len() - k,
        {
            proof {
                lemma_member_valid(geometries@, self.arcs@.len() as int, geometries@.len() as int, k as int);
                assert(decreases_to!(geometries => geometries@));
                assert(decreases_to!(geometries@ => geometries@[k as int]));
            }
            let o = self.object(&geometries[k]);
            proof {
                lemma_members_reconstruct_push(self.arc_seqs(), self.delta_encoded, geometries@, outs@, o, k as int);
            }
            outs.push(o);
            k = k + 1;
        }
        outs
    }

    /// Reconstructs the object stored under `key`: a collection becomes one
    /// feature per member, any other geometry a single feature.
    pub fn feature(&self, key: &String) -> (r: Result<Feature<P, M>, TopologyError>)
        requires
            self.wf(),
        ensures
            r is Err <==> !self.has_key(key@),
            r matches Err(e) ==> e == TopologyError::KeyNotFound,
            r matches Ok(f) ==> exists|k: int| 0 <= k < self.objects@.len()
                && (#[trigger] self.objects@[k]).0@ == key@
                && feature_of(self.arc_seqs(), self.delta_encoded, self.objects@[k].1, f),
    {
        match self.find(key) {
            None => Err(TopologyError::KeyNotFound),
            Some(k) => {
                assert(geometry_valid(self.objects@[k as int].1, self.arcs@.len() as int));
                Ok(self.feature_from(&self.objects[k].1))
            },
        }
    }

    /// Reconstructs `g`: a collection becomes one feature per member, any
    /// other geometry a single feature, each with its metadata.
    pub fn feature_from(&self, g: &Geometry<P, M>) -> (r: Feature<P, M>)
        requires
            self.arcs_wf(),
            geometry_valid(*g, self.arcs@.len() as int),
        ensures
            feature_of(self.arc_seqs(), self.delta_encoded, *g, r),
    {
        match g {
            Geometry::GeometryCollection { geometries, .. } => {
                assert(members_valid(geometries@, self.arcs@.len() as int, geometries@.len() as int));
                let mut items: Vec<FeatureItem<P, M>> = Vec::new();
                let mut k: usize = 0;
                while k < geometries.len()
                    invariant
                        self.arcs_wf(),
                        members_valid(geometries@, self.arcs@.len() as int, geometries@.len() as int),
                        k <= geometries@.len(),
                        items@.len() == k,
                        forall|j: int| 0 <= j < k ==> #[trigger] item_of(self.arc_seqs(), self.delta_encoded, geometries@[j], items@[j]),
                    decreases geometries@.len() - k,
                {
                    proof {
                        lemma_member_valid(geometries@, self.arcs@.len() as int, geometries@.len() as int, k as int);
                    }
                    let o = self.object(&geometries[k]);
                    let m = geometries[k].meta();
                    items.push(FeatureItem { geometry: o, meta: m });
                    k = k + 1;
                }
                Feature::Collection(items)
            },
            _ => {
                let o = self.object(g);
                Feature::Item(FeatureItem { geometry: o, meta: g.meta() })
            },
        }
    }
}

/// `f` is the feature made of `g`: one reconstructed member per member of a
/// collection, else the reconstruction of `g` itself.
pub open spec fn feature_of<P, M>(arcs: Seq<Seq<Stored>>, delta: bool, g: Geometry<P, M>, f: Feature<P, M>) -> bool {
    match g {
        Geometry::GeometryCollection { geometries, .. } => match f {
            Feature::Collection(members) => {
                &&& members@.len() == geometries@.len()
                &&& forall|k: int| 0 <= k < geometries@.len() ==> #[trigger] item_of(arcs, delta, geometries@[k], members@[k])
            },
            _ => false,
        },
        _ => match f {
            Feature::Item(item) => item_of(arcs, delta, g, item),
            _ => false,
        },
    }
}

/// `item` is the reconstruction of `g`, with its metadata.
pub open spec fn item_of<P, M>(arcs: Seq<Seq<Stored>>, delta: bool, g: Geometry<P, M>, item: FeatureItem<P, M>) -> bool {
    reconstructs(arcs, delta, g, item.geometry) && item.meta == meta_of(g)
}

/// Every arc named in `idx` exists and has at least one point.
pub open spec fn arcs_present(arcs: Seq<Seq<Stored>>, idx: Seq<i32>) -> bool {
    forall|k: int| 0 <= k < idx.len() ==> canonical(#[trigger] idx[k]) < arcs.len()
        && arcs[canonical(idx[k])].len() >= 1
}

proof fn lemma_line_points_nonempty(arcs: Seq<Seq<Stored>>, delta: bool, idx: Seq<i32>)
    requires
        idx.len() >= 1,
        arcs_present(arcs, idx),
    ensures
        line_points(arcs, delta, idx).len() >= 1,
{
    let last = idx.last();
    assert(canonical(idx[idx.len() - 1]) < arcs.len());
    assert(arc_points(arcs, delta, last).len() >= 1);
    lemma_join_len(line_points(arcs, delta, idx.drop_last()), arc_points(arcs, delta, last));
}

/// A ring is at least four positions long, and it is closed (its first and
/// last positions agree) whenever its arcs end where they begin.
pub proof fn lemma_ring_closure(arcs: Seq<Seq<Stored>>, delta: bool, idx: Seq<i32>)
    requires
        idx.len() >= 1,
        arcs_present(arcs, idx),
        line_points(arcs, delta, idx).first() == line_points(arcs, delta, idx).last(),
    ensures
        ring_coords(arcs, delta, idx).len() >= 4,
        ring_coords(arcs, delta, idx).first() == ring_coords(arcs, delta, idx).last(),
{
    lemma_line_points_nonempty(arcs, delta, idx);
    let lp = line_points(arcs, delta, idx);
    let lc = line_coords(arcs, delta, idx);
    assert(lc.len() >= 2);
    assert(lc.first() == lp.first());
    assert(lc.last() == lp.first());
    let rc = ring_coords(arcs, delta, idx);
    assert(rc.first() == lc.first());
}

/// The complement `!i` of a signed arc index: the same arc, the other way.
pub open spec fn complement(i: i32) -> i32 {
    (-1 - i) as i32
}

proof fn lemma_complement_points(arcs: Seq<Seq<Stored>>, delta: bool, i: i32)
    ensures
        canonical(complement(i)) == canonical(i),
        arc_points(arcs, delta, complement(i)) == arc_points(arcs, delta, i).reverse(),
{
    let d = decoded(arcs[canonical(i)], delta);
    if i < 0 {
        assert(d.reverse().reverse() =~= d);
    }
}

/// Reversing a line of two joined arcs `[a, b]` gives the line of
/// `[!b, !a]`.
pub proof fn lemma_reverse_line(arcs: Seq<Seq<Stored>>, delta: bool, a: i32, b: i32)
    requires
        arcs_present(arcs, seq![a, b]),
        arc_points(arcs, delta, a).last() == arc_points(arcs, delta, b).first(),
    ensures
        line_points(arcs, delta, seq![a, b])
            == line_points(arcs, delta, seq![complement(b), complement(a)]).reverse(),
{
    assert(canonical(seq![a, b][0]) < arcs.len());
    assert(canonical(seq![a, b][1]) < arcs.len());
    lemma_complement_points(arcs, delta, a);
    lemma_complement_points(arcs, delta, b);
    let pa = arc_points(arcs, delta, a);
    let pb = arc_points(arcs, delta, b);
    assert(pa.len() >= 1 && pb.len() >= 1);
    let s1 = seq![a, b];
    let s2 = seq![complement(b), complement(a)];
    assert(s1.drop_last() =~= seq![a]);
    assert(seq![a].drop_last() =~= Seq::<i32>::empty());
    assert(s2.drop_last() =~= seq![complement(b)]);
    assert(seq![complement(b)].drop_last() =~= Seq::<i32>::empty());
    assert(line_points(arcs, delta, Seq::<i32>::empty()) == Seq::<Position>::empty());
    assert(seq![a].last() == a);
    assert(seq![complement(b)].last() == complement(b));
    assert(line_points(arcs, delta, seq![a]) == pa);
    assert(line_points(arcs, delta, seq![complement(b)]) == pb.reverse());
    let l1 = line_points(arcs, delta, s1);
    let l2 = line_points(arcs, delta, s2);
    assert(l1 == pa.drop_last() + pb);
    assert(l2 == pb.reverse().drop_last() + pa.reverse());
    assert(l1 =~= l2.reverse());
}

/// Both coordinates of every position of `s` fit in `i32`.
pub open spec fn positions_fit(s: Seq<Position>) -> bool {
    forall|k: int| 0 <= k < s.len() ==> fits_i32((#[trigger] s[k]).0 as int) && fits_i32(s[k].1 as int)
}

proof fn lemma_arc_points_fit(arcs: Seq<Seq<Stored>>, delta: bool, i: i32)
    requires
        canonical(i) < arcs.len(),
        arc_bounded(arcs[canonical(i)], delta),
    ensures
        positions_fit(arc_points(arcs, delta, i)),
{
    let a = arcs[canonical(i)];
    let d = decoded(a, delta);
    assert forall|k: int| 0 <= k < d.len() implies fits_i32((#[trigger] d[k]).0 as int) && fits_i32(d[k].1 as int) by {
        if delta {
            assert(d.len() == a.len());
            assert(arc_bounded(a, delta));
            assert(1 <= k + 1 <= a.len());
            assert(crate::topology::prefix_fits(a, k + 1));
        }
    }
    if i < 0 {
        assert forall|k: int| 0 <= k < d.len() implies fits_i32((#[trigger] d.reverse()[k]).0 as int) && fits_i32(d.reverse()[k].1 as int) by {
            assert(d.reverse()[k] == d[d.len() - 1 - k]);
        }
    }
}

/// Every position of the ring through `idx` has coordinates that fit in `i32`.
pub(crate) proof fn lemma_ring_fits(arcs: Seq<Seq<Stored>>, delta: bool, idx: Seq<i32>)
    requires
        idx.len() >= 1,
        arcs_present(arcs, idx),
        forall|k: int| 0 <= k < idx.len() ==> arc_bounded(arcs[canonical(#[trigger] idx[k])], delta),
    ensures
        positions_fit(ring_coords(arcs, delta, idx)),
{
    lemma_line_fits(arcs, delta, idx);
    lemma_line_points_nonempty(arcs, delta, idx);
    let lc = line_coords(arcs, delta, idx);
    let rc = ring_coords(arcs, delta, idx);
    assert forall|k: int| 0 <= k < rc.len() implies fits_i32((#[trigger] rc[k]).0 as int) && fits_i32(rc[k].1 as int) by {
        if k >= lc.len() {
            assert(rc[k] == lc[0]);
        } else {
            assert(rc[k] == lc[k]);
        }
    }
}

proof fn lemma_line_fits(arcs: Seq<Seq<Stored>>, delta: bool, idx: Seq<i32>)
    requires
        arcs_present(arcs, idx),
        forall|k: int| 0 <= k < idx.len() ==> arc_bounded(arcs[canonical(#[trigger] idx[k])], delta),
    ensures
        positions_fit(line_points(arcs, delta, idx)),
        idx.len() >= 1 ==> positions_fit(line_coords(arcs, delta, idx)),
    decreases idx.len(),
{
    if idx.len() > 0 {
        let prev = idx.drop_last();
        assert forall|k: int| 0 <= k < prev.len() implies canonical(#[trigger] prev[k]) < arcs.len()
            && arcs[canonical(prev[k])].len() >= 1 && arc_bounded(arcs[canonical(prev[k])], delta) by {
            assert(prev[k] == idx[k]);
        }
        lemma_line_fits(arcs, delta, prev);
        assert(canonical(idx[idx.len() - 1]) < arcs.len());
        assert(arc_bounded(arcs[canonical(idx[idx.len() - 1])], delta));
        lemma_arc_points_fit(arcs, delta, idx.last());
        let lp = line_points(arcs, delta, prev);
        let ap = arc_points(arcs, delta, idx.last());
        let j = join(lp, ap);
        assert forall|k: int| 0 <= k < j.len() implies fits_i32((#[trigger] j[k]).0 as int) && fits_i32(j[k].1 as int) by {
            if lp.len() == 0 {
                assert(j[k] == ap[k]);
            } else if k < lp.len() - 1 {
                assert(j[k] == lp[k]);
            } else {
                assert(j[k] == ap[k - (lp.len() - 1)]);
            }
        }
    }
    if idx.len() >= 1 {
        lemma_line_points_nonempty(arcs, delta, idx);
        let lp = line_points(arcs, delta, idx);
        let lc = line_coords(arcs, delta, idx);
        assert forall|k: int| 0 <= k < lc.len() implies fits_i32((#[trigger] lc[k]).0 as int) && fits_i32(lc[k].1 as int) by {
            if k >= lp.len() {
                assert(lc[k] == lp[0]);
            } else {
                assert(lc[k] == lp[k]);
            }
        }
    }
}

} // verus!
