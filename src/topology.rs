//! The topology model: arcs of stored coordinates, geometries that refer to
//! them by signed index, and what it takes for a topology to be well formed.

use vstd::prelude::*;

verus! {

/// A stored arc coordinate: an integer pair, a delta from the previous point
/// when the topology is delta-encoded.
pub type Stored = (i32, i32);

/// A decoded position in the stored integer grid.
pub type Position = (i64, i64);

/// A geometry of a topology. Point coordinates are of type `P`, which the
/// operators carry through without reading; every other geometry refers to
/// arcs by signed index (negative `i` is arc `!i` traversed in reverse).
/// Each geometry carries its metadata (identifier, properties, box) as a
/// value of type `M`, handed through unchanged.
#[derive(Debug)]
pub enum Geometry<P, M> {
    GeometryCollection { geometries: Vec<Geometry<P, M>>, meta: M },
    Point { coordinates: P, meta: M },
    MultiPoint { coordinates: Vec<P>, meta: M },
    LineString { arcs: Vec<i32>, meta: M },
    MultiLineString { arcs: Vec<Vec<i32>>, meta: M },
    Polygon { arcs: Vec<Vec<i32>>, meta: M },
    MultiPolygon { arcs: Vec<Vec<Vec<i32>>>, meta: M },
}

/// The metadata of a geometry.
pub open spec fn meta_of<P, M>(g: Geometry<P, M>) -> M {
    match g {
        Geometry::GeometryCollection { meta, .. } => meta,
        Geometry::Point { meta, .. } => meta,
        Geometry::MultiPoint { meta, .. } => meta,
        Geometry::LineString { meta, .. } => meta,
        Geometry::MultiLineString { meta, .. } => meta,
        Geometry::Polygon { meta, .. } => meta,
        Geometry::MultiPolygon { meta, .. } => meta,
    }
}

impl<P, M: Copy> Geometry<P, M> {
    /// The metadata of the geometry.
    pub fn meta(&self) -> (r: M)
        ensures
            r == meta_of(*self),
    {
        match self {
            Geometry::GeometryCollection { meta, .. } => *meta,
            Geometry::Point { meta, .. } => *meta,
            Geometry::MultiPoint { meta, .. } => *meta,
            Geometry::LineString { meta, .. } => *meta,
            Geometry::MultiLineString { meta, .. } => *meta,
            Geometry::Polygon { meta, .. } => *meta,
            Geometry::MultiPolygon { meta, .. } => *meta,
        }
    }
}

/// A topology: its arcs, whether they are delta-encoded (a transform is
/// present), and its named objects.
#[derive(Debug)]
pub struct TopoJSON<P, M> {
    pub arcs: Vec<Vec<Stored>>,
    pub delta_encoded: bool,
    pub objects: Vec<(String, Geometry<P, M>)>,
}

/// The failures that the operators report to their caller.
#[derive(PartialEq, Eq, Structural, Debug, Clone, Copy)]
pub enum TopologyError {
    /// No object of the topology has the requested key.
    KeyNotFound,
    /// The object is not of the kind that the operation needs.
    TypeMismatch,
    /// The topology to quantize is delta-encoded already.
    QuantizeAlreadyQuantized,
    /// The quantization resolution is below two or not a number.
    QuantizeBadN,
    /// An area was asked of something that is not a polygon.
    AreaOfNonPolygon,
}

/// The canonical (unsigned) arc index that a signed arc index refers to.
pub open spec fn canonical(i: i32) -> int {
    if i < 0 { -1 - i } else { i as int }
}

/// Sum of the first `n` x components of an arc.
pub open spec fn sum_x(a: Seq<Stored>, n: int) -> int
    decreases n,
{
    if n <= 0 { 0 } else { sum_x(a, n - 1) + a[n - 1].0 }
}

/// Sum of the first `n` y components of an arc.
pub open spec fn sum_y(a: Seq<Stored>, n: int) -> int
    decreases n,
{
    if n <= 0 { 0 } else { sum_y(a, n - 1) + a[n - 1].1 }
}

pub open spec fn fits_i32(v: int) -> bool {
    i32::MIN <= v <= i32::MAX
}

/// The position after the first `n` deltas of an arc fits in `i32`.
pub open spec fn prefix_fits(a: Seq<Stored>, n: int) -> bool {
    fits_i32(sum_x(a, n)) && fits_i32(sum_y(a, n))
}

/// An arc has at least one point, and its decoded positions fit in `i32`.
pub open spec fn arc_bounded(a: Seq<Stored>, delta: bool) -> bool {
    &&& a.len() >= 1
    &&& delta ==> forall|n: int| 1 <= n <= a.len() ==> #[trigger] prefix_fits(a, n)
}

/// The decoded position of the `k`-th point of an arc: the running sum of the
/// deltas when delta-encoded, the stored pair itself otherwise.
pub open spec fn position(a: Seq<Stored>, delta: bool, k: int) -> Position {
    if delta {
        (sum_x(a, k + 1) as i64, sum_y(a, k + 1) as i64)
    } else {
        (a[k].0 as i64, a[k].1 as i64)
    }
}

/// All decoded positions of an arc, in stored order.
pub open spec fn decoded(a: Seq<Stored>, delta: bool) -> Seq<Position> {
    Seq::new(a.len(), |k: int| position(a, delta, k))
}

/// The positions that the signed arc index `i` denotes: reversed when `i < 0`.
pub open spec fn arc_points(arcs: Seq<Seq<Stored>>, delta: bool, i: i32) -> Seq<Position> {
    let d = decoded(arcs[canonical(i)], delta);
    if i < 0 { d.reverse() } else { d }
}

/// Whether every arc index in `idx` names one of `n` arcs.
pub open spec fn indices_valid(idx: Seq<i32>, n: int) -> bool {
    forall|k: int| 0 <= k < idx.len() ==> canonical(#[trigger] idx[k]) < n
}

/// A non-empty list of valid arc indices: a line or a ring.
pub open spec fn path_valid(idx: Seq<i32>, n: int) -> bool {
    idx.len() >= 1 && indices_valid(idx, n)
}

pub open spec fn paths_valid(paths: Seq<Vec<i32>>, n: int) -> bool {
    forall|k: int| 0 <= k < paths.len() ==> path_valid(#[trigger] paths[k]@, n)
}

/// Every arc index of `g` names one of `n` arcs, and every line and ring of it
/// has at least one arc.
pub open spec fn geometry_valid<P, M>(g: Geometry<P, M>, n: int) -> bool
    decreases g, 0int,
{
    match g {
        Geometry::GeometryCollection { geometries, .. } => members_valid(geometries@, n, geometries@.len() as int),
        Geometry::Point { .. } => true,
        Geometry::MultiPoint { .. } => true,
        Geometry::LineString { arcs, .. } => path_valid(arcs@, n),
        Geometry::MultiLineString { arcs, .. } => paths_valid(arcs@, n),
        Geometry::Polygon { arcs, .. } => paths_valid(arcs@, n),
        Geometry::MultiPolygon { arcs, .. } => forall|k: int|
            0 <= k < arcs@.len() ==> paths_valid(#[trigger] arcs@[k]@, n),
    }
}

/// The first `i` members of `gs` are valid geometries.
pub open spec fn members_valid<P, M>(gs: Seq<Geometry<P, M>>, n: int, i: int) -> bool
    decreases gs, i,
{
    if i <= 0 || i > gs.len() {
        true
    } else {
        geometry_valid(gs[i - 1], n) && members_valid(gs, n, i - 1)
    }
}

pub(crate) proof fn lemma_member_valid<P, M>(gs: Seq<Geometry<P, M>>, n: int, i: int, j: int)
    requires
        members_valid(gs, n, i),
        0 <= j < i <= gs.len(),
    ensures
        geometry_valid(gs[j], n),
    decreases i,
{
    if j < i - 1 {
        lemma_member_valid(gs, n, i - 1, j);
    }
}

/// The arc indices of a list of lines or rings, one after the other.
pub open spec fn paths_flat(paths: Seq<Vec<i32>>, i: int) -> Seq<i32>
    decreases i,
{
    if i <= 0 || i > paths.len() {
        Seq::empty()
    } else {
        paths_flat(paths, i - 1) + paths[i - 1]@
    }
}

/// The arc indices of a list of polygons, one after the other.
pub open spec fn polygons_flat(polys: Seq<Vec<Vec<i32>>>, i: int) -> Seq<i32>
    decreases i,
{
    if i <= 0 || i > polys.len() {
        Seq::empty()
    } else {
        polygons_flat(polys, i - 1) + paths_flat(polys[i - 1]@, polys[i - 1]@.len() as int)
    }
}

/// Every arc index that `g` uses, in order; points use none.
pub open spec fn arcs_of<P, M>(g: Geometry<P, M>) -> Seq<i32>
    decreases g, 0int,
{
    match g {
        Geometry::GeometryCollection { geometries, .. } => members_arcs(geometries@, geometries@.len() as int),
        Geometry::Point { .. } => Seq::empty(),
        Geometry::MultiPoint { .. } => Seq::empty(),
        Geometry::LineString { arcs, .. } => arcs@,
        Geometry::MultiLineString { arcs, .. } => paths_flat(arcs@, arcs@.len() as int),
        Geometry::Polygon { arcs, .. } => paths_flat(arcs@, arcs@.len() as int),
        Geometry::MultiPolygon { arcs, .. } => polygons_flat(arcs@, arcs@.len() as int),
    }
}

/// The arc indices of the first `i` members of `gs`.
pub open spec fn members_arcs<P, M>(gs: Seq<Geometry<P, M>>, i: int) -> Seq<i32>
    decreases gs, i,
{
    if i <= 0 || i > gs.len() {
        Seq::empty()
    } else {
        members_arcs(gs, i - 1) + arcs_of(gs[i - 1])
    }
}

/// Some arc index of `s` names the canonical arc `c`.
pub open spec fn names_arc(s: Seq<i32>, c: int) -> bool {
    exists|k: int| 0 <= k < s.len() && canonical(#[trigger] s[k]) == c
}

/// Whether `g` uses the canonical arc `c` in one of its lines or rings.
pub open spec fn uses_arc<P, M>(g: Geometry<P, M>, c: int) -> bool {
    names_arc(arcs_of(g), c)
}

impl<P, M> TopoJSON<P, M> {
    /// The stored arcs as sequences.
    pub open spec fn arc_seqs(&self) -> Seq<Seq<Stored>> {
        self.arcs@.map_values(|a: Vec<Stored>| a@)
    }

    /// Every arc is non-empty with decoded positions that fit in `i32`.
    pub open spec fn arcs_wf(&self) -> bool {
        forall|j: int| 0 <= j < self.arcs@.len() ==> arc_bounded(#[trigger] self.arcs@[j]@, self.delta_encoded)
    }

    /// The topology is well formed: its arcs are, and every arc index used by
    /// any of its objects names one of its arcs.
    pub open spec fn wf(&self) -> bool {
        &&& self.arcs_wf()
        &&& forall|k: int| 0 <= k < self.objects@.len()
            ==> geometry_valid(#[trigger] self.objects@[k].1, self.arcs@.len() as int)
    }
}

impl<P, M> TopoJSON<P, M> {
    /// Whether some object of the topology has the key `key`.
    pub open spec fn has_key(&self, key: Seq<char>) -> bool {
        exists|k: int| 0 <= k < self.objects@.len() && (#[trigger] self.objects@[k]).0@ == key
    }

    /// The index of the first object whose key is `key`, if any.
    pub fn find(&self, key: &String) -> (r: Option<usize>)
        ensures
            r is None <==> !self.has_key(key@),
            r matches Some(k) ==> k < self.objects@.len() && self.objects@[k as int].0@ == key@
                && forall|j: int| 0 <= j < k ==> (#[trigger] self.objects@[j]).0@ != key@,
    {
        let mut k: usize = 0;
        while k < self.objects.len()
            invariant
                k <= self.objects@.len(),
                forall|j: int| 0 <= j < k ==> (#[trigger] self.objects@[j]).0@ != key@,
            decreases self.objects@.len() - k,
        {
            if self.objects[k].0 == *key {
                return Some(k);
            }
            k = k + 1;
        }
        None
    }
}

/// Whether the arc has at least one point and decoded positions that fit in `i32`.
pub fn arc_is_bounded(a: &Vec<Stored>, delta: bool) -> (r: bool)
    ensures
        r == arc_bounded(a@, delta),
{
    if a.len() == 0 {
        return false;
    }
    if !delta {
        return true;
    }
    let mut x: i128 = 0;
    let mut y: i128 = 0;
    let mut ok = true;
    let mut k: usize = 0;
    while k < a.len()
        invariant
            delta,
            a@.len() >= 1,
            k <= a@.len(),
            x as int == sum_x(a@, k as int),
            y as int == sum_y(a@, k as int),
            -(k as int) * 0x8000_0000 <= x <= (k as int) * 0x8000_0000,
            -(k as int) * 0x8000_0000 <= y <= (k as int) * 0x8000_0000,
            ok == forall|m: int| 1 <= m <= k ==> #[trigger] prefix_fits(a@, m),
        decreases a@.len() - k,
    {
        proof {
            assert((k as int + 1) * 0x8000_0000 == (k as int) * 0x8000_0000 + 0x8000_0000) by (nonlinear_arith);
            assert((k as int + 1) * 0x8000_0000 <= 0x1_0000_0000_0000_0000 * 0x8000_0000) by (nonlinear_arith)
                requires k < a@.len(), a@.len() <= 0xffff_ffff_ffff_ffff;
        }
        x = x + a[k].0 as i128;
        y = y + a[k].1 as i128;
        k = k + 1;
        if x < i32::MIN as i128 || x > i32::MAX as i128 || y < i32::MIN as i128 || y > i32::MAX as i128 {
            assert(!prefix_fits(a@, k as int));
            ok = false;
        } else {
            assert(prefix_fits(a@, k as int));
        }
    }
    ok
}

/// Whether `idx` is a non-empty list of indices of `n` arcs.
pub fn path_is_valid(idx: &Vec<i32>, n: usize) -> (r: bool)
    ensures
        r == path_valid(idx@, n as int),
{
    if idx.len() == 0 {
        return false;
    }
    let mut k: usize = 0;
    while k < idx.len()
        invariant
            k <= idx@.len(),
            forall|j: int| 0 <= j < k ==> canonical(#[trigger] idx@[j]) < n,
        decreases idx@.len() - k,
    {
        let i = idx[k];
        let c: usize = if i < 0 { (-1i32 - i) as usize } else { i as usize };
        if c >= n {
            return false;
        }
        k = k + 1;
    }
    true
}

/// Whether every path of `paths` is valid.
pub fn paths_are_valid(paths: &Vec<Vec<i32>>, n: usize) -> (r: bool)
    ensures
        r == paths_valid(paths@, n as int),
{
    let mut k: usize = 0;
    while k < paths.len()
        invariant
            k <= paths@.len(),
            forall|j: int| 0 <= j < k ==> path_valid(#[trigger] paths@[j]@, n as int),
        decreases paths@.len() - k,
    {
        if !path_is_valid(&paths[k], n) {
            return false;
        }
        k = k + 1;
    }
    true
}

/// Whether every arc index of `g` names one of `n` arcs, and every line and
/// ring of it has an arc.
pub fn geometry_is_valid<P, M>(g: &Geometry<P, M>, n: usize) -> (r: bool)
    ensures
        r == geometry_valid(*g, n as int),
    decreases g, 1int,
{
    match g {
        Geometry::GeometryCollection { geometries, .. } => members_are_valid(geometries, n),
        Geometry::Point { .. } => true,
        Geometry::MultiPoint { .. } => true,
        Geometry::LineString { arcs, .. } => path_is_valid(arcs, n),
        Geometry::MultiLineString { arcs, .. } => paths_are_valid(arcs, n),
        Geometry::Polygon { arcs, .. } => paths_are_valid(arcs, n),
        Geometry::MultiPolygon { arcs, .. } => {
            let ghost gv = geometry_valid(*g, n as int);
            assert(gv == forall|j: int| 0 <= j < arcs@.len() ==> paths_valid(#[trigger] arcs@[j]@, n as int));
            let mut k: usize = 0;
            while k < arcs.len()
                invariant
                    gv == geometry_valid(*g, n as int),
                    gv == forall|j: int| 0 <= j < arcs@.len() ==> paths_valid(#[trigger] arcs@[j]@, n as int),
                    k <= arcs@.len(),
                    forall|j: int| 0 <= j < k ==> paths_valid(#[trigger] arcs@[j]@, n as int),
                decreases arcs@.len() - k,
            {
                if !paths_are_valid(&arcs[k], n) {
                    assert(!paths_valid(arcs@[k as int]@, n as int));
                    return false;
                }
                k = k + 1;
            }
            true
        },
    }
}

/// Whether every geometry of `gs` is valid.
pub fn members_are_valid<P, M>(gs: &Vec<Geometry<P, M>>, n: usize) -> (r: bool)
    ensures
        r == members_valid(gs@, n as int, gs@.len() as int),
    decreases gs, 0int,
{
    let mut k: usize = 0;
    while k < gs.len()
        invariant
            k <= gs@.len(),
            members_valid(gs@, n as int, k as int),
        decreases gs@.len() - k,
    {
        proof {
            assert(decreases_to!(gs => gs@));
            assert(decreases_to!(gs@ => gs@[k as int]));
        }
        if !geometry_is_valid(&gs[k], n) {
            proof {
                lemma_members_valid_prefix(gs@, n as int, gs@.len() as int, k as int);
            }
            return false;
        }
        k = k + 1;
    }
    true
}

proof fn lemma_members_valid_prefix<P, M>(gs: Seq<Geometry<P, M>>, n: int, i: int, k: int)
    requires
        0 <= k < i <= gs.len(),
        !geometry_valid(gs[k], n),
    ensures
        !members_valid(gs, n, i),
    decreases i,
{
    if k < i - 1 {
        lemma_members_valid_prefix(gs, n, i - 1, k);
    }
}

impl<P, M> TopoJSON<P, M> {
    /// Whether the topology is well formed: every arc has a point and decoded
    /// positions that fit in `i32`, and every arc index that an object uses
    /// names one of its arcs.
    pub fn is_valid(&self) -> (r: bool)
        ensures
            r == self.wf(),
    {
        let mut j: usize = 0;
        while j < self.arcs.len()
            invariant
                j <= self.arcs@.len(),
                forall|m: int| 0 <= m < j ==> arc_bounded(#[trigger] self.arcs@[m]@, self.delta_encoded),
            decreases self.arcs@.len() - j,
        {
            if !arc_is_bounded(&self.arcs[j], self.delta_encoded) {
                return false;
            }
            j = j + 1;
        }
        let n = self.arcs.len();
        let mut k: usize = 0;
        while k < self.objects.len()
            invariant
                n == self.arcs@.len(),
                k <= self.objects@.len(),
                forall|m: int| 0 <= m < k ==> geometry_valid(#[trigger] self.objects@[m].1, n as int),
            decreases self.objects@.len() - k,
        {
            if !geometry_is_valid(&self.objects[k].1, n) {
                return false;
            }
            k = k + 1;
        }
        true
    }
}

} // verus!
