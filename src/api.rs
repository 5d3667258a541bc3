//! Entry points by object key, and the operators under their customary names.

use vstd::prelude::*;
use crate::feature::{Feature, FeatureGeometryType, feature_of, lines_match, rings_match, reconstructs};
use crate::merge::{boundary_arc, members_polygons, merged_sound, multi_covers, occurrences, polygon_arc};
use crate::mesh::{leaves_of, used_by_leaf, records_of, ArcRecord};
use crate::neighbors::{neighbors, share_arc, strictly_sorted};
use crate::stitch::{chained, chains_sound, covers, chain_views, stitch_paths};
use crate::topology::{Geometry, Stored, TopoJSON, TopologyError, canonical, geometry_valid, indices_valid, members_valid, uses_arc};

verus! {

/// `polys` are the arcs of a merge of the polygons of `objects`.
pub open spec fn merge_of<P, M>(arcs: Seq<Seq<Stored>>, delta: bool, objects: Seq<Geometry<P, M>>, polys: Seq<Vec<Vec<i32>>>) -> bool {
    let ps = members_polygons(objects, objects.len() as int);
    &&& merged_sound(arcs, delta, ps, polys)
    &&& forall|x: i32| #[trigger] boundary_arc(ps, x) ==> multi_covers(polys, canonical(x))
    &&& crate::merge::grouped(ps, polys)
    &&& forall|k: int| 0 <= k < polys.len() ==> crate::merge::rooted(ps, #[trigger] polys[k]@)
    &&& crate::merge::poly_views(polys) == crate::merge::merge_polys(arcs, delta, ps, ps.len() as int)
}

/// A merge keeps exactly the arcs that a single polygon names: such an arc
/// appears in the merged polygons, and an arc that two or more polygons name
/// does not.
pub proof fn lemma_merge_keeps_single_arcs<P, M>(
    arcs: Seq<Seq<Stored>>,
    delta: bool,
    objects: Seq<Geometry<P, M>>,
    polys: Seq<Vec<Vec<i32>>>,
)
    requires
        merge_of(arcs, delta, objects, polys),
    ensures
        forall|x: i32| #[trigger] polygon_arc(members_polygons(objects, objects.len() as int), x)
            && occurrences(members_polygons(objects, objects.len() as int), canonical(x)) == 1
            ==> multi_covers(polys, canonical(x)),
        forall|c: int| occurrences(members_polygons(objects, objects.len() as int), c) >= 2
            ==> !#[trigger] multi_covers(polys, c),
{
    let ps = members_polygons(objects, objects.len() as int);
    assert forall|x: i32| #[trigger] polygon_arc(ps, x) && occurrences(ps, canonical(x)) == 1
        implies multi_covers(polys, canonical(x)) by {
        assert(boundary_arc(ps, x));
    }
    assert forall|c: int| occurrences(ps, c) >= 2 implies !#[trigger] multi_covers(polys, c) by {
        if multi_covers(polys, c) {
            let (p, r, q) = choose|p: int, r: int, q: int|
                0 <= p < polys.len() && 0 <= r < polys[p]@.len() && 0 <= q < polys[p]@[r]@.len()
                    && canonical(#[trigger] polys[p]@[r]@[q]) == c;
            assert(crate::merge::merged_polygon(arcs, delta, ps, polys[p]@));
            assert(boundary_arc(ps, polys[p]@[r]@[q]));
        }
    }
}

/// A merge dissolves the arcs that two different polygons share: no merged
/// ring holds such an arc.
pub proof fn lemma_merge_dissolves_shared<P, M>(
    arcs: Seq<Seq<Stored>>,
    delta: bool,
    objects: Seq<Geometry<P, M>>,
    polys: Seq<Vec<Vec<i32>>>,
    c: int,
    p1: int,
    p2: int,
)
    requires
        merge_of(arcs, delta, objects, polys),
        0 <= p1 < members_polygons(objects, objects.len() as int).len(),
        0 <= p2 < members_polygons(objects, objects.len() as int).len(),
        p1 != p2,
        crate::merge::names_poly(members_polygons(objects, objects.len() as int)[p1], c),
        crate::merge::names_poly(members_polygons(objects, objects.len() as int)[p2], c),
    ensures
        !multi_covers(polys, c),
{
    crate::merge::lemma_two_polygons_count(members_polygons(objects, objects.len() as int), c, p1, p2);
    lemma_merge_keeps_single_arcs(arcs, delta, objects, polys);
}

/// Adding a geometry that holds no polygon (a point, a line, or a collection
/// of those) to the objects of a merge leaves its polygons, and so the
/// merge, unchanged.
pub proof fn lemma_merge_ignores_non_polygons<P, M>(objects: Seq<Geometry<P, M>>, g: Geometry<P, M>)
    requires
        crate::merge::polygons_of(g) == Seq::<crate::merge::Rings>::empty(),
    ensures
        members_polygons(objects.push(g), objects.len() + 1int) == members_polygons(objects, objects.len() as int),
{
    lemma_members_polygons_prefix(objects.push(g), objects, objects.len() as int);
    assert(objects.push(g)[objects.len() as int] == g);
    assert(members_polygons(objects, objects.len() as int) + Seq::<crate::merge::Rings>::empty()
        =~= members_polygons(objects, objects.len() as int));
}

proof fn lemma_members_polygons_prefix<P, M>(s: Seq<Geometry<P, M>>, t: Seq<Geometry<P, M>>, i: int)
    requires
        0 <= i <= t.len() <= s.len(),
        forall|k: int| 0 <= k < t.len() ==> s[k] == t[k],
    ensures
        members_polygons(s, i) == members_polygons(t, i),
    decreases i,
{
    if i > 0 {
        lemma_members_polygons_prefix(s, t, i - 1);
    }
}

/// `coords` are the coordinates of the polygons `polys`.
pub open spec fn multipolygon_coords(arcs: Seq<Seq<Stored>>, delta: bool, polys: Seq<Vec<Vec<i32>>>, coords: Seq<Vec<Vec<(i64, i64)>>>) -> bool {
    &&& coords.len() == polys.len()
    &&& forall|k: int| 0 <= k < polys.len() ==> rings_match(arcs, delta, #[trigger] polys[k]@, coords[k]@)
}

/// `r` is a multipolygon whose coordinates are those of a merge of the
/// polygons of `objects`.
pub open spec fn merged_geometry<P, M>(arcs: Seq<Seq<Stored>>, delta: bool, objects: Seq<Geometry<P, M>>, r: FeatureGeometryType<P>) -> bool {
    match r {
        FeatureGeometryType::MultiPolygon { coordinates } => exists|polys: Seq<Vec<Vec<i32>>>|
            merge_of(arcs, delta, objects, polys) && #[trigger] multipolygon_coords(arcs, delta, polys, coordinates@),
        _ => false,
    }
}

/// Reconstructs one geometry: a collection becomes one feature per member.
pub fn wrap_feature<P: Copy, M: Copy>(topology: &TopoJSON<P, M>, o: &Geometry<P, M>) -> (r: Feature<P, M>)
    requires
        topology.arcs_wf(),
        geometry_valid(*o, topology.arcs@.len() as int),
    ensures
        feature_of(topology.arc_seqs(), topology.delta_encoded, *o, r),
{
    topology.feature_from(o)
}

/// Chains the arcs `arcs` end to end into maximal paths.
pub fn wrap_stich<P, M>(topology: &TopoJSON<P, M>, arcs: &Vec<i32>) -> (out: Vec<Vec<i32>>)
    requires
        topology.arcs_wf(),
        indices_valid(arcs@, topology.arcs@.len() as int),
    ensures
        chains_sound(topology.arc_seqs(), topology.delta_encoded, arcs@, out@),
        forall|k: int| 0 <= k < arcs@.len() ==> covers(out@, canonical(#[trigger] arcs@[k])),
        chain_views(out@) == stitch_paths(topology.arc_seqs(), topology.delta_encoded, arcs@),
{
    topology.stitch(arcs)
}

/// The neighbors of each of `objects`: the sorted indices of the others that
/// share an arc with it.
pub fn wrap_neighbors<P, M>(objects: &Vec<Geometry<P, M>>) -> (r: Vec<Vec<i32>>)
    requires
        objects@.len() <= i32::MAX,
    ensures
        r@.len() == objects@.len(),
        forall|i: int| 0 <= i < r@.len() ==> strictly_sorted(#[trigger] r@[i]@),
        forall|i: int, j: int| 0 <= i < r@.len() && 0 <= j < r@.len() ==>
            (#[trigger] r@[i]@.contains(j as i32) <==> i != j && share_arc(objects@[i], objects@[j])),
        forall|i: int, k: int| 0 <= i < r@.len() && 0 <= k < r@[i]@.len() ==> 0 <= #[trigger] r@[i]@[k] < r@.len(),
{
    neighbors(objects)
}

/// The polygons of `objects` merged along their shared arcs, as a
/// multipolygon.
pub fn wrap_merge<P, M>(topology: &TopoJSON<P, M>, objects: &Vec<Geometry<P, M>>) -> (r: FeatureGeometryType<P>)
    requires
        topology.arcs_wf(),
        members_valid(objects@, topology.arcs@.len() as int, objects@.len() as int),
    ensures
        merged_geometry(topology.arc_seqs(), topology.delta_encoded, objects@, r),
{
    let polys = topology.merge_arcs(objects);
    proof {
        crate::merge::lemma_objects_rings_valid(*objects, topology.arcs@.len() as int);
        crate::merge::lemma_merged_valid(topology.arc_seqs(), topology.delta_encoded,
            members_polygons(objects@, objects@.len() as int), topology.arcs@.len() as int, polys@);
    }
    assert(merge_of(topology.arc_seqs(), topology.delta_encoded, objects@, polys@));
    let mut coords: Vec<Vec<Vec<(i64, i64)>>> = Vec::new();
    let mut k: usize = 0;
    while k < polys.len()
        invariant
            topology.arcs_wf(),
            merge_of(topology.arc_seqs(), topology.delta_encoded, objects@, polys@),
            forall|p: int, r: int| 0 <= p < polys@.len() && 0 <= r < polys@[p]@.len()
                ==> crate::topology::path_valid(#[trigger] polys@[p]@[r]@, topology.arcs@.len() as int),
            k <= polys@.len(),
            coords@.len() == k,
            forall|j: int| 0 <= j < k ==> rings_match(topology.arc_seqs(), topology.delta_encoded, #[trigger] polys@[j]@, coords@[j]@),
        decreases polys@.len() - k,
    {
        assert(crate::topology::paths_valid(polys@[k as int]@, topology.arcs@.len() as int));
        let c = topology.polygon(&polys[k]);
        coords.push(c);
        k = k + 1;
    }
    assert(multipolygon_coords(topology.arc_seqs(), topology.delta_encoded, polys@, coords@));
    assert(merge_of(topology.arc_seqs(), topology.delta_encoded, objects@, polys@));
    let ghost cv = coords@;
    assert(exists|p: Seq<Vec<Vec<i32>>>| merge_of(topology.arc_seqs(), topology.delta_encoded, objects@, p)
        && #[trigger] multipolygon_coords(topology.arc_seqs(), topology.delta_encoded, p, cv));
    let r = FeatureGeometryType::MultiPolygon { coordinates: coords };
    assert(r matches FeatureGeometryType::MultiPolygon { coordinates } && coordinates@ == cv);
    assert(merged_geometry(topology.arc_seqs(), topology.delta_encoded, objects@, r));
    r
}

/// `lines` are the arcs of a mesh: chained, and, with a root, made of arcs
/// that its lines and rings use and covering each arc they use; without a
/// root, covering every arc.
pub open spec fn mesh_of_lines<P, M>(arcs: Seq<Seq<Stored>>, delta: bool, root: Option<Geometry<P, M>>, lines: Seq<Vec<i32>>) -> bool {
    &&& forall|p: int| 0 <= p < lines.len() ==> (#[trigger] lines[p])@.len() >= 1 && chained(arcs, delta, lines[p]@)
    &&& match root {
        Some(g) => {
            &&& forall|p: int, q: int| 0 <= p < lines.len() && 0 <= q < lines[p]@.len()
                ==> used_by_leaf(leaves_of(g), #[trigger] lines[p]@[q])
            &&& forall|c: int, j: int| 0 <= j < leaves_of(g).len() && #[trigger] uses_arc(leaves_of(g)[j], c)
                ==> covers(lines, c)
            &&& exists|records: Seq<ArcRecord>| #[trigger] records_of(leaves_of(g), records)
                && chain_views(lines) == stitch_paths(arcs, delta, records.map_values(|r: ArcRecord| r.arc))
        },
        None => {
            &&& forall|c: int| 0 <= c < arcs.len() ==> #[trigger] covers(lines, c)
            &&& chain_views(lines) == stitch_paths(arcs, delta, Seq::new(arcs.len(), |k: int| k as i32))
        },
    }
}

/// `r` is a multilinestring whose coordinates are those of a mesh.
pub open spec fn mesh_geometry<P, M>(arcs: Seq<Seq<Stored>>, delta: bool, root: Option<Geometry<P, M>>, r: FeatureGeometryType<P>) -> bool {
    match r {
        FeatureGeometryType::MultiLineString { coordinates } => exists|lines: Seq<Vec<i32>>|
            mesh_of_lines(arcs, delta, root, lines) && #[trigger] lines_match(arcs, delta, lines, coordinates@),
        _ => false,
    }
}

/// The mesh of `object`, or of every arc of the topology when there is no
/// object, as a multilinestring.
pub fn wrap_mesh<P, M>(topology: &TopoJSON<P, M>, object: Option<&Geometry<P, M>>) -> (r: FeatureGeometryType<P>)
    requires
        topology.arcs_wf(),
        object matches Some(g) ==> geometry_valid(*g, topology.arcs@.len() as int),
        object is None ==> topology.arcs@.len() <= 0x8000_0000,
    ensures
        mesh_geometry(topology.arc_seqs(), topology.delta_encoded, match object { Some(g) => Some(*g), None => None }, r),
{
    let ghost root = match object { Some(g) => Some(*g), None => None::<Geometry<P, M>> };
    let lines = match object {
        Some(g) => topology.mesh_of(g),
        None => {
            let n = topology.arcs.len();
            let mut all: Vec<i32> = Vec::new();
            let mut j: usize = 0;
            while j < n
                invariant
                    n == topology.arcs@.len(),
                    n <= 0x8000_0000,
                    j <= n,
                    all@.len() == j,
                    forall|k: int| 0 <= k < j ==> #[trigger] all@[k] == k,
                decreases n - j,
            {
                all.push(j as i32);
                j = j + 1;
            }
            assert(indices_valid(all@, n as int));
            assert(all@ =~= Seq::new(topology.arc_seqs().len(), |k: int| k as i32));
            let lines = topology.stitch(&all);
            assert forall|c: int| 0 <= c < n implies #[trigger] covers(lines@, c) by {
                assert(canonical(all@[c]) == c);
            }
            assert forall|p: int| 0 <= p < lines@.len() implies crate::topology::path_valid(#[trigger] lines@[p]@, n as int) by {
                assert forall|q: int| 0 <= q < lines@[p]@.len() implies canonical(#[trigger] lines@[p]@[q]) < n by {
                    assert(all@.contains(lines@[p]@[q]));
                }
            }
            lines
        },
    };
    assert(mesh_of_lines(topology.arc_seqs(), topology.delta_encoded, root, lines@));
    assert(crate::topology::paths_valid(lines@, topology.arcs@.len() as int));
    let coords = topology.lines(&lines);
    let ghost cv = coords@;
    assert(exists|l: Seq<Vec<i32>>| mesh_of_lines(topology.arc_seqs(), topology.delta_encoded, root, l)
        && #[trigger] lines_match(topology.arc_seqs(), topology.delta_encoded, l, cv));
    let r = FeatureGeometryType::MultiLineString { coordinates: coords };
    assert(r matches FeatureGeometryType::MultiLineString { coordinates } && coordinates@ == cv);
    r
}

/// `k` is the first object of `topology` stored under `key`.
pub open spec fn first_key<P, M>(topology: TopoJSON<P, M>, key: Seq<char>, k: int) -> bool {
    &&& 0 <= k < topology.objects@.len()
    &&& topology.objects@[k].0@ == key
    &&& forall|j: int| 0 <= j < k ==> (#[trigger] topology.objects@[j]).0@ != key
}

/// `g` is a collection and `f` is the merge of its members.
pub open spec fn merged_collection<P, M>(arcs: Seq<Seq<Stored>>, delta: bool, g: Geometry<P, M>, f: FeatureGeometryType<P>) -> bool {
    match g {
        Geometry::GeometryCollection { geometries, .. } => merged_geometry(arcs, delta, geometries@, f),
        _ => false,
    }
}

impl<P, M> TopoJSON<P, M> {
    /// Merges the members of the collection stored under `key`.
    pub fn merge(&self, key: &String) -> (r: Result<FeatureGeometryType<P>, TopologyError>)
        requires
            self.wf(),
        ensures
            !self.has_key(key@) <==> r == Err::<FeatureGeometryType<P>, TopologyError>(TopologyError::KeyNotFound),
            r matches Err(e) ==> e == TopologyError::KeyNotFound || e == TopologyError::TypeMismatch,
            r == Err::<FeatureGeometryType<P>, TopologyError>(TopologyError::TypeMismatch) <==> exists|k: int|
                #[trigger] first_key(*self, key@, k) && !(self.objects@[k].1 is GeometryCollection),
            r matches Ok(f) ==> exists|k: int| #[trigger] first_key(*self, key@, k)
                && merged_collection(self.arc_seqs(), self.delta_encoded, self.objects@[k].1, f),
    {
        match self.find(key) {
            None => Err(TopologyError::KeyNotFound),
            Some(k) => {
                assert(first_key(*self, key@, k as int));
                assert(geometry_valid(self.objects@[k as int].1, self.arcs@.len() as int));
                match &self.objects[k].1 {
                    Geometry::GeometryCollection { geometries, .. } => Ok(wrap_merge(self, geometries)),
                    _ => {
                        proof {
                            assert forall|j: int| #[trigger] first_key(*self, key@, j) implies j == k by {
                                if j < k {
                                    assert(self.objects@[j].0@ != key@);
                                } else if j > k {
                                    assert(self.objects@[k as int].0@ != key@);
                                }
                            }
                        }
                        Err(TopologyError::TypeMismatch)
                    },
                }
            },
        }
    }
}

/// `g` is a collection and `r` lists the neighbors of its members.
pub open spec fn collection_neighbors<P, M>(g: Geometry<P, M>, r: Seq<Vec<i32>>) -> bool {
    match g {
        Geometry::GeometryCollection { geometries, .. } => {
            &&& r.len() == geometries@.len()
            &&& forall|i: int| 0 <= i < r.len() ==> strictly_sorted(#[trigger] r[i]@)
            &&& forall|i: int, j: int| 0 <= i < r.len() && 0 <= j < r.len() ==>
                (#[trigger] r[i]@.contains(j as i32) <==> i != j && share_arc(geometries@[i], geometries@[j]))
            &&& forall|i: int, k: int| 0 <= i < r.len() && 0 <= k < r[i]@.len() ==> 0 <= #[trigger] r[i]@[k] < r.len()
        },
        _ => false,
    }
}

impl<P, M> TopoJSON<P, M> {
    /// The neighbors of the members of the collection stored under `key`; a
    /// collection with more members than an `i32` can index is refused as
    /// the wrong kind of object.
    pub fn neighbors(&self, key: &String) -> (r: Result<Vec<Vec<i32>>, TopologyError>)
        ensures
            !self.has_key(key@) <==> r == Err::<Vec<Vec<i32>>, TopologyError>(TopologyError::KeyNotFound),
            r matches Err(e) ==> e == TopologyError::KeyNotFound || e == TopologyError::TypeMismatch,
            r == Err::<Vec<Vec<i32>>, TopologyError>(TopologyError::TypeMismatch) <==> exists|k: int|
                #[trigger] first_key(*self, key@, k) && (!(self.objects@[k].1 is GeometryCollection)
                    || self.objects@[k].1->geometries@.len() > i32::MAX),
            r matches Ok(v) ==> exists|k: int| #[trigger] first_key(*self, key@, k)
                && collection_neighbors(self.objects@[k].1, v@),
    {
        match self.find(key) {
            None => Err(TopologyError::KeyNotFound),
            Some(k) => {
                assert(first_key(*self, key@, k as int));
                proof {
                    assert forall|j: int| #[trigger] first_key(*self, key@, j) implies j == k by {
                        if j < k {
                            assert(self.objects@[j].0@ != key@);
                        } else if j > k {
                            assert(self.objects@[k as int].0@ != key@);
                        }
                    }
                }
                match &self.objects[k].1 {
                    Geometry::GeometryCollection { geometries, .. } => {
                        if geometries.len() > i32::MAX as usize {
                            Err(TopologyError::TypeMismatch)
                        } else {
                            Ok(neighbors(geometries))
                        }
                    },
                    _ => Err(TopologyError::TypeMismatch),
                }
            },
        }
    }

    /// The mesh of the object stored under `key`, or of every arc when no
    /// key is given.
    pub fn mesh(&self, key: Option<&String>) -> (r: Result<FeatureGeometryType<P>, TopologyError>)
        requires
            self.wf(),
            key is None ==> self.arcs@.len() <= 0x8000_0000,
        ensures
            key matches Some(name) ==> (!self.has_key(name@) <==> r is Err),
            r matches Err(e) ==> e == TopologyError::KeyNotFound,
            key is None ==> (r matches Ok(f) && mesh_geometry::<P, M>(self.arc_seqs(), self.delta_encoded, None, f)),
            key matches Some(name) ==> (r matches Ok(f) ==> exists|k: int| #[trigger] first_key(*self, name@, k)
                && mesh_geometry(self.arc_seqs(), self.delta_encoded, Some(self.objects@[k].1), f)),
    {
        match key {
            None => Ok(wrap_mesh(self, None)),
            Some(name) => match self.find(name) {
                None => Err(TopologyError::KeyNotFound),
                Some(k) => {
                    assert(first_key(*self, name@, k as int));
                    assert(geometry_valid(self.objects@[k as int].1, self.arcs@.len() as int));
                    Ok(wrap_mesh(self, Some(&self.objects[k].1)))
                },
            },
        }
    }
}

} // verus!
