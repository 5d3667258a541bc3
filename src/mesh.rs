//! Meshes: the arcs that geometries use, each once, stitched into lines.

use vstd::prelude::*;
use crate::neighbors::collect_arcs;
use crate::stitch::{chains_sound, covers, chain_views, stitch_paths};
use crate::feature::FeatureGeometryType;
use crate::topology::{
    Geometry, TopoJSON, arcs_of, canonical, indices_valid, names_arc, uses_arc, geometry_valid, members_valid,
    paths_flat, polygons_flat, paths_valid, lemma_member_valid,
};

verus! {

/// The geometries of `g` that are not collections, in order.
pub open spec fn leaves_of<P, M>(g: Geometry<P, M>) -> Seq<Geometry<P, M>>
    decreases g, 0int,
{
    match g {
        Geometry::GeometryCollection { geometries, .. } => members_leaves(geometries@, geometries@.len() as int),
        _ => seq![g],
    }
}

/// The leaves of the first `i` members of `gs`.
pub open spec fn members_leaves<P, M>(gs: Seq<Geometry<P, M>>, i: int) -> Seq<Geometry<P, M>>
    decreases gs, i,
{
    if i <= 0 || i > gs.len() {
        Seq::empty()
    } else {
        members_leaves(gs, i - 1) + leaves_of(gs[i - 1])
    }
}

/// One arc of a mesh: the signed index under which the arc is first used,
/// and the first and last leaf geometries (by position) that use it.
#[derive(Clone, Copy, Debug, PartialEq)]
pub struct ArcRecord {
    pub arc: i32,
    pub first: usize,
    pub last: usize,
}

/// `rec` describes the canonical arc it names among the `leaves`: the first
/// leaf that uses it, the signed index under which that leaf first uses it,
/// and the last leaf that uses it.
pub open spec fn record_ok<P, M>(leaves: Seq<Geometry<P, M>>, rec: ArcRecord) -> bool {
    let c = canonical(rec.arc);
    &&& rec.first <= rec.last < leaves.len()
    &&& uses_arc(leaves[rec.first as int], c)
    &&& uses_arc(leaves[rec.last as int], c)
    &&& forall|k: int| 0 <= k < rec.first ==> !uses_arc(#[trigger] leaves[k], c)
    &&& forall|k: int| rec.last < k < leaves.len() ==> !uses_arc(#[trigger] leaves[k], c)
    &&& exists|w: int| 0 <= w < arcs_of(leaves[rec.first as int]).len()
        && arcs_of(leaves[rec.first as int])[w] == rec.arc
        && forall|v: int| 0 <= v < w ==> canonical(#[trigger] arcs_of(leaves[rec.first as int])[v]) != c
}

fn push_leaves<'a, P, M>(g: &'a Geometry<P, M>, out: &mut Vec<&'a Geometry<P, M>>)
    ensures
        final(out)@.len() == old(out)@.len() + leaves_of(*g).len(),
        forall|k: int| 0 <= k < old(out)@.len() ==> *final(out)@[k] == *old(out)@[k],
        forall|k: int| 0 <= k < leaves_of(*g).len() ==> *final(out)@[old(out)@.len() + k] == leaves_of(*g)[k],
    decreases g, 1int,
{
    match g {
        Geometry::GeometryCollection { geometries, .. } => push_member_leaves(geometries, out),
        _ => {
            out.push(g);
        },
    }
}

fn push_member_leaves<'a, P, M>(gs: &'a Vec<Geometry<P, M>>, out: &mut Vec<&'a Geometry<P, M>>)
    ensures
        final(out)@.len() == old(out)@.len() + members_leaves(gs@, gs@.len() as int).len(),
        forall|k: int| 0 <= k < old(out)@.len() ==> *final(out)@[k] == *old(out)@[k],
        forall|k: int| 0 <= k < members_leaves(gs@, gs@.len() as int).len()
            ==> *final(out)@[old(out)@.len() + k] == members_leaves(gs@, gs@.len() as int)[k],
    decreases gs, 0int,
{
    let ghost base = old(out)@;
    let mut i: usize = 0;
    while i < gs.len()
        invariant
            i <= gs@.len(),
            out@.len() == base.len() + members_leaves(gs@, i as int).len(),
            forall|k: int| 0 <= k < base.len() ==> *out@[k] == *base[k],
            forall|k: int| 0 <= k < members_leaves(gs@, i as int).len()
                ==> *out@[base.len() + k] == members_leaves(gs@, i as int)[k],
        decreases gs@.len() - i,
    {
        proof {
            assert(decreases_to!(gs => gs@));
            assert(decreases_to!(gs@ => gs@[i as int]));
        }
        let ghost mid = out@;
        let ghost prev = members_leaves(gs@, i as int);
        push_leaves(&gs[i], out);
        proof {
            let next = members_leaves(gs@, i + 1);
            assert(next == prev + leaves_of(gs@[i as int]));
            assert forall|k: int| 0 <= k < next.len() implies *out@[base.len() + k] == next[k] by {
                if k < prev.len() {
                    assert(*out@[base.len() + k] == *mid[base.len() + k]);
                } else {
                    assert(*out@[mid.len() + (k - prev.len())] == leaves_of(gs@[i as int])[k - prev.len()]);
                }
            }
        }
        i = i + 1;
    }
}

/// The geometries of `g` that are not collections, in order.
pub fn leaves<'a, P, M>(g: &'a Geometry<P, M>) -> (r: Vec<&'a Geometry<P, M>>)
    ensures
        r@.len() == leaves_of(*g).len(),
        forall|k: int| 0 <= k < r@.len() ==> *r@[k] == leaves_of(*g)[k],
{
    let mut r: Vec<&'a Geometry<P, M>> = Vec::new();
    push_leaves(g, &mut r);
    r
}

/// What is known of slot `c` after the leaves before `k` and the first `w`
/// arcs of leaf `k` (whose arcs are `fk`) have been read.
spec fn slot_ok<P, M>(leaves: Seq<Geometry<P, M>>, k: int, fk: Seq<i32>, w: int, c: int, slot: Option<ArcRecord>) -> bool {
    match slot {
        None => {
            &&& forall|j: int| 0 <= j < k ==> !uses_arc(#[trigger] leaves[j], c)
            &&& !names_arc(fk.take(w), c)
        },
        Some(r) => {
            &&& canonical(r.arc) == c
            &&& r.first <= r.last <= k
            &&& forall|j: int| 0 <= j < r.first ==> !uses_arc(#[trigger] leaves[j], c)
            &&& forall|j: int| r.last < j < k ==> !uses_arc(#[trigger] leaves[j], c)
            &&& r.last < k ==> uses_arc(leaves[r.last as int], c) && !names_arc(fk.take(w), c)
            &&& r.last == k ==> names_arc(fk.take(w), c)
            &&& r.first < k ==> uses_arc(leaves[r.first as int], c)
            &&& r.first < k ==> exists|v: int| 0 <= v < arcs_of(leaves[r.first as int]).len()
                && arcs_of(leaves[r.first as int])[v] == r.arc
                && forall|u: int| 0 <= u < v ==> canonical(#[trigger] arcs_of(leaves[r.first as int])[u]) != c
            &&& r.first == k ==> exists|v: int| 0 <= v < w && fk[v] == r.arc
                && forall|u: int| 0 <= u < v ==> canonical(#[trigger] fk[u]) != c
        },
    }
}

/// For every canonical arc that a leaf uses, in increasing order, the record
/// of its first signed use and of the first and last leaves that use it.
pub fn mesh_records<P, M>(leaves: &Vec<&Geometry<P, M>>) -> (r: Vec<ArcRecord>)
    ensures
        forall|k: int| 0 <= k < r@.len() ==> record_ok(leaves@.map_values(|g: &Geometry<P, M>| *g), #[trigger] r@[k]),
        forall|k: int, j: int| 0 <= k < j < r@.len() ==> canonical(#[trigger] r@[k].arc) < canonical(#[trigger] r@[j].arc),
        forall|c: int, j: int| 0 <= j < leaves@.len() && #[trigger] uses_arc(*leaves@[j], c)
            ==> exists|k: int| 0 <= k < r@.len() && canonical(#[trigger] r@[k].arc) == c,
{
    let ghost ls = leaves@.map_values(|g: &Geometry<P, M>| *g);
    let nl = leaves.len();
    let mut flats: Vec<Vec<i32>> = Vec::new();
    let mut nb: usize = 0;
    let mut i: usize = 0;
    while i < nl
        invariant
            nl == leaves@.len(),
            ls == leaves@.map_values(|g: &Geometry<P, M>| *g),
            i <= nl,
            flats@.len() == i,
            forall|o: int| 0 <= o < i ==> #[trigger] flats@[o]@ == arcs_of(ls[o]),
            forall|o: int, q: int| 0 <= o < i && 0 <= q < flats@[o]@.len() ==> canonical(#[trigger] flats@[o]@[q]) < nb,
            nb <= 0x8000_0000,
        decreases nl - i,
    {
        let mut f: Vec<i32> = Vec::new();
        collect_arcs(leaves[i], &mut f);
        assert(f@ =~= arcs_of(ls[i as int]));
        let mut q: usize = 0;
        while q < f.len()
            invariant
                q <= f@.len(),
                forall|qq: int| 0 <= qq < q ==> canonical(#[trigger] f@[qq]) < nb,
                forall|o: int, qq: int| 0 <= o < i && 0 <= qq < flats@[o]@.len() ==> canonical(#[trigger] flats@[o]@[qq]) < nb,
                nb <= 0x8000_0000,
            decreases f@.len() - q,
        {
            let c = crate::feature::arc_slot(f[q]);
            if c + 1 > nb {
                nb = c + 1;
            }
            q = q + 1;
        }
        flats.push(f);
        assert forall|o: int, qq: int| 0 <= o < i + 1 && 0 <= qq < flats@[o]@.len() implies canonical(#[trigger] flats@[o]@[qq]) < nb by {}
        i = i + 1;
    }
    let mut slots: Vec<Option<ArcRecord>> = Vec::new();
    let mut c: usize = 0;
    while c < nb
        invariant
            c <= nb,
            slots@.len() == c,
            forall|cc: int| 0 <= cc < c ==> (#[trigger] slots@[cc]) is None,
        decreases nb - c,
    {
        slots.push(None);
        c = c + 1;
    }
    let mut k: usize = 0;
    while k < nl
        invariant
            nl == leaves@.len(),
            ls == leaves@.map_values(|g: &Geometry<P, M>| *g),
            flats@.len() == nl,
            forall|o: int| 0 <= o < nl ==> #[trigger] flats@[o]@ == arcs_of(ls[o]),
            forall|o: int, q: int| 0 <= o < nl && 0 <= q < flats@[o]@.len() ==> canonical(#[trigger] flats@[o]@[q]) < nb,
            slots@.len() == nb,
            k <= nl,
            forall|cc: int| 0 <= cc < nb ==> slot_ok(ls, k as int, Seq::empty(), 0, cc, #[trigger] slots@[cc]),
        decreases nl - k,
    {
        let ghost fk = flats@[k as int]@;
        proof {
            assert(fk.take(0) =~= Seq::<i32>::empty());
            assert(Seq::<i32>::empty().take(0) =~= Seq::<i32>::empty());
        }
        let mut w: usize = 0;
        while w < flats[k].len()
            invariant
                nl == leaves@.len(),
                ls == leaves@.map_values(|g: &Geometry<P, M>| *g),
                flats@.len() == nl,
                k < nl,
                fk == flats@[k as int]@,
                fk == arcs_of(ls[k as int]),
                forall|q: int| 0 <= q < fk.len() ==> canonical(#[trigger] fk[q]) < nb,
                slots@.len() == nb,
                w <= fk.len(),
                forall|cc: int| 0 <= cc < nb ==> slot_ok(ls, k as int, fk, w as int, cc, #[trigger] slots@[cc]),
            decreases fk.len() - w,
        {
            let a = flats[k][w];
            assert(canonical(fk[w as int]) < nb);
            let c = crate::feature::arc_slot(a);
            let ghost old_slots = slots@;
            let next = match slots[c] {
                None => ArcRecord { arc: a, first: k, last: k },
                Some(rec) => ArcRecord { arc: rec.arc, first: rec.first, last: k },
            };
            slots.set(c, Some(next));
            proof {
                let t = fk.take(w as int);
                let t1 = fk.take(w + 1);
                assert(t1 =~= t.push(a));
                assert forall|cc: int| 0 <= cc < nb implies slot_ok(ls, k as int, fk, w + 1, cc, #[trigger] slots@[cc]) by {
                    assert(names_arc(t1, cc) <==> names_arc(t, cc) || canonical(a) == cc) by {
                        if names_arc(t, cc) {
                            let v = choose|v: int| 0 <= v < t.len() && canonical(#[trigger] t[v]) == cc;
                            assert(t1[v] == t[v]);
                        }
                        if names_arc(t1, cc) {
                            let v = choose|v: int| 0 <= v < t1.len() && canonical(#[trigger] t1[v]) == cc;
                            if v < t.len() {
                                assert(t[v] == t1[v]);
                            }
                        }
                        if canonical(a) == cc {
                            assert(t1[w as int] == a);
                        }
                    }
                    if cc != c {
                        assert(slots@[cc] == old_slots[cc]);
                        let sl = old_slots[cc];
                        if let Some(r) = sl {
                            if r.first == k {
                                let v = choose|v: int| 0 <= v < w && fk[v] == r.arc
                                    && forall|u: int| 0 <= u < v ==> canonical(#[trigger] fk[u]) != cc;
                                assert(fk[v] == r.arc);
                            }
                        }
                    } else {
                        match old_slots[cc] {
                            None => {
                                assert forall|u: int| 0 <= u < w implies canonical(#[trigger] fk[u]) != cc by {
                                    assert(t[u] == fk[u]);
                                }
                                assert(fk[w as int] == a);
                            },
                            Some(r) => {
                                if r.first == k {
                                    let v = choose|v: int| 0 <= v < w && fk[v] == r.arc
                                        && forall|u: int| 0 <= u < v ==> canonical(#[trigger] fk[u]) != cc;
                                    assert(fk[v] == r.arc);
                                }
                                if r.last < k {
                                    assert(uses_arc(ls[r.last as int], cc));
                                }
                            },
                        }
                    }
                }
            }
            w = w + 1;
        }
        proof {
            assert(fk.take(w as int) =~= fk);
            assert forall|cc: int| 0 <= cc < nb implies slot_ok(ls, k + 1, Seq::empty(), 0, cc, #[trigger] slots@[cc]) by {
                assert(Seq::<i32>::empty().take(0) =~= Seq::<i32>::empty());
                assert(!names_arc(Seq::<i32>::empty(), cc));
                assert(uses_arc(ls[k as int], cc) == names_arc(fk, cc));
                match slots@[cc] {
                    None => {},
                    Some(r) => {
                        if r.first == k {
                            let v = choose|v: int| 0 <= v < w && fk[v] == r.arc
                                && forall|u: int| 0 <= u < v ==> canonical(#[trigger] fk[u]) != cc;
                            assert(arcs_of(ls[r.first as int])[v] == r.arc);
                        }
                    },
                }
            }
        }
        k = k + 1;
    }
    let mut r: Vec<ArcRecord> = Vec::new();
    let mut c: usize = 0;
    while c < nb
        invariant
            nl == leaves@.len(),
            ls == leaves@.map_values(|g: &Geometry<P, M>| *g),
            flats@.len() == nl,
            forall|o: int| 0 <= o < nl ==> #[trigger] flats@[o]@ == arcs_of(ls[o]),
            forall|o: int, q: int| 0 <= o < nl && 0 <= q < flats@[o]@.len() ==> canonical(#[trigger] flats@[o]@[q]) < nb,
            slots@.len() == nb,
            c <= nb,
            forall|cc: int| 0 <= cc < nb ==> slot_ok(ls, nl as int, Seq::empty(), 0, cc, #[trigger] slots@[cc]),
            forall|q: int| 0 <= q < r@.len() ==> record_ok(ls, #[trigger] r@[q]),
            forall|q: int| 0 <= q < r@.len() ==> canonical(#[trigger] r@[q].arc) < c,
            forall|q: int, j: int| 0 <= q < j < r@.len() ==> canonical(#[trigger] r@[q].arc) < canonical(#[trigger] r@[j].arc),
            forall|cc: int| 0 <= cc < c && (#[trigger] slots@[cc]) is Some ==> exists|q: int| 0 <= q < r@.len() && canonical(#[trigger] r@[q].arc) == cc,
        decreases nb - c,
    {
        match slots[c] {
            Some(rec) => {
                let ghost before = r@;
                proof {
                    assert(slot_ok(ls, nl as int, Seq::empty(), 0, c as int, slots@[c as int]));
                    assert(Seq::<i32>::empty().take(0) =~= Seq::<i32>::empty());
                    assert(!names_arc(Seq::<i32>::empty(), c as int));
                }
                r.push(rec);
                proof {
                    assert(r@[before.len() as int] == rec);
                    assert forall|cc: int| 0 <= cc < c + 1 && (#[trigger] slots@[cc]) is Some implies exists|q: int| 0 <= q < r@.len() && canonical(#[trigger] r@[q].arc) == cc by {
                        if cc < c {
                            let q = choose|q: int| 0 <= q < before.len() && canonical(#[trigger] before[q].arc) == cc;
                            assert(r@[q] == before[q]);
                        }
                    }
                }
            },
            None => {},
        }
        c = c + 1;
    }
    proof {
        assert forall|cc: int, j: int| 0 <= j < leaves@.len() && #[trigger] uses_arc(*leaves@[j], cc)
            implies exists|q: int| 0 <= q < r@.len() && canonical(#[trigger] r@[q].arc) == cc by {
            assert(ls[j] == *leaves@[j]);
            let v = choose|v: int| 0 <= v < arcs_of(ls[j]).len() && canonical(#[trigger] arcs_of(ls[j])[v]) == cc;
            assert(flats@[j]@[v] == arcs_of(ls[j])[v]);
            assert(cc < nb);
            assert(slot_ok(ls, nl as int, Seq::empty(), 0, cc, slots@[cc]));
        }
    }
    r
}

proof fn lemma_paths_flat_valid(paths: Seq<Vec<i32>>, n: int, i: int)
    requires
        paths_valid(paths, n),
        0 <= i <= paths.len(),
    ensures
        indices_valid(paths_flat(paths, i), n),
    decreases i,
{
    if i > 0 {
        lemma_paths_flat_valid(paths, n, i - 1);
        let a = paths_flat(paths, i - 1);
        let b = paths[i - 1]@;
        assert(indices_valid(b, n));
        assert forall|k: int| 0 <= k < (a + b).len() implies canonical(#[trigger] (a + b)[k]) < n by {
            if k < a.len() {
                assert((a + b)[k] == a[k]);
            } else {
                assert((a + b)[k] == b[k - a.len()]);
            }
        }
    }
}

proof fn lemma_polygons_flat_valid(polys: Seq<Vec<Vec<i32>>>, n: int, i: int)
    requires
        forall|k: int| 0 <= k < polys.len() ==> paths_valid(#[trigger] polys[k]@, n),
        0 <= i <= polys.len(),
    ensures
        indices_valid(polygons_flat(polys, i), n),
    decreases i,
{
    if i > 0 {
        lemma_polygons_flat_valid(polys, n, i - 1);
        lemma_paths_flat_valid(polys[i - 1]@, n, polys[i - 1]@.len() as int);
        let a = polygons_flat(polys, i - 1);
        let b = paths_flat(polys[i - 1]@, polys[i - 1]@.len() as int);
        assert forall|k: int| 0 <= k < (a + b).len() implies canonical(#[trigger] (a + b)[k]) < n by {
            if k < a.len() {
                assert((a + b)[k] == a[k]);
            } else {
                assert((a + b)[k] == b[k - a.len()]);
            }
        }
    }
}

/// The leaves of a valid geometry are valid, and so are the arcs they use.
proof fn lemma_leaves_valid<P, M>(g: Geometry<P, M>, n: int)
    requires
        geometry_valid(g, n),
    ensures
        forall|k: int| 0 <= k < leaves_of(g).len() ==> geometry_valid(#[trigger] leaves_of(g)[k], n)
            && indices_valid(arcs_of(leaves_of(g)[k]), n),
    decreases g, 1int,
{
    match g {
        Geometry::GeometryCollection { geometries, .. } => {
            assert(decreases_to!(g => g->geometries));
            assert(members_valid(geometries@, n, geometries@.len() as int));
            assert(leaves_of(g) == members_leaves(geometries@, geometries@.len() as int));
            lemma_members_leaves_valid(geometries, n, geometries@.len() as int);
        },
        Geometry::LineString { arcs, .. } => {
            assert(leaves_of(g)[0] == g);
        },
        Geometry::MultiLineString { arcs, .. } => {
            assert(leaves_of(g)[0] == g);
            lemma_paths_flat_valid(arcs@, n, arcs@.len() as int);
        },
        Geometry::Polygon { arcs, .. } => {
            assert(leaves_of(g)[0] == g);
            lemma_paths_flat_valid(arcs@, n, arcs@.len() as int);
        },
        Geometry::MultiPolygon { arcs, .. } => {
            assert(leaves_of(g)[0] == g);
            lemma_polygons_flat_valid(arcs@, n, arcs@.len() as int);
        },
        _ => {
            assert(leaves_of(g)[0] == g);
        },
    }
}

proof fn lemma_members_leaves_valid<P, M>(gs: Vec<Geometry<P, M>>, n: int, i: int)
    requires
        members_valid(gs@, n, i),
        0 <= i <= gs@.len(),
    ensures
        forall|k: int| 0 <= k < members_leaves(gs@, i).len() ==> geometry_valid(#[trigger] members_leaves(gs@, i)[k], n)
            && indices_valid(arcs_of(members_leaves(gs@, i)[k]), n),
    decreases gs, 0int, i,
{
    if i > 0 {
        lemma_members_leaves_valid(gs, n, i - 1);
        assert(decreases_to!(gs => gs@));
        assert(decreases_to!(gs@ => gs@[i - 1]));
        lemma_leaves_valid(gs@[i - 1], n);
        let a = members_leaves(gs@, i - 1);
        let b = leaves_of(gs@[i - 1]);
        assert forall|k: int| 0 <= k < (a + b).len() implies geometry_valid(#[trigger] (a + b)[k], n)
            && indices_valid(arcs_of((a + b)[k]), n) by {
            if k < a.len() {
                assert((a + b)[k] == a[k]);
            } else {
                assert((a + b)[k] == b[k - a.len()]);
            }
        }
    }
}

/// Some record for which `keep` holds has the signed arc index `x`.
pub open spec fn kept_arc(records: Seq<ArcRecord>, keep: Seq<bool>, x: i32) -> bool {
    exists|k: int| 0 <= k < records.len() && keep[k] && (#[trigger] records[k]).arc == x
}

/// `records` are the records of the arcs that `leaves` use: one per canonical
/// arc that a leaf uses, in increasing order of canonical index.
pub open spec fn records_of<P, M>(leaves: Seq<Geometry<P, M>>, records: Seq<ArcRecord>) -> bool {
    &&& forall|k: int| 0 <= k < records.len() ==> record_ok(leaves, #[trigger] records[k])
    &&& forall|k: int, j: int| 0 <= k < j < records.len() ==> canonical(#[trigger] records[k].arc) < canonical(#[trigger] records[j].arc)
    &&& forall|c: int, j: int| 0 <= j < leaves.len() && #[trigger] uses_arc(leaves[j], c)
        ==> exists|k: int| 0 <= k < records.len() && canonical(#[trigger] records[k].arc) == c
}

/// The arcs of the first `k` records for which `keep` holds, in order.
pub open spec fn kept_list(records: Seq<ArcRecord>, keep: Seq<bool>, k: int) -> Seq<i32>
    decreases k,
{
    if k <= 0 || k > records.len() {
        Seq::empty()
    } else if keep[k - 1] {
        kept_list(records, keep, k - 1).push(records[k - 1].arc)
    } else {
        kept_list(records, keep, k - 1)
    }
}

/// Some geometry of `ls` uses the signed arc index `x`.
pub open spec fn used_by_leaf<P, M>(ls: Seq<Geometry<P, M>>, x: i32) -> bool {
    exists|j: int| 0 <= j < ls.len() && #[trigger] arcs_of(ls[j]).contains(x)
}

proof fn lemma_kept_all(records: Seq<ArcRecord>, keep: Seq<bool>, k: int)
    requires
        keep.len() == records.len(),
        forall|j: int| 0 <= j < keep.len() ==> #[trigger] keep[j],
        0 <= k <= records.len(),
    ensures
        kept_list(records, keep, k) =~= records.take(k).map_values(|r: ArcRecord| r.arc),
    decreases k,
{
    if k > 0 {
        lemma_kept_all(records, keep, k - 1);
        assert(records.take(k).map_values(|r: ArcRecord| r.arc)
            =~= records.take(k - 1).map_values(|r: ArcRecord| r.arc).push(records[k - 1].arc));
    }
    assert(records.take(records.len() as int) =~= records);
}

impl<P, M> TopoJSON<P, M> {
    /// Stitches together the arcs of the records for which `keep` holds.
    pub fn mesh_select(&self, records: &Vec<ArcRecord>, keep: &Vec<bool>) -> (out: Vec<Vec<i32>>)
        requires
            self.arcs_wf(),
            keep@.len() == records@.len(),
            forall|k: int| 0 <= k < records@.len() ==> canonical(#[trigger] records@[k].arc) < self.arcs@.len(),
        ensures
            forall|p: int| 0 <= p < out@.len() ==> (#[trigger] out@[p])@.len() >= 1
                && crate::stitch::chained(self.arc_seqs(), self.delta_encoded, out@[p]@),
            forall|p: int, q: int| 0 <= p < out@.len() && 0 <= q < out@[p]@.len()
                ==> kept_arc(records@, keep@, #[trigger] out@[p]@[q]),
            forall|k: int| 0 <= k < records@.len() && keep@[k] ==> covers(out@, canonical(#[trigger] records@[k].arc)),
            forall|p: int| 0 <= p < out@.len() ==> crate::topology::path_valid(#[trigger] out@[p]@, self.arcs@.len() as int),
            chain_views(out@) == stitch_paths(self.arc_seqs(), self.delta_encoded, kept_list(records@, keep@, records@.len() as int)),
    {
        let mut chosen: Vec<i32> = Vec::new();
        let mut k: usize = 0;
        while k < records.len()
            invariant
                keep@.len() == records@.len(),
                k <= records@.len(),
                forall|j: int| 0 <= j < records@.len() ==> canonical(#[trigger] records@[j].arc) < self.arcs@.len(),
                indices_valid(chosen@, self.arcs@.len() as int),
                forall|j: int| 0 <= j < chosen@.len() ==> kept_arc(records@, keep@, #[trigger] chosen@[j]),
                forall|j: int| 0 <= j < k && keep@[j] ==> chosen@.contains(#[trigger] records@[j].arc),
                chosen@ == kept_list(records@, keep@, k as int),
            decreases records@.len() - k,
        {
            if keep[k] {
                let ghost before = chosen@;
                chosen.push(records[k].arc);
                proof {
                    assert(chosen@[before.len() as int] == records@[k as int].arc);
                    assert forall|j: int| 0 <= j < chosen@.len() implies kept_arc(records@, keep@, #[trigger] chosen@[j]) by {
                        if j < before.len() {
                            assert(chosen@[j] == before[j]);
                        } else {
                            assert(records@[k as int].arc == chosen@[j]);
                        }
                    }
                    assert forall|j: int| 0 <= j < k + 1 && keep@[j] implies chosen@.contains(#[trigger] records@[j].arc) by {
                        if j < k {
                            let w = choose|w: int| 0 <= w < before.len() && before[w] == records@[j].arc;
                            assert(chosen@[w] == before[w]);
                        }
                    }
                }
            }
            k = k + 1;
        }
        let out = self.stitch(&chosen);
        proof {
            assert forall|p: int, q: int| 0 <= p < out@.len() && 0 <= q < out@[p]@.len()
                implies kept_arc(records@, keep@, #[trigger] out@[p]@[q]) by {
                assert(chosen@.contains(out@[p]@[q]));
                let w = choose|w: int| 0 <= w < chosen@.len() && chosen@[w] == out@[p]@[q];
                assert(kept_arc(records@, keep@, chosen@[w]));
            }
            assert forall|p: int| 0 <= p < out@.len() implies crate::topology::path_valid(#[trigger] out@[p]@, self.arcs@.len() as int) by {
                assert forall|q: int| 0 <= q < out@[p]@.len() implies canonical(#[trigger] out@[p]@[q]) < self.arcs@.len() by {
                    assert(chosen@.contains(out@[p]@[q]));
                }
            }
            assert forall|k: int| 0 <= k < records@.len() && keep@[k] implies covers(out@, canonical(#[trigger] records@[k].arc)) by {
                let w = choose|w: int| 0 <= w < chosen@.len() && chosen@[w] == records@[k].arc;
                assert(covers(out@, canonical(chosen@[w])));
            }
        }
        out
    }

    /// The mesh of `root`: every arc that its lines and rings use, once,
    /// under the sign of its first use, stitched into lines.
    pub fn mesh_of(&self, root: &Geometry<P, M>) -> (out: Vec<Vec<i32>>)
        requires
            self.arcs_wf(),
            geometry_valid(*root, self.arcs@.len() as int),
        ensures
            forall|p: int| 0 <= p < out@.len() ==> (#[trigger] out@[p])@.len() >= 1
                && crate::stitch::chained(self.arc_seqs(), self.delta_encoded, out@[p]@),
            forall|p: int, q: int| 0 <= p < out@.len() && 0 <= q < out@[p]@.len()
                ==> used_by_leaf(leaves_of(*root), #[trigger] out@[p]@[q]),
            forall|c: int, j: int| 0 <= j < leaves_of(*root).len() && #[trigger] uses_arc(leaves_of(*root)[j], c)
                ==> covers(out@, c),
            forall|p: int| 0 <= p < out@.len() ==> crate::topology::path_valid(#[trigger] out@[p]@, self.arcs@.len() as int),
            exists|records: Seq<ArcRecord>| #[trigger] records_of(leaves_of(*root), records)
                && chain_views(out@) == stitch_paths(self.arc_seqs(), self.delta_encoded, records.map_values(|r: ArcRecord| r.arc)),
    {
        let ls = leaves(root);
        let records = mesh_records(&ls);
        proof {
            lemma_leaves_valid(*root, self.arcs@.len() as int);
            let lv = ls@.map_values(|g: &Geometry<P, M>| *g);
            assert forall|k: int| 0 <= k < records@.len() implies canonical(#[trigger] records@[k].arc) < self.arcs@.len() by {
                let rec = records@[k];
                assert(record_ok(lv, rec));
                assert(lv[rec.first as int] == leaves_of(*root)[rec.first as int]);
                let v = choose|v: int| 0 <= v < arcs_of(lv[rec.first as int]).len()
                    && arcs_of(lv[rec.first as int])[v] == rec.arc
                    && forall|u: int| 0 <= u < v ==> canonical(#[trigger] arcs_of(lv[rec.first as int])[u]) != canonical(rec.arc);
                assert(indices_valid(arcs_of(leaves_of(*root)[rec.first as int]), self.arcs@.len() as int));
            }
        }
        let mut keep: Vec<bool> = Vec::new();
        let mut k: usize = 0;
        while k < records.len()
            invariant
                k <= records@.len(),
                keep@.len() == k,
                forall|j: int| 0 <= j < k ==> #[trigger] keep@[j],
            decreases records@.len() - k,
        {
            keep.push(true);
            k = k + 1;
        }
        let out = self.mesh_select(&records, &keep);
        proof {
            let lv = ls@.map_values(|g: &Geometry<P, M>| *g);
            assert(lv =~= leaves_of(*root));
            assert(records_of(leaves_of(*root), records@));
            lemma_kept_all(records@, keep@, records@.len() as int);
            assert(kept_list(records@, keep@, records@.len() as int) =~= records@.map_values(|r: ArcRecord| r.arc));
            assert forall|c: int, j: int| 0 <= j < leaves_of(*root).len() && #[trigger] uses_arc(leaves_of(*root)[j], c)
                implies covers(out@, c) by {
                assert(*ls@[j] == leaves_of(*root)[j]);
                let q = choose|q: int| 0 <= q < records@.len() && canonical(#[trigger] records@[q].arc) == c;
                assert(keep@[q]);
            }
            let lv = ls@.map_values(|g: &Geometry<P, M>| *g);
            assert forall|p: int, q: int| 0 <= p < out@.len() && 0 <= q < out@[p]@.len()
                implies used_by_leaf(leaves_of(*root), #[trigger] out@[p]@[q]) by {
                assert(kept_arc(records@, keep@, out@[p]@[q]));
                let k = choose|k: int| 0 <= k < records@.len() && keep@[k] && (#[trigger] records@[k]).arc == out@[p]@[q];
                let rec = records@[k];
                assert(record_ok(lv, rec));
                assert(lv[rec.first as int] == leaves_of(*root)[rec.first as int]);
                let v = choose|v: int| 0 <= v < arcs_of(lv[rec.first as int]).len()
                    && arcs_of(lv[rec.first as int])[v] == rec.arc
                    && forall|u: int| 0 <= u < v ==> canonical(#[trigger] arcs_of(lv[rec.first as int])[u]) != canonical(rec.arc);
                assert(arcs_of(leaves_of(*root)[rec.first as int]).contains(rec.arc));
            }
        }
        out
    }
}

} // verus!
