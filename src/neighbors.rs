//! Adjacency between geometries that share arcs.

use vstd::prelude::*;
use crate::bisect::{bisect, sorted};
use crate::topology::{
    Geometry, arcs_of, canonical, members_arcs, names_arc, paths_flat, polygons_flat, uses_arc,
};

verus! {

/// Appends the arc indices of a list of lines or rings to `out`.
fn collect_paths(paths: &Vec<Vec<i32>>, out: &mut Vec<i32>)
    ensures
        final(out)@ == old(out)@ + paths_flat(paths@, paths@.len() as int),
{
    let mut k: usize = 0;
    while k < paths.len()
        invariant
            k <= paths@.len(),
            out@ == old(out)@ + paths_flat(paths@, k as int),
        decreases paths@.len() - k,
    {
        let mut q: usize = 0;
        let ghost base = out@;
        while q < paths[k].len()
            invariant
                k < paths@.len(),
                q <= paths@[k as int]@.len(),
                out@ == base + paths@[k as int]@.take(q as int),
            decreases paths@[k as int]@.len() - q,
        {
            out.push(paths[k][q]);
            q = q + 1;
            assert(out@ =~= base + paths@[k as int]@.take(q as int));
        }
        assert(paths@[k as int]@.take(q as int) =~= paths@[k as int]@);
        k = k + 1;
        assert(out@ =~= old(out)@ + paths_flat(paths@, k as int));
    }
}

/// Appends the arc indices of each geometry of `gs` to `out`.
fn collect_member_arcs<P, M>(gs: &Vec<Geometry<P, M>>, out: &mut Vec<i32>)
    ensures
        final(out)@ == old(out)@ + members_arcs(gs@, gs@.len() as int),
    decreases gs, 0int,
{
    let mut k: usize = 0;
    while k < gs.len()
        invariant
            k <= gs@.len(),
            out@ == old(out)@ + members_arcs(gs@, k as int),
        decreases gs@.len() - k,
    {
        proof {
            assert(decreases_to!(gs => gs@));
            assert(decreases_to!(gs@ => gs@[k as int]));
        }
        collect_arcs(&gs[k], out);
        k = k + 1;
        assert(out@ =~= old(out)@ + members_arcs(gs@, k as int));
    }
}

/// Appends the arc indices that `g` uses to `out`.
pub fn collect_arcs<P, M>(g: &Geometry<P, M>, out: &mut Vec<i32>)
    ensures
        final(out)@ == old(out)@ + arcs_of(*g),
    decreases g, 1int,
{
    match g {
        Geometry::GeometryCollection { geometries, .. } => collect_member_arcs(geometries, out),
        Geometry::Point { .. } => {
            assert(out@ =~= old(out)@ + arcs_of(*g));
        },
        Geometry::MultiPoint { .. } => {
            assert(out@ =~= old(out)@ + arcs_of(*g));
        },
        Geometry::LineString { arcs, .. } => {
            let mut q: usize = 0;
            while q < arcs.len()
                invariant
                    q <= arcs@.len(),
                    out@ == old(out)@ + arcs@.take(q as int),
                decreases arcs@.len() - q,
            {
                out.push(arcs[q]);
                q = q + 1;
                assert(out@ =~= old(out)@ + arcs@.take(q as int));
            }
            assert(arcs@.take(q as int) =~= arcs@);
        },
        Geometry::MultiLineString { arcs, .. } => collect_paths(arcs, out),
        Geometry::Polygon { arcs, .. } => collect_paths(arcs, out),
        Geometry::MultiPolygon { arcs, .. } => {
            let mut k: usize = 0;
            while k < arcs.len()
                invariant
                    k <= arcs@.len(),
                    out@ == old(out)@ + polygons_flat(arcs@, k as int),
                decreases arcs@.len() - k,
            {
                collect_paths(&arcs[k], out);
                k = k + 1;
                assert(out@ =~= old(out)@ + polygons_flat(arcs@, k as int));
            }
        },
    }
}

/// Strictly increasing.
pub open spec fn strictly_sorted(s: Seq<i32>) -> bool {
    forall|i: int, j: int| 0 <= i < j < s.len() ==> s[i] < s[j]
}

/// Geometries `a` and `b` use a common arc.
pub open spec fn share_arc<P, M>(a: Geometry<P, M>, b: Geometry<P, M>) -> bool {
    exists|c: int| uses_arc(a, c) && #[trigger] uses_arc(b, c)
}

/// Inserts `x` into the strictly increasing list `v` unless it is there.
fn insert_sorted(v: &mut Vec<i32>, x: i32)
    requires
        strictly_sorted(old(v)@),
    ensures
        strictly_sorted(final(v)@),
        forall|y: i32| #[trigger] final(v)@.contains(y) <==> old(v)@.contains(y) || y == x,
{
    let i = bisect(v.as_slice(), &x);
    if i < v.len() && v[i] == x {
        return;
    }
    let ghost before = v@;
    v.insert(i, x);
    proof {
        assert(v@ =~= before.insert(i as int, x));
        assert forall|a: int, b: int| 0 <= a < b < v@.len() implies v@[a] < v@[b] by {
            if b < i {
            } else if a < i && b == i {
            } else if a < i {
                assert(v@[b] == before[b - 1]);
            } else if a == i {
                assert(v@[b] == before[b - 1]);
                assert(before[i as int] >= x);
                if i < before.len() {
                    assert(before[i as int] != x);
                }
                assert(b - 1 >= i);
                if b - 1 > i {
                    assert(before[i as int] < before[b - 1]);
                }
            } else {
                assert(v@[a] == before[a - 1]);
                assert(v@[b] == before[b - 1]);
            }
        }
        assert forall|y: i32| #[trigger] v@.contains(y) <==> before.contains(y) || y == x by {
            if v@.contains(y) {
                let w = choose|w: int| 0 <= w < v@.len() && v@[w] == y;
                if w < i {
                    assert(before[w] == y);
                } else if w > i {
                    assert(before[w - 1] == y);
                }
            }
            if before.contains(y) {
                let w = choose|w: int| 0 <= w < before.len() && before[w] == y;
                if w < i {
                    assert(v@[w] == y);
                } else {
                    assert(v@[w + 1] == y);
                }
            }
            if y == x {
                assert(v@[i as int] == x);
            }
        }
    }
}

/// `a` and `b` are both among the object indices of `bucket`.
spec fn both_in(bucket: Seq<usize>, a: int, b: int) -> bool {
    bucket.contains(a as usize) && bucket.contains(b as usize)
}

/// For each object, the sorted indices of the other objects that use one of
/// its arcs. Points and multipoints use no arcs, so they have no neighbors.
pub fn neighbors<P, M>(objects: &Vec<Geometry<P, M>>) -> (r: Vec<Vec<i32>>)
    requires
        objects@.len() <= i32::MAX,
    ensures
        r@.len() == objects@.len(),
        neighbor_lists(objects@, r@),
        forall|i: int| 0 <= i < r@.len() ==> strictly_sorted(#[trigger] r@[i]@),
        forall|i: int, j: int| 0 <= i < r@.len() && 0 <= j < r@.len() ==>
            (#[trigger] r@[i]@.contains(j as i32) <==> i != j && share_arc(objects@[i], objects@[j])),
        forall|i: int, j: int| 0 <= i < r@.len() && 0 <= j < r@.len() ==>
            (#[trigger] r@[i]@.contains(j as i32) <==> r@[j]@.contains(i as i32)),
        forall|i: int, k: int| 0 <= i < r@.len() && 0 <= k < r@[i]@.len() ==> 0 <= #[trigger] r@[i]@[k] < r@.len(),
{
    let no = objects.len();
    let mut flats: Vec<Vec<i32>> = Vec::new();
    let mut nb: usize = 0;
    let mut i: usize = 0;
    while i < no
        invariant
            no == objects@.len(),
            i <= no,
            flats@.len() == i,
            forall|o: int| 0 <= o < i ==> #[trigger] flats@[o]@ == arcs_of(objects@[o]),
            forall|o: int, k: int| 0 <= o < i && 0 <= k < flats@[o]@.len() ==> canonical(#[trigger] flats@[o]@[k]) < nb,
            nb <= 0x8000_0000,
        decreases no - i,
    {
        let mut f: Vec<i32> = Vec::new();
        collect_arcs(&objects[i], &mut f);
        assert(f@ =~= arcs_of(objects@[i as int]));
        let mut k: usize = 0;
        while k < f.len()
            invariant
                k <= f@.len(),
                forall|kk: int| 0 <= kk < k ==> canonical(#[trigger] f@[kk]) < nb,
                forall|o: int, kk: int| 0 <= o < i && 0 <= kk < flats@[o]@.len() ==> canonical(#[trigger] flats@[o]@[kk]) < nb,
                nb <= 0x8000_0000,
            decreases f@.len() - k,
        {
            let c = crate::feature::arc_slot(f[k]);
            if c + 1 > nb {
                nb = c + 1;
            }
            k = k + 1;
        }
        flats.push(f);
        proof {
            assert forall|o: int, kk: int| 0 <= o < i + 1 && 0 <= kk < flats@[o]@.len() implies canonical(#[trigger] flats@[o]@[kk]) < nb by {}
        }
        i = i + 1;
    }

    // The objects that use each arc.
    let mut buckets: Vec<Vec<usize>> = Vec::new();
    let mut c: usize = 0;
    while c < nb
        invariant
            c <= nb,
            buckets@.len() == c,
            forall|cc: int| 0 <= cc < c ==> (#[trigger] buckets@[cc])@.len() == 0,
        decreases nb - c,
    {
        buckets.push(Vec::new());
        c = c + 1;
    }
    let mut i: usize = 0;
    while i < no
        invariant
            no == objects@.len(),
            flats@.len() == no,
            forall|o: int, k: int| 0 <= o < no && 0 <= k < flats@[o]@.len() ==> canonical(#[trigger] flats@[o]@[k]) < nb,
            buckets@.len() == nb,
            i <= no,
            forall|cc: int, o: int| 0 <= cc < nb && 0 <= o < no ==>
                (#[trigger] buckets@[cc]@.contains(o as usize) <==> o < i && names_arc(flats@[o]@, cc)),
            forall|cc: int, k: int| 0 <= cc < nb && 0 <= k < buckets@[cc]@.len() ==> #[trigger] buckets@[cc]@[k] < no,
        decreases no - i,
    {
        assert(flats@[i as int]@.take(0) =~= Seq::<i32>::empty());
        let mut k: usize = 0;
        while k < flats[i].len()
            invariant
                no == objects@.len(),
                flats@.len() == no,
                i < no,
                forall|o: int, k: int| 0 <= o < no && 0 <= k < flats@[o]@.len() ==> canonical(#[trigger] flats@[o]@[k]) < nb,
                buckets@.len() == nb,
                k <= flats@[i as int]@.len(),
                forall|cc: int, o: int| 0 <= cc < nb && 0 <= o < no ==>
                    (#[trigger] buckets@[cc]@.contains(o as usize) <==> (o < i && names_arc(flats@[o]@, cc))
                        || (o == i && names_arc(flats@[i as int]@.take(k as int), cc))),
                forall|cc: int, k: int| 0 <= cc < nb && 0 <= k < buckets@[cc]@.len() ==> #[trigger] buckets@[cc]@[k] < no,
            decreases flats@[i as int]@.len() - k,
        {
            let a = flats[i][k];
            assert(canonical(flats@[i as int]@[k as int]) < nb);
            let c = crate::feature::arc_slot(a);
            let ghost old_buckets = buckets@;
            let mut bucket = crate::stitch::copy_indices(&buckets[c]);
            bucket.push(i);
            buckets.set(c, bucket);
            proof {
                let fi = flats@[i as int]@;
                assert forall|cc: int, o: int| 0 <= cc < nb && 0 <= o < no implies
                    (#[trigger] buckets@[cc]@.contains(o as usize) <==> (o < i && names_arc(flats@[o]@, cc))
                        || (o == i && names_arc(fi.take(k + 1), cc))) by {
                    let t = fi.take(k as int);
                    let t1 = fi.take(k + 1);
                    if names_arc(t, cc) {
                        let w = choose|w: int| 0 <= w < t.len() && canonical(#[trigger] t[w]) == cc;
                        assert(t1[w] == t[w]);
                    }
                    if names_arc(t1, cc) {
                        let w = choose|w: int| 0 <= w < t1.len() && canonical(#[trigger] t1[w]) == cc;
                        if w < k {
                            assert(t[w] == t1[w]);
                        }
                    }
                    assert(canonical(t1[k as int]) == c);
                    if cc == c {
                        let ob = old_buckets[cc]@;
                        assert(buckets@[cc]@ == ob.push(i));
                        if ob.contains(o as usize) {
                            let w = choose|w: int| 0 <= w < ob.len() && ob[w] == o as usize;
                            assert(buckets@[cc]@[w] == o as usize);
                        }
                        if buckets@[cc]@.contains(o as usize) {
                            let w = choose|w: int| 0 <= w < buckets@[cc]@.len() && buckets@[cc]@[w] == o as usize;
                            if w < ob.len() {
                                assert(ob[w] == o as usize);
                            }
                        }
                        assert(buckets@[cc]@[ob.len() as int] == i);
                    } else {
                        assert(buckets@[cc] == old_buckets[cc]);
                    }
                }
                assert forall|cc: int, kk: int| 0 <= cc < nb && 0 <= kk < buckets@[cc]@.len() implies #[trigger] buckets@[cc]@[kk] < no by {
                    if cc != c {
                        assert(buckets@[cc] == old_buckets[cc]);
                    } else if kk < old_buckets[cc]@.len() {
                        assert(buckets@[cc]@[kk] == old_buckets[cc]@[kk]);
                    }
                }
            }
            k = k + 1;
        }
        assert(flats@[i as int]@.take(k as int) =~= flats@[i as int]@);
        i = i + 1;
    }

    let mut r: Vec<Vec<i32>> = Vec::new();
    let mut i: usize = 0;
    while i < no
        invariant
            i <= no,
            r@.len() == i,
            forall|o: int| 0 <= o < i ==> (#[trigger] r@[o])@.len() == 0,
        decreases no - i,
    {
        r.push(Vec::new());
        i = i + 1;
    }
    let mut c: usize = 0;
    while c < nb
        invariant
            no == objects@.len(),
            no <= i32::MAX,
            buckets@.len() == nb,
            forall|cc: int, k: int| 0 <= cc < nb && 0 <= k < buckets@[cc]@.len() ==> #[trigger] buckets@[cc]@[k] < no,
            r@.len() == no,
            c <= nb,
            forall|o: int| 0 <= o < no ==> strictly_sorted(#[trigger] r@[o]@),
            forall|a: int, b: int| 0 <= a < no && 0 <= b < no ==>
                (#[trigger] r@[a]@.contains(b as i32) <==> a != b && exists|cc: int| 0 <= cc < c && #[trigger] both_in(buckets@[cc]@, a, b)),
            forall|a: int, k: int| 0 <= a < no && 0 <= k < r@[a]@.len() ==> 0 <= #[trigger] r@[a]@[k] < no,
        decreases nb - c,
    {
        let ghost bk = buckets@[c as int]@;
        let ghost r_start = r@;
        let m = buckets[c].len();
        let mut u: usize = 0;
        while u < m
            invariant
                no == objects@.len(),
                no <= i32::MAX,
                buckets@.len() == nb,
                c < nb,
                bk == buckets@[c as int]@,
                m == bk.len(),
                forall|k: int| 0 <= k < m ==> #[trigger] bk[k] < no,
                r@.len() == no,
                u <= m,
                forall|o: int| 0 <= o < no ==> strictly_sorted(#[trigger] r@[o]@),
                forall|a: int, b: int| 0 <= a < no && 0 <= b < no ==>
                    (#[trigger] r@[a]@.contains(b as i32) <==> (r_start[a]@.contains(b as i32))
                        || (a != b && exists|uu: int, ww: int| 0 <= uu < u && 0 <= ww < m && #[trigger] bk[uu] == a && #[trigger] bk[ww] == b)),
                forall|a: int, k: int| 0 <= a < no && 0 <= k < r@[a]@.len() ==> 0 <= #[trigger] r@[a]@[k] < no,
            decreases m - u,
        {
            let ghost r_u = r@;
            let mut w: usize = 0;
            while w < m
                invariant
                    no == objects@.len(),
                    no <= i32::MAX,
                    buckets@.len() == nb,
                    c < nb,
                    bk == buckets@[c as int]@,
                    m == bk.len(),
                    forall|k: int| 0 <= k < m ==> #[trigger] bk[k] < no,
                    r@.len() == no,
                    u < m,
                    w <= m,
                    forall|o: int| 0 <= o < no ==> strictly_sorted(#[trigger] r@[o]@),
                    forall|a: int, b: int| 0 <= a < no && 0 <= b < no ==>
                        (#[trigger] r@[a]@.contains(b as i32) <==> (r_u[a]@.contains(b as i32))
                            || (a != b && a == bk[u as int] && exists|ww: int| 0 <= ww < w && #[trigger] bk[ww] == b)),
                    forall|a: int, k: int| 0 <= a < no && 0 <= k < r@[a]@.len() ==> 0 <= #[trigger] r@[a]@[k] < no,
                decreases m - w,
            {
                let x = buckets[c][u];
                let y = buckets[c][w];
                assert(bk[u as int] < no && bk[w as int] < no);
                let ghost r_w = r@;
                if x != y {
                    let mut list: Vec<i32> = Vec::new();
                    std::mem::swap(&mut list, &mut r[x]);
                    insert_sorted(&mut list, y as i32);
                    r.set(x, list);
                    proof {
                        assert forall|a: int, b: int| 0 <= a < no && 0 <= b < no implies
                            (#[trigger] r@[a]@.contains(b as i32) <==> (r_w[a]@.contains(b as i32))
                                || (a == x && b == y)) by {
                            if a != x {
                                assert(r@[a] == r_w[a]);
                            } else {
                                if b == y {
                                    assert((b as i32) == (y as i32));
                                } else {
                                    assert((b as i32) != (y as i32));
                                }
                            }
                        }
                        assert forall|a: int, k: int| 0 <= a < no && 0 <= k < r@[a]@.len() implies 0 <= #[trigger] r@[a]@[k] < no by {
                            if a != x {
                                assert(r@[a] == r_w[a]);
                            } else {
                                assert(r@[a]@.contains(r@[a]@[k]));
                                if r@[a]@[k] != y as i32 {
                                    assert(r_w[a]@.contains(r@[a]@[k]));
                                    let z = choose|z: int| 0 <= z < r_w[a]@.len() && r_w[a]@[z] == r@[a]@[k];
                                }
                            }
                        }
                        assert forall|o: int| 0 <= o < no implies strictly_sorted(#[trigger] r@[o]@) by {
                            if o != x {
                                assert(r@[o] == r_w[o]);
                            }
                        }
                    }
                }
                proof {
                    assert forall|a: int, b: int| 0 <= a < no && 0 <= b < no implies
                        (#[trigger] r@[a]@.contains(b as i32) <==> (r_u[a]@.contains(b as i32))
                            || (a != b && a == bk[u as int] && exists|ww: int| 0 <= ww < w + 1 && #[trigger] bk[ww] == b)) by {
                        if a != b && a == bk[u as int] && bk[w as int] == b {
                            assert(a == x && b == y);
                        }
                        if a != b && a == bk[u as int] && exists|ww: int| 0 <= ww < w + 1 && #[trigger] bk[ww] == b {
                            let ww = choose|ww: int| 0 <= ww < w + 1 && #[trigger] bk[ww] == b;
                            if ww < w {
                            } else {
                                assert(a == x && b == y);
                            }
                        }
                    }
                }
                w = w + 1;
            }
            proof {
                assert forall|a: int, b: int| 0 <= a < no && 0 <= b < no implies
                    (#[trigger] r@[a]@.contains(b as i32) <==> (r_start[a]@.contains(b as i32))
                        || (a != b && exists|uu: int, ww: int| 0 <= uu < u + 1 && 0 <= ww < m && #[trigger] bk[uu] == a && #[trigger] bk[ww] == b)) by {
                    if a != b && exists|uu: int, ww: int| 0 <= uu < u + 1 && 0 <= ww < m && #[trigger] bk[uu] == a && #[trigger] bk[ww] == b {
                        let (uu, ww) = choose|uu: int, ww: int| 0 <= uu < u + 1 && 0 <= ww < m && #[trigger] bk[uu] == a && #[trigger] bk[ww] == b;
                        if uu == u {
                            assert(exists|w2: int| 0 <= w2 < m && #[trigger] bk[w2] == b);
                        }
                    }
                    if a != b && a == bk[u as int] && exists|ww: int| 0 <= ww < m && #[trigger] bk[ww] == b {
                        let ww = choose|ww: int| 0 <= ww < m && #[trigger] bk[ww] == b;
                        assert(exists|uu: int, w2: int| 0 <= uu < u + 1 && 0 <= w2 < m && #[trigger] bk[uu] == a && #[trigger] bk[w2] == b);
                    }
                }
            }
            u = u + 1;
        }
        proof {
            assert forall|a: int, b: int| 0 <= a < no && 0 <= b < no implies
                (#[trigger] r@[a]@.contains(b as i32) <==> a != b && exists|cc: int| 0 <= cc < c + 1 && #[trigger] both_in(buckets@[cc]@, a, b)) by {
                if both_in(bk, a, b) && a != b {
                    let uu = choose|uu: int| 0 <= uu < bk.len() && bk[uu] == a as usize;
                    let ww = choose|ww: int| 0 <= ww < bk.len() && bk[ww] == b as usize;
                    assert(bk[ww] == b);
                    assert(exists|u2: int, w2: int| 0 <= u2 < m && 0 <= w2 < m && #[trigger] bk[u2] == a && #[trigger] bk[w2] == b);
                }
                if a != b && exists|uu: int, ww: int| 0 <= uu < m && 0 <= ww < m && #[trigger] bk[uu] == a && #[trigger] bk[ww] == b {
                    let (uu, ww) = choose|uu: int, ww: int| 0 <= uu < m && 0 <= ww < m && #[trigger] bk[uu] == a && #[trigger] bk[ww] == b;
                    assert(bk.contains(a as usize) && bk.contains(b as usize));
                    assert(both_in(buckets@[c as int]@, a, b));
                }
                if a != b && exists|cc: int| 0 <= cc < c + 1 && #[trigger] both_in(buckets@[cc]@, a, b) {
                    let cc = choose|cc: int| 0 <= cc < c + 1 && #[trigger] both_in(buckets@[cc]@, a, b);
                    if cc == c {
                        let uu = choose|uu: int| 0 <= uu < bk.len() && bk[uu] == a as usize;
                        let ww = choose|ww: int| 0 <= ww < bk.len() && bk[ww] == b as usize;
                        assert(bk[ww] == b);
                    }
                }
            }
        }
        c = c + 1;
    }
    proof {
        assert forall|a: int, b: int| 0 <= a < no && 0 <= b < no implies
            (#[trigger] r@[a]@.contains(b as i32) <==> a != b && share_arc(objects@[a], objects@[b])) by {
            if a != b && share_arc(objects@[a], objects@[b]) {
                let cc = choose|cc: int| uses_arc(objects@[a], cc) && #[trigger] uses_arc(objects@[b], cc);
                assert(names_arc(flats@[a]@, cc));
                let w = choose|w: int| 0 <= w < flats@[a]@.len() && canonical(#[trigger] flats@[a]@[w]) == cc;
                assert(cc < nb);
                assert(both_in(buckets@[cc]@, a, b));
            }
            if a != b && exists|cc: int| 0 <= cc < nb && #[trigger] both_in(buckets@[cc]@, a, b) {
                let cc = choose|cc: int| 0 <= cc < nb && #[trigger] both_in(buckets@[cc]@, a, b);
                assert(names_arc(flats@[a]@, cc) && names_arc(flats@[b]@, cc));
                assert(uses_arc(objects@[a], cc) && uses_arc(objects@[b], cc));
            }
        }
        assert forall|a: int, b: int| 0 <= a < no && 0 <= b < no implies
            (#[trigger] r@[a]@.contains(b as i32) <==> r@[b]@.contains(a as i32)) by {
            assert(r@[a]@.contains(b as i32) <==> a != b && share_arc(objects@[a], objects@[b]));
            assert(r@[b]@.contains(a as i32) <==> b != a && share_arc(objects@[b], objects@[a]));
            if share_arc(objects@[a], objects@[b]) {
                let cc = choose|cc: int| uses_arc(objects@[a], cc) && #[trigger] uses_arc(objects@[b], cc);
                assert(uses_arc(objects@[b], cc) && uses_arc(objects@[a], cc));
            }
            if share_arc(objects@[b], objects@[a]) {
                let cc = choose|cc: int| uses_arc(objects@[b], cc) && #[trigger] uses_arc(objects@[a], cc);
                assert(uses_arc(objects@[a], cc) && uses_arc(objects@[b], cc));
            }
        }
    }
    r
}

/// `r` lists, for each of `objects`, the others that share an arc with it.
pub open spec fn neighbor_lists<P, M>(objects: Seq<Geometry<P, M>>, r: Seq<Vec<i32>>) -> bool {
    &&& r.len() == objects.len()
    &&& forall|i: int, j: int| 0 <= i < r.len() && 0 <= j < r.len() ==>
        (#[trigger] r[i]@.contains(j as i32) <==> i != j && share_arc(objects[i], objects[j]))
}

/// Neighborhood is symmetric: `j` is listed for `i` exactly when `i` is
/// listed for `j`.
pub proof fn lemma_neighbors_symmetric<P, M>(objects: Seq<Geometry<P, M>>, r: Seq<Vec<i32>>, i: int, j: int)
    requires
        neighbor_lists(objects, r),
        0 <= i < r.len(),
        0 <= j < r.len(),
    ensures
        r[i]@.contains(j as i32) <==> r[j]@.contains(i as i32),
{
    assert(r[i]@.contains(j as i32) <==> i != j && share_arc(objects[i], objects[j]));
    assert(r[j]@.contains(i as i32) <==> j != i && share_arc(objects[j], objects[i]));
    if share_arc(objects[i], objects[j]) {
        let c = choose|c: int| uses_arc(objects[i], c) && #[trigger] uses_arc(objects[j], c);
        assert(uses_arc(objects[j], c) && uses_arc(objects[i], c));
    }
    if share_arc(objects[j], objects[i]) {
        let c = choose|c: int| uses_arc(objects[j], c) && #[trigger] uses_arc(objects[i], c);
        assert(uses_arc(objects[i], c) && uses_arc(objects[j], c));
    }
}

} // verus!
