//! Chaining arcs end to end into maximal paths, matched by their ends in the
//! stored grid.

use vstd::prelude::*;
use crate::feature::decode_arc;
use crate::topology::{Position, Stored, TopoJSON, arc_points, canonical, indices_valid};

verus! {

/// The first position of the signed arc `i`.
pub open spec fn start_of(arcs: Seq<Seq<Stored>>, delta: bool, i: i32) -> Position {
    arc_points(arcs, delta, i).first()
}

/// The last position of the signed arc `i`.
pub open spec fn end_of(arcs: Seq<Seq<Stored>>, delta: bool, i: i32) -> Position {
    arc_points(arcs, delta, i).last()
}

/// Each arc of `c` ends where the next one starts.
pub open spec fn chained(arcs: Seq<Seq<Stored>>, delta: bool, c: Seq<i32>) -> bool {
    forall|k: int| 0 <= k < c.len() - 1 ==> end_of(arcs, delta, #[trigger] c[k]) == start_of(arcs, delta, c[k + 1])
}

/// Every chain of `out` is non-empty, chained, and made of arcs of `input`.
pub open spec fn chains_sound(arcs: Seq<Seq<Stored>>, delta: bool, input: Seq<i32>, out: Seq<Vec<i32>>) -> bool {
    forall|p: int| 0 <= p < out.len() ==> {
        &&& (#[trigger] out[p])@.len() >= 1
        &&& chained(arcs, delta, out[p]@)
        &&& forall|q: int| 0 <= q < out[p]@.len() ==> input.contains(#[trigger] out[p]@[q])
    }
}

/// Some chain of `out` holds an arc whose canonical index is `c`.
pub open spec fn covers(out: Seq<Vec<i32>>, c: int) -> bool {
    exists|p: int, q: int| 0 <= p < out.len() && 0 <= q < out[p]@.len() && canonical(#[trigger] out[p]@[q]) == c
}

/// An arc of two points whose second delta is zero: its ends coincide.
pub open spec fn is_empty_arc(a: Seq<Stored>) -> bool {
    a.len() == 2 && a[1] == (0i32, 0i32)
}

/// A chain of arcs under construction, with the positions where it starts
/// and ends. Fragments are never changed once built: growing one builds a
/// new one.
struct Fragment {
    start: Position,
    end: Position,
    arcs: Vec<i32>,
}

spec fn fragment_ok(arcs: Seq<Seq<Stored>>, delta: bool, input: Seq<i32>, f: Fragment) -> bool {
    &&& f.arcs@.len() >= 1
    &&& chained(arcs, delta, f.arcs@)
    &&& f.start == start_of(arcs, delta, f.arcs@[0])
    &&& f.end == end_of(arcs, delta, f.arcs@.last())
    &&& forall|q: int| 0 <= q < f.arcs@.len() ==> input.contains(#[trigger] f.arcs@[q])
}

/// An insertion-ordered map from positions to fragments, each entry keyed by
/// the start (or end) of its fragment.
spec fn index_ok(m: Seq<(Position, usize)>, frags: Seq<Fragment>, by_start: bool) -> bool {
    forall|k: int| 0 <= k < m.len() ==> {
        &&& (#[trigger] m[k]).1 < frags.len()
        &&& by_start ==> frags[m[k].1 as int].start == m[k].0
        &&& !by_start ==> frags[m[k].1 as int].end == m[k].0
    }
}

/// The index of the first entry of `m` from `k` on filed under `key`.
pub open spec fn find_from(m: Seq<(Position, usize)>, key: Position, k: int) -> Option<int>
    decreases m.len() - k,
{
    if k < 0 || k >= m.len() {
        None
    } else if m[k].0 == key {
        Some(k)
    } else {
        find_from(m, key, k + 1)
    }
}

/// The fragment filed under `key`.
pub open spec fn map_get(m: Seq<(Position, usize)>, key: Position) -> Option<usize> {
    match find_from(m, key, 0) {
        Some(j) => Some(m[j].1),
        None => None,
    }
}

/// `m` without its entry for `key`.
pub open spec fn map_remove(m: Seq<(Position, usize)>, key: Position) -> Seq<(Position, usize)> {
    match find_from(m, key, 0) {
        Some(j) => m.remove(j),
        None => m,
    }
}

/// `m` with `key` filed to `f`: in place of its entry for `key`, or last.
pub open spec fn map_install(m: Seq<(Position, usize)>, key: Position, f: usize) -> Seq<(Position, usize)> {
    match find_from(m, key, 0) {
        Some(j) => m.update(j, (key, f)),
        None => m.push((key, f)),
    }
}

proof fn lemma_find_from_found(m: Seq<(Position, usize)>, key: Position, k: int, j: int)
    requires
        0 <= k <= j < m.len(),
        m[j].0 == key,
        forall|i: int| k <= i < j ==> (#[trigger] m[i]).0 != key,
    ensures
        find_from(m, key, k) == Some(j),
    decreases j - k,
{
    if k < j {
        lemma_find_from_found(m, key, k + 1, j);
    }
}

proof fn lemma_find_from_none(m: Seq<(Position, usize)>, key: Position, k: int)
    requires
        0 <= k <= m.len(),
        forall|i: int| k <= i < m.len() ==> (#[trigger] m[i]).0 != key,
    ensures
        find_from(m, key, k) is None,
    decreases m.len() - k,
{
    if k < m.len() {
        lemma_find_from_none(m, key, k + 1);
    }
}

fn same_position(a: Position, b: Position) -> (r: bool)
    ensures
        r == (a == b),
{
    a.0 == b.0 && a.1 == b.1
}

/// The fragment filed under `key`, if any.
fn lookup(m: &Vec<(Position, usize)>, key: Position) -> (r: Option<usize>)
    ensures
        r matches Some(f) ==> exists|k: int| 0 <= k < m@.len() && #[trigger] m@[k] == (key, f),
        r == map_get(m@, key),
{
    let mut k: usize = 0;
    while k < m.len()
        invariant
            k <= m@.len(),
            forall|i: int| 0 <= i < k ==> (#[trigger] m@[i]).0 != key,
        decreases m@.len() - k,
    {
        if same_position(m[k].0, key) {
            assert(m@[k as int] == (key, m@[k as int].1));
            proof { lemma_find_from_found(m@, key, 0, k as int); }
            return Some(m[k].1);
        }
        k = k + 1;
    }
    proof { lemma_find_from_none(m@, key, 0); }
    None
}

/// Removes the entry filed under `key`, keeping the order of the others.
fn remove_key(m: &mut Vec<(Position, usize)>, key: Position)
    ensures
        forall|k: int| 0 <= k < final(m)@.len() ==> old(m)@.contains(#[trigger] final(m)@[k]),
        final(m)@ == map_remove(old(m)@, key),
{
    let mut k: usize = 0;
    while k < m.len()
        invariant
            k <= m@.len(),
            m@ == old(m)@,
            forall|i: int| 0 <= i < k ==> (#[trigger] m@[i]).0 != key,
        decreases m@.len() - k,
    {
        if same_position(m[k].0, key) {
            proof { lemma_find_from_found(m@, key, 0, k as int); }
            m.remove(k);
            assert forall|j: int| 0 <= j < m@.len() implies old(m)@.contains(#[trigger] m@[j]) by {
                if j < k {
                    assert(old(m)@[j] == m@[j]);
                } else {
                    assert(old(m)@[j + 1] == m@[j]);
                }
            }
            return;
        }
        k = k + 1;
    }
    proof { lemma_find_from_none(m@, key, 0); }
    assert forall|j: int| 0 <= j < m@.len() implies old(m)@.contains(#[trigger] m@[j]) by {
        assert(old(m)@[j] == m@[j]);
    }
}

/// Files fragment `f` under `key`: in place of an entry with that key, or
/// as a new last entry.
fn install(m: &mut Vec<(Position, usize)>, key: Position, f: usize)
    ensures
        forall|k: int| 0 <= k < final(m)@.len() ==>
            old(m)@.contains(#[trigger] final(m)@[k]) || final(m)@[k] == (key, f),
        final(m)@ == map_install(old(m)@, key, f),
{
    let mut k: usize = 0;
    while k < m.len()
        invariant
            k <= m@.len(),
            m@ == old(m)@,
            forall|i: int| 0 <= i < k ==> (#[trigger] m@[i]).0 != key,
        decreases m@.len() - k,
    {
        if same_position(m[k].0, key) {
            proof { lemma_find_from_found(m@, key, 0, k as int); }
            m.set(k, (key, f));
            assert forall|j: int| 0 <= j < m@.len() implies
                old(m)@.contains(#[trigger] m@[j]) || m@[j] == (key, f) by {
                if j != k {
                    assert(old(m)@[j] == m@[j]);
                }
            }
            return;
        }
        k = k + 1;
    }
    proof { lemma_find_from_none(m@, key, 0); }
    m.push((key, f));
    assert forall|j: int| 0 <= j < m@.len() implies
        old(m)@.contains(#[trigger] m@[j]) || m@[j] == (key, f) by {
        if j < old(m)@.len() {
            assert(old(m)@[j] == m@[j]);
        }
    }
}

/// A copy of an arc list.
pub(crate) fn copy_path(a: &Vec<i32>) -> (r: Vec<i32>)
    ensures
        r@ == a@,
{
    let mut r: Vec<i32> = Vec::new();
    let mut k: usize = 0;
    while k < a.len()
        invariant
            k <= a@.len(),
            r@ == a@.take(k as int),
        decreases a@.len() - k,
    {
        r.push(a[k]);
        k = k + 1;
        assert(r@ =~= a@.take(k as int));
    }
    assert(a@.take(k as int) =~= a@);
    r
}

/// A copy of a list of indices.
pub(crate) fn copy_indices(a: &Vec<usize>) -> (r: Vec<usize>)
    ensures
        r@ == a@,
{
    let mut r: Vec<usize> = Vec::new();
    let mut k: usize = 0;
    while k < a.len()
        invariant
            k <= a@.len(),
            r@ == a@.take(k as int),
        decreases a@.len() - k,
    {
        r.push(a[k]);
        k = k + 1;
        assert(r@ =~= a@.take(k as int));
    }
    assert(a@.take(k as int) =~= a@);
    r
}

/// A copy of `a` followed by a copy of `b`.
fn concat(a: &Vec<i32>, b: &Vec<i32>) -> (r: Vec<i32>)
    ensures
        r@ == a@ + b@,
{
    let mut r: Vec<i32> = Vec::new();
    let mut k: usize = 0;
    while k < a.len()
        invariant
            k <= a@.len(),
            r@ == a@.take(k as int),
        decreases a@.len() - k,
    {
        r.push(a[k]);
        k = k + 1;
        assert(r@ =~= a@.take(k as int));
    }
    let mut j: usize = 0;
    while j < b.len()
        invariant
            j <= b@.len(),
            r@ == a@ + b@.take(j as int),
        decreases b@.len() - j,
    {
        r.push(b[j]);
        j = j + 1;
        assert(r@ =~= a@ + b@.take(j as int));
    }
    assert(b@.take(j as int) =~= b@);
    r
}

/// The arcs among the first `k` of `s` that are empty arcs (or, with
/// `empty` false, that are not), in order.
pub open spec fn pick(arcs: Seq<Seq<Stored>>, s: Seq<i32>, empty: bool, k: int) -> Seq<i32>
    decreases k,
{
    if k <= 0 || k > s.len() {
        Seq::empty()
    } else if is_empty_arc(arcs[canonical(s[k - 1])]) == empty {
        pick(arcs, s, empty, k - 1).push(s[k - 1])
    } else {
        pick(arcs, s, empty, k - 1)
    }
}

/// The order in which the arcs are chained: empty arcs first.
pub open spec fn chain_order(arcs: Seq<Seq<Stored>>, s: Seq<i32>) -> Seq<i32> {
    pick(arcs, s, true, s.len() as int) + pick(arcs, s, false, s.len() as int)
}

/// A fragment as seen by the chaining: start, end, and arcs.
pub type FragView = (Position, Position, Seq<i32>);

/// The state of the chaining: every fragment built so far (those that grew
/// into others stay, unreferenced), and the fragments filed by start and by
/// end, in the order their keys were filed.
pub type ChainState = (Seq<FragView>, Seq<(Position, usize)>, Seq<(Position, usize)>);

/// The chaining state after arc `i`: it extends the fragment ending where it
/// starts (then joins the fragment starting where it now ends), or else is
/// put in front of the fragment starting where it ends, or else starts a
/// fragment of its own. The fragment built is filed under its start and end.
pub open spec fn chain_step(arcs: Seq<Seq<Stored>>, delta: bool, st: ChainState, i: i32) -> ChainState {
    let (frags, bs, be) = st;
    let s = start_of(arcs, delta, i);
    let e = end_of(arcs, delta, i);
    let fresh = frags.len() as usize;
    match map_get(be, s) {
        Some(fi) => {
            let be1 = map_remove(be, s);
            let f = frags[fi as int];
            let grown = f.2.push(i);
            match map_get(bs, e) {
                Some(gi) => {
                    let bs1 = map_remove(bs, e);
                    let nf = if gi == fi {
                        (f.0, e, grown)
                    } else {
                        (f.0, frags[gi as int].1, grown + frags[gi as int].2)
                    };
                    (frags.push(nf), map_install(bs1, nf.0, fresh), map_install(be1, nf.1, fresh))
                },
                None => {
                    let nf = (f.0, e, grown);
                    (frags.push(nf), map_install(bs, nf.0, fresh), map_install(be1, nf.1, fresh))
                },
            }
        },
        None => match map_get(bs, e) {
            Some(fi) => {
                let bs1 = map_remove(bs, e);
                let f = frags[fi as int];
                let nf = (s, f.1, seq![i] + f.2);
                (frags.push(nf), map_install(bs1, nf.0, fresh), map_install(be, nf.1, fresh))
            },
            None => {
                let nf = (s, e, seq![i]);
                (frags.push(nf), map_install(bs, s, fresh), map_install(be, e, fresh))
            },
        },
    }
}

/// The chaining state after the first `k` arcs of `order`.
pub open spec fn chain_run(arcs: Seq<Seq<Stored>>, delta: bool, order: Seq<i32>, k: int) -> ChainState
    decreases k,
{
    if k <= 0 || k > order.len() {
        (Seq::empty(), Seq::empty(), Seq::empty())
    } else {
        chain_step(arcs, delta, chain_run(arcs, delta, order, k - 1), order[k - 1])
    }
}

spec fn frag_views(frags: Seq<Fragment>) -> Seq<FragView> {
    frags.map_values(|f: Fragment| (f.start, f.end, f.arcs@))
}

/// The arcs of the fragments filed under the first `k` entries of `be`.
pub open spec fn flush_end(frags: Seq<FragView>, be: Seq<(Position, usize)>, k: int) -> Seq<Seq<i32>>
    decreases k,
{
    if k <= 0 || k > be.len() {
        Seq::empty()
    } else {
        flush_end(frags, be, k - 1).push(frags[be[k - 1].1 as int].2)
    }
}

/// The starts of the fragments filed under the entries of `be`.
pub open spec fn starts_of(frags: Seq<FragView>, be: Seq<(Position, usize)>) -> Seq<Position> {
    Seq::new(be.len(), |j: int| frags[be[j].1 as int].0)
}

/// The arcs of the fragments filed under the first `k` entries of `bs`
/// whose key is not in `ban`.
pub open spec fn flush_start(frags: Seq<FragView>, bs: Seq<(Position, usize)>, ban: Seq<Position>, k: int) -> Seq<Seq<i32>>
    decreases k,
{
    if k <= 0 || k > bs.len() {
        Seq::empty()
    } else if ban.contains(bs[k - 1].0) {
        flush_start(frags, bs, ban, k - 1)
    } else {
        flush_start(frags, bs, ban, k - 1).push(frags[bs[k - 1].1 as int].2)
    }
}

/// The paths a chaining state gives: every fragment filed under an end, then
/// every fragment filed under a start at which none of those starts.
pub open spec fn emitted(st: ChainState) -> Seq<Seq<i32>> {
    let (frags, bs, be) = st;
    flush_end(frags, be, be.len() as int) + flush_start(frags, bs, starts_of(frags, be), bs.len() as int)
}

/// Some path of `chains` holds an arc whose canonical index is `c`.
pub open spec fn names_seq(chains: Seq<Seq<i32>>, c: int) -> bool {
    exists|p: int, q: int| 0 <= p < chains.len() && 0 <= q < chains[p].len() && canonical(#[trigger] chains[p][q]) == c
}

/// A path of its own for each of the first `k` arcs of `order` whose arc no
/// path of `em` holds.
pub open spec fn singles(order: Seq<i32>, em: Seq<Seq<i32>>, k: int) -> Seq<Seq<i32>>
    decreases k,
{
    if k <= 0 || k > order.len() {
        Seq::empty()
    } else if names_seq(em, canonical(order[k - 1])) {
        singles(order, em, k - 1)
    } else {
        singles(order, em, k - 1).push(seq![order[k - 1]])
    }
}

/// The paths into which `input` is chained.
pub open spec fn stitch_paths(arcs: Seq<Seq<Stored>>, delta: bool, input: Seq<i32>) -> Seq<Seq<i32>> {
    let order = chain_order(arcs, input);
    let em = emitted(chain_run(arcs, delta, order, order.len() as int));
    em + singles(order, em, order.len() as int)
}

/// The arc lists of `out`, as sequences.
pub open spec fn chain_views(out: Seq<Vec<i32>>) -> Seq<Seq<i32>> {
    out.map_values(|v: Vec<i32>| v@)
}

proof fn lemma_covers_views(out: Seq<Vec<i32>>, c: int)
    ensures
        covers(out, c) == names_seq(chain_views(out), c),
{
    if covers(out, c) {
        let (p, q) = choose|p: int, q: int| 0 <= p < out.len() && 0 <= q < out[p]@.len() && canonical(#[trigger] out[p]@[q]) == c;
        assert(chain_views(out)[p][q] == out[p]@[q]);
    }
    if names_seq(chain_views(out), c) {
        let (p, q) = choose|p: int, q: int| 0 <= p < chain_views(out).len() && 0 <= q < chain_views(out)[p].len()
            && canonical(#[trigger] chain_views(out)[p][q]) == c;
        assert(chain_views(out)[p][q] == out[p]@[q]);
    }
}

/// Appends `chain` to `out` and marks its arcs in `stitched`.
fn emit_chain(out: &mut Vec<Vec<i32>>, stitched: &mut Vec<bool>, chain: Vec<i32>)
    requires
        forall|q: int| 0 <= q < chain@.len() ==> canonical(#[trigger] chain@[q]) < old(stitched)@.len(),
    ensures
        final(out)@ == old(out)@.push(chain),
        final(stitched)@.len() == old(stitched)@.len(),
        forall|c: int| 0 <= c < old(stitched)@.len() ==> #[trigger] final(stitched)@[c]
            == (old(stitched)@[c] || exists|q: int| 0 <= q < chain@.len() && canonical(#[trigger] chain@[q]) == c),
{
    let mut q: usize = 0;
    while q < chain.len()
        invariant
            forall|q: int| 0 <= q < chain@.len() ==> canonical(#[trigger] chain@[q]) < old(stitched)@.len(),
            q <= chain@.len(),
            stitched@.len() == old(stitched)@.len(),
            forall|c: int| 0 <= c < old(stitched)@.len() ==> #[trigger] stitched@[c]
                == (old(stitched)@[c] || exists|r: int| 0 <= r < q && canonical(#[trigger] chain@[r]) == c),
        decreases chain@.len() - q,
    {
        let c = crate::feature::arc_slot(chain[q]);
        let ghost before = stitched@;
        stitched.set(c, true);
        proof {
            assert forall|cc: int| 0 <= cc < old(stitched)@.len() implies #[trigger] stitched@[cc]
                == (old(stitched)@[cc] || exists|r: int| 0 <= r < q + 1 && canonical(#[trigger] chain@[r]) == cc) by {
                if cc == c {
                    assert(canonical(chain@[q as int]) == cc);
                } else {
                    assert(stitched@[cc] == before[cc]);
                    if exists|r: int| 0 <= r < q + 1 && canonical(#[trigger] chain@[r]) == cc {
                        let r = choose|r: int| 0 <= r < q + 1 && canonical(#[trigger] chain@[r]) == cc;
                        assert(r < q);
                    }
                }
            }
        }
        q = q + 1;
    }
    out.push(chain);
}

/// Appending a fragment's arcs keeps the paths sound and the marks in step
/// with what the paths hold.
proof fn lemma_emit_keeps(
    arcs: Seq<Seq<Stored>>,
    delta: bool,
    input: Seq<i32>,
    old_out: Seq<Vec<i32>>,
    out: Seq<Vec<i32>>,
    chain: Seq<i32>,
    n: int,
)
    requires
        chains_sound(arcs, delta, input, old_out),
        out.len() == old_out.len() + 1,
        forall|p: int| 0 <= p < old_out.len() ==> out[p] == old_out[p],
        out[old_out.len() as int]@ == chain,
        chain.len() >= 1,
        chained(arcs, delta, chain),
        forall|q: int| 0 <= q < chain.len() ==> input.contains(#[trigger] chain[q]),
    ensures
        chains_sound(arcs, delta, input, out),
        forall|c: int| #[trigger] covers(out, c) == (covers(old_out, c)
            || exists|q: int| 0 <= q < chain.len() && canonical(#[trigger] chain[q]) == c),
{
    assert forall|pp: int| 0 <= pp < out.len() implies {
        &&& (#[trigger] out[pp])@.len() >= 1
        &&& chained(arcs, delta, out[pp]@)
        &&& forall|q: int| 0 <= q < out[pp]@.len() ==> input.contains(#[trigger] out[pp]@[q])
    } by {
        if pp < old_out.len() {
            assert(out[pp] == old_out[pp]);
        }
    }
    assert forall|c: int| #[trigger] covers(out, c) == (covers(old_out, c)
        || exists|q: int| 0 <= q < chain.len() && canonical(#[trigger] chain[q]) == c) by {
        if covers(out, c) {
            let (p, q) = choose|p: int, q: int| 0 <= p < out.len() && 0 <= q < out[p]@.len() && canonical(#[trigger] out[p]@[q]) == c;
            if p < old_out.len() {
                assert(old_out[p]@[q] == out[p]@[q]);
            } else {
                assert(chain[q] == out[p]@[q]);
            }
        }
        if covers(old_out, c) {
            let (p, q) = choose|p: int, q: int| 0 <= p < old_out.len() && 0 <= q < old_out[p]@.len() && canonical(#[trigger] old_out[p]@[q]) == c;
            assert(out[p] == old_out[p]);
        }
        if exists|q: int| 0 <= q < chain.len() && canonical(#[trigger] chain[q]) == c {
            let q = choose|q: int| 0 <= q < chain.len() && canonical(#[trigger] chain[q]) == c;
            assert(out[old_out.len() as int]@[q] == chain[q]);
        }
    }
}

proof fn lemma_chained_concat(arcs: Seq<Seq<Stored>>, delta: bool, a: Seq<i32>, b: Seq<i32>)
    requires
        a.len() >= 1,
        b.len() >= 1,
        chained(arcs, delta, a),
        chained(arcs, delta, b),
        end_of(arcs, delta, a.last()) == start_of(arcs, delta, b[0]),
    ensures
        chained(arcs, delta, a + b),
{
    let c = a + b;
    assert forall|k: int| 0 <= k < c.len() - 1 implies end_of(arcs, delta, #[trigger] c[k]) == start_of(arcs, delta, c[k + 1]) by {
        if k < a.len() - 1 {
            assert(c[k] == a[k] && c[k + 1] == a[k + 1]);
        } else if k == a.len() - 1 {
            assert(c[k] == a.last() && c[k + 1] == b[0]);
        } else {
            assert(c[k] == b[k - a.len()] && c[k + 1] == b[k - a.len() + 1]);
        }
    }
}

impl<P, M> TopoJSON<P, M> {
    /// The first and last positions of the signed arc `i`, in the stored grid.
    fn ends(&self, i: i32) -> (r: (Position, Position))
        requires
            self.arcs_wf(),
            canonical(i) < self.arcs@.len(),
        ensures
            r.0 == start_of(self.arc_seqs(), self.delta_encoded, i),
            r.1 == end_of(self.arc_seqs(), self.delta_encoded, i),
    {
        let c = crate::feature::arc_slot(i);
        assert(self.arc_seqs()[c as int] == self.arcs@[c as int]@);
        let d = decode_arc(&self.arcs[c], self.delta_encoded);
        let p0 = d[0];
        let p1 = d[d.len() - 1];
        if i < 0 {
            (p1, p0)
        } else {
            (p0, p1)
        }
    }

    /// Whether the arc that `i` names is an empty arc.
    fn names_empty_arc(&self, i: i32) -> (r: bool)
        requires
            canonical(i) < self.arcs@.len(),
        ensures
            r == is_empty_arc(self.arcs@[canonical(i)]@),
    {
        let a = &self.arcs[crate::feature::arc_slot(i)];
        a.len() == 2 && a[1].0 == 0 && a[1].1 == 0
    }

    /// Chains the arcs `input` end to end into maximal paths, matching ends
    /// in the stored grid. Empty arcs go first, so that longer arcs can take
    /// them in; an arc that ends up in no path is given one of its own.
    pub fn stitch(&self, input: &Vec<i32>) -> (out: Vec<Vec<i32>>)
        requires
            self.arcs_wf(),
            indices_valid(input@, self.arcs@.len() as int),
        ensures
            chains_sound(self.arc_seqs(), self.delta_encoded, input@, out@),
            forall|k: int| 0 <= k < input@.len() ==> covers(out@, canonical(#[trigger] input@[k])),
            chain_views(out@) == stitch_paths(self.arc_seqs(), self.delta_encoded, input@),
    {
        let ghost arcs = self.arc_seqs();
        let ghost delta = self.delta_encoded;
        let ghost n = self.arcs@.len() as int;
        // Empty arcs first, each group in input order.
        let mut ordered: Vec<i32> = Vec::new();
        let mut k: usize = 0;
        while k < input.len()
            invariant
                indices_valid(input@, n),
                n == self.arcs@.len(),
                k <= input@.len(),
                forall|j: int| 0 <= j < ordered@.len() ==> input@.contains(#[trigger] ordered@[j]),
                forall|j: int| 0 <= j < k && is_empty_arc(self.arcs@[canonical(input@[j])]@)
                    ==> ordered@.contains(#[trigger] input@[j]),
                arcs == self.arc_seqs(),
                ordered@ == pick(arcs, input@, true, k as int),
            decreases input@.len() - k,
        {
            assert(canonical(input@[k as int]) < n);
            assert(arcs[canonical(input@[k as int])] == self.arcs@[canonical(input@[k as int])]@);
            let ghost before = ordered@;
            if self.names_empty_arc(input[k]) {
                ordered.push(input[k]);
                assert(ordered@.last() == input@[k as int]);
            }
            assert forall|x: i32| before.contains(x) implies ordered@.contains(x) by {
                let w = choose|w: int| 0 <= w < before.len() && before[w] == x;
                assert(ordered@[w] == x);
            }
            assert(input@.contains(input@[k as int]));
            k = k + 1;
        }
        assert(pick(arcs, input@, false, 0) =~= Seq::<i32>::empty());
        assert(ordered@ =~= pick(arcs, input@, true, input@.len() as int) + pick(arcs, input@, false, 0));
        let mut k: usize = 0;
        while k < input.len()
            invariant
                indices_valid(input@, n),
                n == self.arcs@.len(),
                k <= input@.len(),
                forall|j: int| 0 <= j < ordered@.len() ==> input@.contains(#[trigger] ordered@[j]),
                forall|j: int| 0 <= j < input@.len() && is_empty_arc(self.arcs@[canonical(input@[j])]@)
                    ==> ordered@.contains(#[trigger] input@[j]),
                forall|j: int| 0 <= j < k ==> ordered@.contains(#[trigger] input@[j]),
                arcs == self.arc_seqs(),
                ordered@ == pick(arcs, input@, true, input@.len() as int) + pick(arcs, input@, false, k as int),
            decreases input@.len() - k,
        {
            assert(canonical(input@[k as int]) < n);
            assert(arcs[canonical(input@[k as int])] == self.arcs@[canonical(input@[k as int])]@);
            let ghost before = ordered@;
            if !self.names_empty_arc(input[k]) {
                ordered.push(input[k]);
                assert(ordered@.last() == input@[k as int]);
            }
            assert forall|x: i32| before.contains(x) implies ordered@.contains(x) by {
                let w = choose|w: int| 0 <= w < before.len() && before[w] == x;
                assert(ordered@[w] == x);
            }
            assert(input@.contains(input@[k as int]));
            k = k + 1;
        }
        assert(indices_valid(ordered@, n)) by {
            assert forall|j: int| 0 <= j < ordered@.len() implies canonical(#[trigger] ordered@[j]) < n by {
                let w = choose|w: int| 0 <= w < input@.len() && input@[w] == ordered@[j];
                assert(canonical(input@[w]) < n);
            }
        }
        assert(ordered@ == chain_order(arcs, input@));

        let mut frags: Vec<Fragment> = Vec::new();
        let mut by_start: Vec<(Position, usize)> = Vec::new();
        let mut by_end: Vec<(Position, usize)> = Vec::new();
        let mut k: usize = 0;
        while k < ordered.len()
            invariant
                self.arcs_wf(),
                arcs == self.arc_seqs(),
                delta == self.delta_encoded,
                n == self.arcs@.len(),
                indices_valid(ordered@, n),
                forall|j: int| 0 <= j < ordered@.len() ==> input@.contains(#[trigger] ordered@[j]),
                k <= ordered@.len(),
                forall|j: int| 0 <= j < frags@.len() ==> fragment_ok(arcs, delta, input@, #[trigger] frags@[j]),
                index_ok(by_start@, frags@, true),
                index_ok(by_end@, frags@, false),
                (frag_views(frags@), by_start@, by_end@) == chain_run(arcs, delta, ordered@, k as int),
            decreases ordered@.len() - k,
        {
            let i = ordered[k];
            assert(canonical(ordered@[k as int]) < n);
            assert(input@.contains(ordered@[k as int]));
            let (s, e) = self.ends(i);
            let ghost old_frags = frags@;
            let ghost old_start = by_start@;
            let ghost old_end = by_end@;
            let fresh = frags.len();
            let mut built = false;
            match lookup(&by_end, s) {
                Some(fi) => {
                    assert(frags@[fi as int].end == s);
                    remove_key(&mut by_end, s);
                    let mut grown = concat(&frags[fi].arcs, &Vec::new());
                    grown.push(i);
                    let fstart = frags[fi].start;
                    proof {
                        let fa = frags@[fi as int].arcs@;
                        assert(fragment_ok(arcs, delta, input@, frags@[fi as int]));
                        assert(seq![i].last() == i);
                        assert(fa + Seq::<i32>::empty() =~= fa);
                        lemma_chained_concat(arcs, delta, fa, seq![i]);
                        assert(fa.push(i) =~= fa + seq![i]);
                        assert(grown@ == fa.push(i));
                        assert(grown@[0] == fa[0]);
                        assert forall|q: int| 0 <= q < grown@.len() implies input@.contains(#[trigger] grown@[q]) by {
                            if q < fa.len() {
                                assert(grown@[q] == fa[q]);
                            }
                        }
                    }
                    match lookup(&by_start, e) {
                        Some(gi) => {
                            assert(frags@[gi as int].start == e);
                            remove_key(&mut by_start, e);
                            if gi == fi {
                                frags.push(Fragment { start: fstart, end: e, arcs: grown });
                            } else {
                                let joined = concat(&grown, &frags[gi].arcs);
                                let gend = frags[gi].end;
                                proof {
                                    let ga = frags@[gi as int].arcs@;
                                    assert(fragment_ok(arcs, delta, input@, frags@[gi as int]));
                                    lemma_chained_concat(arcs, delta, grown@, ga);
                                    assert(joined@[0] == grown@[0]);
                                    assert(joined@.last() == ga.last());
                                    assert forall|q: int| 0 <= q < joined@.len() implies input@.contains(#[trigger] joined@[q]) by {
                                        if q < grown@.len() {
                                            assert(joined@[q] == grown@[q]);
                                        } else {
                                            assert(joined@[q] == ga[q - grown@.len()]);
                                        }
                                    }
                                }
                                frags.push(Fragment { start: fstart, end: gend, arcs: joined });
                            }
                        },
                        None => {
                            frags.push(Fragment { start: fstart, end: e, arcs: grown });
                        },
                    }
                    built = true;
                },
                None => {},
            }
            if !built {
                match lookup(&by_start, e) {
                    Some(fi) => {
                        assert(frags@[fi as int].start == e);
                        remove_key(&mut by_start, e);
                        let single = vec![i];
                        let grown = concat(&single, &frags[fi].arcs);
                        let fend = frags[fi].end;
                        proof {
                            let fa = frags@[fi as int].arcs@;
                            assert(fragment_ok(arcs, delta, input@, frags@[fi as int]));
                            assert(single@ == seq![i]);
                            assert(seq![i].last() == i);
                            lemma_chained_concat(arcs, delta, seq![i], fa);
                            assert(grown@[0] == i);
                            assert(grown@.last() == fa.last());
                            assert forall|q: int| 0 <= q < grown@.len() implies input@.contains(#[trigger] grown@[q]) by {
                                if q >= 1 {
                                    assert(grown@[q] == fa[q - 1]);
                                }
                            }
                        }
                        frags.push(Fragment { start: s, end: fend, arcs: grown });
                    },
                    None => {
                        let single = vec![i];
                        proof {
                            assert(single@ == seq![i]);
                            assert(single@.last() == i);
                        }
                        frags.push(Fragment { start: s, end: e, arcs: single });
                    },
                }
            }
            proof {
                assert(frags@.len() == old_frags.len() + 1);
                assert forall|j: int| 0 <= j < frags@.len() implies fragment_ok(arcs, delta, input@, #[trigger] frags@[j]) by {
                    if j < old_frags.len() {
                        assert(frags@[j] == old_frags[j]);
                    }
                }
            }
            let fs = frags[fresh].start;
            let fe = frags[fresh].end;
            assert forall|j: int| 0 <= j < by_start@.len() implies (#[trigger] by_start@[j]).1 < frags@.len()
                && frags@[by_start@[j].1 as int].start == by_start@[j].0 by {
                let w = choose|w: int| 0 <= w < old_start.len() && old_start[w] == by_start@[j];
                assert(frags@[old_start[w].1 as int] == old_frags[old_start[w].1 as int]);
            }
            assert forall|j: int| 0 <= j < by_end@.len() implies (#[trigger] by_end@[j]).1 < frags@.len()
                && frags@[by_end@[j].1 as int].end == by_end@[j].0 by {
                let w = choose|w: int| 0 <= w < old_end.len() && old_end[w] == by_end@[j];
                assert(frags@[old_end[w].1 as int] == old_frags[old_end[w].1 as int]);
            }
            install(&mut by_start, fs, fresh);
            install(&mut by_end, fe, fresh);
            proof {
                assert(frag_views(frags@) =~= frag_views(old_frags).push((fs, fe, frags@[fresh as int].arcs@)));
            }
            k = k + 1;
        }

        // Every fragment still filed under its end, then those filed under a
        // start that no fragment emitted so far started at.
        let ghost st = chain_run(arcs, delta, ordered@, ordered@.len() as int);
        let ghost fv = st.0;
        assert(frag_views(frags@) == fv && by_start@ == st.1 && by_end@ == st.2);
        let mut out: Vec<Vec<i32>> = Vec::new();
        let mut stitched: Vec<bool> = Vec::new();
        let mut c: usize = 0;
        while c < self.arcs.len()
            invariant
                stitched@.len() == c,
                c <= self.arcs@.len(),
                forall|j: int| 0 <= j < c ==> !(#[trigger] stitched@[j]),
            decreases self.arcs@.len() - c,
        {
            stitched.push(false);
            c = c + 1;
        }
        let mut banned: Vec<Position> = Vec::new();
        let mut k: usize = 0;
        while k < by_end.len()
            invariant
                self.arcs_wf(),
                arcs == self.arc_seqs(),
                delta == self.delta_encoded,
                n == self.arcs@.len(),
                indices_valid(input@, n),
                forall|j: int| 0 <= j < frags@.len() ==> fragment_ok(arcs, delta, input@, #[trigger] frags@[j]),
                index_ok(by_end@, frags@, false),
                frag_views(frags@) == fv,
                by_end@ == st.2,
                k <= by_end@.len(),
                stitched@.len() == n,
                chains_sound(arcs, delta, input@, out@),
                forall|j: int| 0 <= j < n ==> #[trigger] stitched@[j] == covers(out@, j),
                chain_views(out@) == flush_end(fv, st.2, k as int),
                banned@ == starts_of(fv, st.2).take(k as int),
            decreases by_end@.len() - k,
        {
            let fi = by_end[k].1;
            assert(by_end@[k as int].1 < frags@.len());
            banned.push(frags[fi].start);
            let chain = concat(&frags[fi].arcs, &Vec::new());
            let ghost f = frags@[fi as int];
            let ghost old_out = out@;
            proof {
                assert(fragment_ok(arcs, delta, input@, f));
                assert(f.arcs@ + Seq::<i32>::empty() =~= f.arcs@);
                assert(fv[fi as int] == (f.start, f.end, f.arcs@));
                assert(banned@ =~= starts_of(fv, st.2).take(k + 1));
                assert forall|q: int| 0 <= q < chain@.len() implies canonical(#[trigger] chain@[q]) < stitched@.len() by {
                    assert(input@.contains(chain@[q]));
                    let w = choose|w: int| 0 <= w < input@.len() && input@[w] == chain@[q];
                    assert(canonical(input@[w]) < n);
                }
            }
            emit_chain(&mut out, &mut stitched, chain);
            proof {
                lemma_emit_keeps(arcs, delta, input@, old_out, out@, f.arcs@, n);
                assert(chain_views(out@) =~= chain_views(old_out).push(f.arcs@));
            }
            k = k + 1;
        }
        let mut k: usize = 0;
        while k < by_start.len()
            invariant
                self.arcs_wf(),
                arcs == self.arc_seqs(),
                delta == self.delta_encoded,
                n == self.arcs@.len(),
                indices_valid(input@, n),
                forall|j: int| 0 <= j < frags@.len() ==> fragment_ok(arcs, delta, input@, #[trigger] frags@[j]),
                index_ok(by_start@, frags@, true),
                frag_views(frags@) == fv,
                by_start@ == st.1,
                k <= by_start@.len(),
                stitched@.len() == n,
                chains_sound(arcs, delta, input@, out@),
                forall|j: int| 0 <= j < n ==> #[trigger] stitched@[j] == covers(out@, j),
                chain_views(out@) == flush_end(fv, st.2, st.2.len() as int) + flush_start(fv, st.1, banned@, k as int),
                banned@ == starts_of(fv, st.2),
            decreases by_start@.len() - k,
        {
            let (key, fi) = by_start[k];
            assert(by_start@[k as int].1 < frags@.len());
            let mut emit = true;
            let mut b: usize = 0;
            while b < banned.len()
                invariant
                    b <= banned@.len(),
                    emit == !(exists|j: int| 0 <= j < b && banned@[j] == key),
                decreases banned@.len() - b,
            {
                if same_position(banned[b], key) {
                    emit = false;
                }
                b = b + 1;
            }
            let ghost old_views = chain_views(out@);
            if emit {
                let chain = concat(&frags[fi].arcs, &Vec::new());
                let ghost f = frags@[fi as int];
                let ghost old_out = out@;
                proof {
                    assert(fragment_ok(arcs, delta, input@, f));
                    assert(f.arcs@ + Seq::<i32>::empty() =~= f.arcs@);
                    assert(fv[fi as int] == (f.start, f.end, f.arcs@));
                    assert forall|q: int| 0 <= q < chain@.len() implies canonical(#[trigger] chain@[q]) < stitched@.len() by {
                        assert(input@.contains(chain@[q]));
                        let w = choose|w: int| 0 <= w < input@.len() && input@[w] == chain@[q];
                        assert(canonical(input@[w]) < n);
                    }
                    assert(!banned@.contains(key));
                }
                emit_chain(&mut out, &mut stitched, chain);
                proof {
                    lemma_emit_keeps(arcs, delta, input@, old_out, out@, f.arcs@, n);
                    assert(chain_views(out@) =~= chain_views(old_out).push(f.arcs@));
                }
            } else {
                proof {
                    let j = choose|j: int| 0 <= j < banned@.len() && banned@[j] == key;
                    assert(banned@.contains(key));
                }
            }
            k = k + 1;
        }
        assert(chain_views(out@) == emitted(st));
        let ghost em = chain_views(out@);
        let ghost flushed = out@;

        // Arcs that ended up in no emitted path stand alone.
        let mut k: usize = 0;
        while k < ordered.len()
            invariant
                n == self.arcs@.len(),
                indices_valid(ordered@, n),
                forall|j: int| 0 <= j < ordered@.len() ==> input@.contains(#[trigger] ordered@[j]),
                k <= ordered@.len(),
                stitched@.len() == n,
                chains_sound(arcs, delta, input@, out@),
                forall|j: int| 0 <= j < n ==> #[trigger] stitched@[j] == covers(flushed, j),
                forall|j: int| 0 <= j < n && #[trigger] stitched@[j] ==> covers(out@, j),
                forall|j: int| 0 <= j < k ==> covers(out@, canonical(#[trigger] ordered@[j])),
                chain_views(out@) == em + singles(ordered@, em, k as int),
                em == chain_views(flushed),
            decreases ordered@.len() - k,
        {
            let i = ordered[k];
            assert(canonical(ordered@[k as int]) < n);
            let c = crate::feature::arc_slot(i);
            proof {
                lemma_covers_views(flushed, c as int);
            }
            if !stitched[c] {
                let ghost old_out = out@;
                let single = vec![i];
                assert(single@ == seq![i]);
                assert(input@.contains(ordered@[k as int]));
                out.push(single);
                proof {
                    assert(chain_views(out@) =~= chain_views(old_out).push(seq![i]));
                    assert(covers(out@, canonical(i))) by {
                        assert(out@[old_out.len() as int]@[0] == i);
                    }
                    assert forall|j: int| 0 <= j < n && #[trigger] stitched@[j] implies covers(out@, j) by {
                        let (pp, qq) = choose|pp: int, qq: int| 0 <= pp < old_out.len() && 0 <= qq < old_out[pp]@.len()
                            && canonical(#[trigger] old_out[pp]@[qq]) == j;
                        assert(out@[pp] == old_out[pp]);
                    }
                    assert forall|j: int| 0 <= j < k implies covers(out@, canonical(#[trigger] ordered@[j])) by {
                        let (pp, qq) = choose|pp: int, qq: int| 0 <= pp < old_out.len() && 0 <= qq < old_out[pp]@.len()
                            && canonical(#[trigger] old_out[pp]@[qq]) == canonical(ordered@[j]);
                        assert(out@[pp] == old_out[pp]);
                    }
                    assert forall|pp: int| 0 <= pp < out@.len() implies {
                        &&& (#[trigger] out@[pp])@.len() >= 1
                        &&& chained(arcs, delta, out@[pp]@)
                        &&& forall|q: int| 0 <= q < out@[pp]@.len() ==> input@.contains(#[trigger] out@[pp]@[q])
                    } by {
                        if pp < old_out.len() {
                            assert(out@[pp] == old_out[pp]);
                        } else {
                            assert(out@[pp]@ == seq![i]);
                        }
                    }
                }
            } else {
                assert(covers(flushed, c as int));
                assert(covers(out@, canonical(i)));
            }
            k = k + 1;
        }
        assert forall|j: int| 0 <= j < input@.len() implies covers(out@, canonical(#[trigger] input@[j])) by {
            assert(ordered@.contains(input@[j]));
            let w = choose|w: int| 0 <= w < ordered@.len() && ordered@[w] == input@[j];
            assert(covers(out@, canonical(ordered@[w])));
        }
        out
    }
}

} // verus!
