//! Topology of the icosphere mesh: the icosahedron, subdivided `level`
//! times by splitting every triangle into four at its edge midpoints.
//! A vertex is either one of the 12 icosahedron corners or the midpoint of
//! two earlier vertices; positions are derived from that by the caller.
use vstd::prelude::*;
use crate::icosphere_count::lemma_icosphere_counts;

verus! {

/// How a vertex of the icosphere is obtained.
#[derive(Debug, Clone, Copy, PartialEq, Eq, Structural)]
pub enum IcoVertex {
    /// Corner `i` (`0..12`) of the icosahedron.
    Base(u32),
    /// Midpoint of the edge between two vertices, smaller index first.
    Midpoint(u32, u32),
}

/// The edge between `a` and `b`, smaller index first.
pub open spec fn norm_edge(a: u32, b: u32) -> (u32, u32) {
    if a <= b { (a, b) } else { (b, a) }
}

/// Corner `j` (`0..3`) of triangle `t`.
pub open spec fn corner(f: Seq<u32>, t: int, j: int) -> u32 {
    f[3 * t + j]
}

/// Edge `j` of triangle `t`: corners `j` and `j + 1` (cyclically).
pub open spec fn tri_edge(f: Seq<u32>, t: int, j: int) -> (u32, u32) {
    norm_edge(corner(f, t, j), corner(f, t, (j + 1) % 3))
}

/// The edges of the first `n` triangles.
pub open spec fn edges_upto(f: Seq<u32>, n: int) -> Set<(u32, u32)> {
    Set::new(|e: (u32, u32)| exists|t: int, j: int| 0 <= t < n && 0 <= j < 3 && #[trigger] tri_edge(f, t, j) == e)
}

/// The edges of all triangles.
pub open spec fn face_edges(f: Seq<u32>) -> Set<(u32, u32)> {
    edges_upto(f, (f.len() / 3) as int)
}

/// `x` is the vertex, created at or after `base`, that is the midpoint of `a` and `b`.
pub open spec fn is_mid_index(vs: Seq<IcoVertex>, base: int, x: u32, a: u32, b: u32) -> bool {
    let e = norm_edge(a, b);
    base <= x < vs.len() && vs[x as int] == IcoVertex::Midpoint(e.0, e.1)
}

/// The 12 entries that replace triangle `t` (corners `a, b, c`):
/// `(a, ab, ca)`, `(b, bc, ab)`, `(c, ca, bc)`, `(ab, bc, ca)`.
pub open spec fn subdivided_ok(vs: Seq<IcoVertex>, base: int, f: Seq<u32>, r: Seq<u32>, t: int) -> bool {
    let a = corner(f, t, 0);
    let b = corner(f, t, 1);
    let c = corner(f, t, 2);
    let o = 12 * t;
    &&& r[o] == a
    &&& is_mid_index(vs, base, r[o + 1], a, b)
    &&& is_mid_index(vs, base, r[o + 2], c, a)
    &&& r[o + 3] == b
    &&& is_mid_index(vs, base, r[o + 4], b, c)
    &&& is_mid_index(vs, base, r[o + 5], a, b)
    &&& r[o + 6] == c
    &&& is_mid_index(vs, base, r[o + 7], c, a)
    &&& is_mid_index(vs, base, r[o + 8], b, c)
    &&& is_mid_index(vs, base, r[o + 9], a, b)
    &&& is_mid_index(vs, base, r[o + 10], b, c)
    &&& is_mid_index(vs, base, r[o + 11], c, a)
}

/// The vertex halfway along edge `e`.
pub open spec fn midpoint_of(e: (u32, u32)) -> IcoVertex {
    IcoVertex::Midpoint(e.0, e.1)
}

/// The distinct edges of the first `m` edge slots, in order of first
/// appearance; slot `3 * t + j` holds edge `j` of triangle `t`.
pub open spec fn edge_order(f: Seq<u32>, m: int) -> Seq<(u32, u32)>
    decreases m,
{
    if m <= 0 {
        Seq::empty()
    } else {
        let prev = edge_order(f, m - 1);
        let e = tri_edge(f, (m - 1) / 3, (m - 1) % 3);
        if prev.contains(e) { prev } else { prev.push(e) }
    }
}

/// The vertices after one round: the old ones, then one midpoint per
/// distinct edge, in edge order.
pub open spec fn subdivided_vertices(vs: Seq<IcoVertex>, f: Seq<u32>) -> Seq<IcoVertex> {
    vs + edge_order(f, f.len() as int).map_values(|e: (u32, u32)| midpoint_of(e))
}

/// The index, after one round over `base` vertices, of the midpoint of `a`-`b`.
pub open spec fn mid_index(base: int, f: Seq<u32>, a: u32, b: u32) -> int {
    base + edge_order(f, f.len() as int).index_of(norm_edge(a, b))
}

/// Entry `q` (`0..12`) of the four triangles that replace triangle `t`.
pub open spec fn subdivided_entry(base: int, f: Seq<u32>, t: int, q: int) -> u32 {
    let a = corner(f, t, 0);
    let b = corner(f, t, 1);
    let c = corner(f, t, 2);
    let ab = mid_index(base, f, a, b) as u32;
    let bc = mid_index(base, f, b, c) as u32;
    let ca = mid_index(base, f, c, a) as u32;
    if q == 0 { a } else if q == 1 { ab } else if q == 2 { ca } else if q == 3 { b } else if q == 4 { bc } else if q == 5 {
        ab
    } else if q == 6 { c } else if q == 7 { ca } else if q == 8 { bc } else if q == 9 { ab } else if q == 10 { bc } else {
        ca
    }
}

/// The triangles after one round over `base` vertices.
pub open spec fn subdivided_faces(base: int, f: Seq<u32>) -> Seq<u32> {
    Seq::new(4 * f.len(), |k: int| subdivided_entry(base, f, k / 12, k % 12))
}

pub(crate) proof fn lemma_edge_order(f: Seq<u32>, m: int)
    requires
        0 <= m,
    ensures
        edge_order(f, m).no_duplicates(),
        forall|e: (u32, u32)| #[trigger] edge_order(f, m).contains(e) <==> exists|s: int| 0 <= s < m && #[trigger] tri_edge(f, s / 3, s % 3) == e,
    decreases m,
{
    if m > 0 {
        lemma_edge_order(f, m - 1);
        let prev = edge_order(f, m - 1);
        let e = tri_edge(f, (m - 1) / 3, (m - 1) % 3);
        if !prev.contains(e) {
            let cur = prev.push(e);
            assert forall|a: int, b: int| 0 <= a < b < cur.len() implies cur[a] != cur[b] by {
                if b == prev.len() {
                    assert(prev.contains(prev[a]));
                }
            }
        }
        assert forall|x: (u32, u32)| #[trigger] edge_order(f, m).contains(x) <==> exists|s: int| 0 <= s < m && #[trigger] tri_edge(f, s / 3, s % 3) == x by {
            if edge_order(f, m).contains(x) && !prev.contains(x) {
                assert(x == e);
                assert(tri_edge(f, (m - 1) / 3, (m - 1) % 3) == x);
            }
            if exists|s: int| 0 <= s < m && #[trigger] tri_edge(f, s / 3, s % 3) == x {
                let s = choose|s: int| 0 <= s < m && #[trigger] tri_edge(f, s / 3, s % 3) == x;
                if s < m - 1 {
                    assert(prev.contains(x));
                    if !prev.contains(e) {
                        let w = choose|w: int| 0 <= w < prev.len() && prev[w] == x;
                        assert(prev.push(e)[w] == x);
                    }
                } else if !prev.contains(e) {
                    assert(prev.push(e)[prev.len() as int] == x);
                }
            }
        }
    }
}

/// The edge order of the first `t` triangles lists exactly their edges.
pub(crate) proof fn lemma_edge_order_set(f: Seq<u32>, t: int)
    requires
        0 <= t,
    ensures
        edge_order(f, 3 * t).to_set() == edges_upto(f, t),
        edge_order(f, 3 * t).no_duplicates(),
{
    lemma_edge_order(f, 3 * t);
    assert forall|e: (u32, u32)| #[trigger] edge_order(f, 3 * t).to_set().contains(e) <==> edges_upto(f, t).contains(e) by {
        if edge_order(f, 3 * t).contains(e) {
            let s = choose|s: int| 0 <= s < 3 * t && #[trigger] tri_edge(f, s / 3, s % 3) == e;
            assert(0 <= s / 3 < t && 0 <= s % 3 < 3);
        }
        if edges_upto(f, t).contains(e) {
            let (u, j) = choose|u: int, j: int| 0 <= u < t && 0 <= j < 3 && #[trigger] tri_edge(f, u, j) == e;
            let s = 3 * u + j;
            assert(s / 3 == u && s % 3 == j);
            assert(tri_edge(f, s / 3, s % 3) == e);
        }
    }
    assert(edge_order(f, 3 * t).to_set() =~= edges_upto(f, t));
}

/// One edge slot more: the edge's midpoint is appended unless the edge was
/// met before.
proof fn lemma_vertices_step(
    vs_orig: Seq<IcoVertex>,
    f: Seq<u32>,
    m: int,
    before: Seq<IcoVertex>,
    after: Seq<IcoVertex>,
    seen: Set<(u32, u32)>,
    e: (u32, u32),
)
    requires
        0 <= m,
        e == tri_edge(f, m / 3, m % 3),
        before == vs_orig + edge_order(f, m).map_values(|x: (u32, u32)| midpoint_of(x)),
        seen == edge_order(f, m).to_set(),
        seen.contains(e) ==> after == before,
        !seen.contains(e) ==> after == before.push(midpoint_of(e)),
    ensures
        after == vs_orig + edge_order(f, m + 1).map_values(|x: (u32, u32)| midpoint_of(x)),
        seen.insert(e) == edge_order(f, m + 1).to_set(),
{
    let o = edge_order(f, m);
    assert((m + 1 - 1) / 3 == m / 3 && (m + 1 - 1) % 3 == m % 3);
    if o.contains(e) {
        assert(seen.insert(e) =~= seen);
    } else {
        assert(o.push(e).map_values(|x: (u32, u32)| midpoint_of(x)) =~= o.map_values(|x: (u32, u32)| midpoint_of(x)).push(midpoint_of(e)));
        assert(vs_orig + o.push(e).map_values(|x: (u32, u32)| midpoint_of(x)) =~= (vs_orig + o.map_values(|x: (u32, u32)| midpoint_of(x))).push(midpoint_of(e)));
        assert forall|x: (u32, u32)| o.push(e).to_set().contains(x) <==> o.to_set().insert(e).contains(x) by {
            vstd::seq_lib::lemma_seq_contains_after_push(o, e, x);
        }
        assert(o.push(e).to_set() =~= o.to_set().insert(e));
    }
}

/// The midpoint index found for an edge is its place in the edge order.
proof fn lemma_mid_index(vs_orig: Seq<IcoVertex>, f: Seq<u32>, x: u32, a: u32, b: u32)
    requires
        f.len() % 3 == 0,
        is_mid_index(subdivided_vertices(vs_orig, f), vs_orig.len() as int, x, a, b),
    ensures
        x == mid_index(vs_orig.len() as int, f, a, b),
{
    let o = edge_order(f, f.len() as int);
    lemma_edge_order(f, f.len() as int);
    let vs = subdivided_vertices(vs_orig, f);
    let i = x - vs_orig.len();
    assert(vs[x as int] == o.map_values(|y: (u32, u32)| midpoint_of(y))[i]);
    assert(o[i] == norm_edge(a, b));
    let k = o.index_of(norm_edge(a, b));
    assert(o.contains(norm_edge(a, b)));
    assert(0 <= k < o.len() && o[k] == norm_edge(a, b));
}

/// Every vertex from `base` on is the midpoint of a distinct edge of `edges`.
#[verifier::opaque]
pub open spec fn new_midpoints_ok(vs: Seq<IcoVertex>, base: int, edges: Set<(u32, u32)>) -> bool {
    &&& forall|k: int| base <= k < vs.len() ==> exists|a: u32, b: u32| #[trigger] vs[k] == IcoVertex::Midpoint(a, b) && edges.contains((a, b))
    &&& forall|k1: int, k2: int| base <= k1 < k2 < vs.len() ==> #[trigger] vs[k1] != #[trigger] vs[k2]
    &&& forall|e: (u32, u32)| #[trigger] edges.contains(e) ==> exists|k: int| base <= k < vs.len() && #[trigger] vs[k] == IcoVertex::Midpoint(e.0, e.1)
}

fn find_midpoint(cache: &Vec<Vec<(u32, u32)>>, lo: u32, hi: u32) -> (r: Option<u32>)
    requires
        lo < cache@.len(),
    ensures
        match r {
            Some(id) => cache@[lo as int]@.contains((hi, id)),
            None => forall|id: u32| !cache@[lo as int]@.contains((hi, id)),
        },
{
    let list = &cache[lo as usize];
    let mut k: usize = 0;
    while k < list.len()
        invariant
            0 <= k <= list@.len(),
            list@ == cache@[lo as int]@,
            forall|j: int| 0 <= j < k ==> (#[trigger] list@[j]).0 != hi,
        decreases list@.len() - k,
    {
        if list[k].0 == hi {
            assert(list@.contains(list@[k as int]));
            return Some(list[k].1);
        }
        k += 1;
    }
    proof {
        assert forall|id: u32| !cache@[lo as int]@.contains((hi, id)) by {
            if cache@[lo as int]@.contains((hi, id)) {
                let j = choose|j: int| 0 <= j < list@.len() && list@[j] == (hi, id);
                assert(list@[j].0 != hi);
            }
        }
    }
    None
}

/// Cache of midpoints created in this round: `cache[lo]` lists `(hi, id)`.
#[verifier::opaque]
spec fn cache_ok(cache: Seq<Vec<(u32, u32)>>, vs: Seq<IcoVertex>, base: int, seen: Set<(u32, u32)>) -> bool {
    &&& cache.len() == base
    &&& forall|lo: int, hi: u32, id: u32| 0 <= lo < base && #[trigger] cache[lo]@.contains((hi, id)) ==>
            seen.contains((lo as u32, hi)) && base <= id < vs.len() && vs[id as int] == IcoVertex::Midpoint(lo as u32, hi)
    &&& forall|e: (u32, u32)| #[trigger] seen.contains(e) ==> e.0 < base && exists|id: u32| #[trigger] cache[e.0 as int]@.contains((e.1, id))
}

fn midpoint_index(
    cache: &mut Vec<Vec<(u32, u32)>>,
    vertices: &mut Vec<IcoVertex>,
    a: u32,
    b: u32,
    Ghost(base): Ghost<int>,
    Ghost(seen): Ghost<Set<(u32, u32)>>,
) -> (r: (u32, Ghost<Set<(u32, u32)>>))
    requires
        a < base,
        b < base,
        seen.finite(),
        old(vertices)@.len() == base + seen.len(),
        old(vertices)@.len() < u32::MAX,
        cache_ok(old(cache)@, old(vertices)@, base, seen),
        new_midpoints_ok(old(vertices)@, base, seen),
    ensures
        r.1@ == seen.insert(norm_edge(a, b)),
        r.1@.finite(),
        final(vertices)@.len() == base + r.1@.len(),
        final(vertices)@.len() <= old(vertices)@.len() + 1,
        final(vertices)@.take(old(vertices)@.len() as int) == old(vertices)@,
        cache_ok(final(cache)@, final(vertices)@, base, r.1@),
        new_midpoints_ok(final(vertices)@, base, r.1@),
        is_mid_index(final(vertices)@, base, r.0, a, b),
        seen.contains(norm_edge(a, b)) ==> final(vertices)@ == old(vertices)@,
        !seen.contains(norm_edge(a, b)) ==> final(vertices)@ == old(vertices)@.push(midpoint_of(norm_edge(a, b))),
{
    reveal(cache_ok);
    reveal(new_midpoints_ok);
    let (lo, hi) = if a <= b { (a, b) } else { (b, a) };
    let ghost e = norm_edge(a, b);
    match find_midpoint(cache, lo, hi) {
        Some(id) => {
            assert(seen.contains(e));
            assert(seen.insert(e) =~= seen);
            assert(vertices@.take(vertices@.len() as int) =~= vertices@);
            (id, Ghost(seen))
        },
        None => {
            assert(!seen.contains(e));
            let id = vertices.len() as u32;
            let ghost vs0 = vertices@;
            vertices.push(IcoVertex::Midpoint(lo, hi));
            let ghost c0 = cache@;
            cache.push(Vec::new());
            let mut list = cache.swap_remove(lo as usize);
            assert(cache@.len() == c0.len() && forall|l: int| 0 <= l < c0.len() && l != lo ==> cache@[l] == c0[l]);
            list.push((hi, id));
            cache.set(lo as usize, list);
            let ghost seen2 = seen.insert(e);
            proof {
                assert(vertices@.take(vs0.len() as int) =~= vs0);
                assert(cache@[lo as int]@ == c0[lo as int]@.push((hi, id)));
                assert forall|l: int, h: u32, d: u32| 0 <= l < base && #[trigger] cache@[l]@.contains((h, d)) implies
                    seen2.contains((l as u32, h)) && base <= d < vertices@.len() && vertices@[d as int] == IcoVertex::Midpoint(l as u32, h) by {
                    if l == lo as int {
                        let j = choose|j: int| 0 <= j < cache@[l]@.len() && cache@[l]@[j] == (h, d);
                        if j < c0[l]@.len() {
                            assert(c0[l]@[j] == (h, d));
                            assert(c0[l]@.contains((h, d)));
                        }
                    } else {
                        assert(c0[l] == cache@[l]);
                    }
                }
                assert forall|f: (u32, u32)| #[trigger] seen2.contains(f) implies f.0 < base && exists|d: u32| #[trigger] cache@[f.0 as int]@.contains((f.1, d)) by {
                    if f == e {
                        assert(cache@[lo as int]@[cache@[lo as int]@.len() - 1] == (hi, id));
                        assert(cache@[lo as int]@.contains((hi, id)));
                    } else {
                        assert(seen.contains(f));
                        let d = choose|d: u32| #[trigger] c0[f.0 as int]@.contains((f.1, d));
                        let j = choose|j: int| 0 <= j < c0[f.0 as int]@.len() && c0[f.0 as int]@[j] == (f.1, d);
                        if f.0 == lo {
                            assert(cache@[f.0 as int]@[j] == (f.1, d));
                        } else {
                            assert(cache@[f.0 as int] == c0[f.0 as int]);
                        }
                        assert(cache@[f.0 as int]@.contains((f.1, d)));
                    }
                }
                assert forall|k: int| base <= k < vertices@.len() implies exists|x: u32, y: u32| #[trigger] vertices@[k] == IcoVertex::Midpoint(x, y) && seen2.contains((x, y)) by {
                    if k < vs0.len() {
                        assert(vertices@[k] == vs0[k]);
                        let (x, y) = choose|x: u32, y: u32| #[trigger] vs0[k] == IcoVertex::Midpoint(x, y) && seen.contains((x, y));
                        assert(seen2.contains((x, y)));
                    } else {
                        assert(vertices@[k] == IcoVertex::Midpoint(lo, hi));
                        assert(seen2.contains((lo, hi)));
                    }
                }
                assert forall|k1: int, k2: int| base <= k1 < k2 < vertices@.len() implies #[trigger] vertices@[k1] != #[trigger] vertices@[k2] by {
                    if k2 == vs0.len() {
                        assert(vertices@[k1] == vs0[k1]);
                        if vs0[k1] == IcoVertex::Midpoint(lo, hi) {
                            let (x, y) = choose|x: u32, y: u32| #[trigger] vs0[k1] == IcoVertex::Midpoint(x, y) && seen.contains((x, y));
                        }
                    } else {
                        assert(vertices@[k1] == vs0[k1] && vertices@[k2] == vs0[k2]);
                    }
                }
                assert forall|f: (u32, u32)| #[trigger] seen2.contains(f) implies exists|k: int| base <= k < vertices@.len() && #[trigger] vertices@[k] == IcoVertex::Midpoint(f.0, f.1) by {
                    if f == e {
                        assert(vertices@[vs0.len() as int] == IcoVertex::Midpoint(f.0, f.1));
                    } else {
                        let k = choose|k: int| base <= k < vs0.len() && #[trigger] vs0[k] == IcoVertex::Midpoint(f.0, f.1);
                        assert(vertices@[k] == vs0[k]);
                    }
                }
            }
            (id, Ghost(seen2))
        },
    }
}

proof fn lemma_take_chain(s0: Seq<IcoVertex>, s1: Seq<IcoVertex>, s2: Seq<IcoVertex>, s3: Seq<IcoVertex>)
    requires
        s0.len() <= s1.len() <= s2.len() <= s3.len(),
        s1.take(s0.len() as int) == s0,
        s2.take(s1.len() as int) == s1,
        s3.take(s2.len() as int) == s2,
    ensures
        s3.take(s0.len() as int) == s0,
        s3.take(s1.len() as int) == s1,
        forall|k: int| 0 <= k < s1.len() ==> #[trigger] s3[k] == s1[k],
{
    assert forall|k: int| 0 <= k < s2.len() implies #[trigger] s3[k] == s2[k] by {
        assert(s3.take(s2.len() as int)[k] == s3[k]);
    }
    assert forall|k: int| 0 <= k < s1.len() implies #[trigger] s3[k] == s1[k] by {
        assert(s2.take(s1.len() as int)[k] == s2[k]);
    }
    assert forall|k: int| 0 <= k < s0.len() implies #[trigger] s3[k] == s0[k] by {
        assert(s1.take(s0.len() as int)[k] == s1[k]);
    }
    assert(s3.take(s0.len() as int) =~= s0);
    assert(s3.take(s1.len() as int) =~= s1);
}

proof fn lemma_prefix_mid(small: Seq<IcoVertex>, big: Seq<IcoVertex>, base: int, x: u32, a: u32, b: u32)
    requires
        small.len() <= big.len(),
        big.take(small.len() as int) == small,
        is_mid_index(small, base, x, a, b),
    ensures
        is_mid_index(big, base, x, a, b),
{
    assert(big.take(small.len() as int)[x as int] == big[x as int]);
}

proof fn lemma_subdivided_extend(
    vs_t: Seq<IcoVertex>,
    vs: Seq<IcoVertex>,
    base: int,
    f: Seq<u32>,
    out_t: Seq<u32>,
    out: Seq<u32>,
    u: int,
)
    requires
        vs_t.len() <= vs.len(),
        vs.take(vs_t.len() as int) == vs_t,
        out.take(out_t.len() as int) == out_t,
        out_t.len() <= out.len(),
        0 <= u,
        12 * u + 12 <= out_t.len(),
        subdivided_ok(vs_t, base, f, out_t, u),
    ensures
        subdivided_ok(vs, base, f, out, u),
{
    assert forall|k: int| 0 <= k < out_t.len() implies #[trigger] out[k] == out_t[k] by {
        assert(out.take(out_t.len() as int)[k] == out[k]);
    }
    assert forall|x: int| 0 <= x < vs_t.len() implies #[trigger] vs[x] == vs_t[x] by {
        assert(vs.take(vs_t.len() as int)[x] == vs[x]);
    }
    let o = 12 * u;
    assert(out[o] == out_t[o] && out[o + 1] == out_t[o + 1] && out[o + 2] == out_t[o + 2]);
    assert(out[o + 3] == out_t[o + 3] && out[o + 4] == out_t[o + 4] && out[o + 5] == out_t[o + 5]);
    assert(out[o + 6] == out_t[o + 6] && out[o + 7] == out_t[o + 7] && out[o + 8] == out_t[o + 8]);
    assert(out[o + 9] == out_t[o + 9] && out[o + 10] == out_t[o + 10] && out[o + 11] == out_t[o + 11]);
}

proof fn lemma_edges_step(f: Seq<u32>, t: int, seen: Set<(u32, u32)>, s3: Set<(u32, u32)>)
    requires
        0 <= t,
        3 * t + 3 <= f.len(),
        seen == edges_upto(f, t),
        s3 == seen.insert(norm_edge(f[3 * t], f[3 * t + 1])).insert(norm_edge(f[3 * t + 1], f[3 * t + 2])).insert(
            norm_edge(f[3 * t + 2], f[3 * t]),
        ),
    ensures
        s3 == edges_upto(f, t + 1),
{
    let a = f[3 * t];
    let b = f[3 * t + 1];
    let c = f[3 * t + 2];
    assert(tri_edge(f, t, 0) == norm_edge(a, b));
    assert(tri_edge(f, t, 1) == norm_edge(b, c));
    assert(tri_edge(f, t, 2) == norm_edge(c, a));
    assert forall|e: (u32, u32)| edges_upto(f, t + 1).contains(e) implies s3.contains(e) by {
        let (u, j) = choose|u: int, j: int| 0 <= u < t + 1 && 0 <= j < 3 && #[trigger] tri_edge(f, u, j) == e;
        if u < t {
            assert(edges_upto(f, t).contains(e));
        }
    }
    assert forall|e: (u32, u32)| s3.contains(e) implies edges_upto(f, t + 1).contains(e) by {
        if edges_upto(f, t).contains(e) {
            let (u, j) = choose|u: int, j: int| 0 <= u < t && 0 <= j < 3 && #[trigger] tri_edge(f, u, j) == e;
            assert(tri_edge(f, u, j) == e);
        } else if e == norm_edge(a, b) {
            assert(tri_edge(f, t, 0) == e);
        } else if e == norm_edge(b, c) {
            assert(tri_edge(f, t, 1) == e);
        } else {
            assert(tri_edge(f, t, 2) == e);
        }
    }
    assert(s3 =~= edges_upto(f, t + 1));
}

/// One subdivision round: every triangle becomes four, and every distinct
/// edge of the old triangles gets exactly one new midpoint vertex.
pub fn subdivide_icosphere(vertices: &mut Vec<IcoVertex>, faces: &Vec<u32>) -> (r: Vec<u32>)
    requires
        faces@.len() % 3 == 0,
        forall|k: int| 0 <= k < faces@.len() ==> #[trigger] faces@[k] < old(vertices)@.len(),
        old(vertices)@.len() + faces@.len() < u32::MAX,
        4 * faces@.len() <= usize::MAX,
    ensures
        final(vertices)@.len() == old(vertices)@.len() + face_edges(faces@).len(),
        face_edges(faces@).finite(),
        final(vertices)@.take(old(vertices)@.len() as int) == old(vertices)@,
        new_midpoints_ok(final(vertices)@, old(vertices)@.len() as int, face_edges(faces@)),
        r@.len() == 4 * faces@.len(),
        forall|t: int| 0 <= t < faces@.len() / 3 ==> #[trigger] subdivided_ok(final(vertices)@, old(vertices)@.len() as int, faces@, r@, t),
        final(vertices)@ == subdivided_vertices(old(vertices)@, faces@),
        r@ == subdivided_faces(old(vertices)@.len() as int, faces@),
{
    let base_len = vertices.len();
    let ghost base = base_len as int;
    let ghost vs_orig = vertices@;
    let mut cache: Vec<Vec<(u32, u32)>> = Vec::new();
    let mut i: usize = 0;
    while i < base_len
        invariant
            0 <= i <= base_len,
            cache@.len() == i,
            forall|l: int| 0 <= l < i ==> (#[trigger] cache@[l])@.len() == 0,
        decreases base_len - i,
    {
        cache.push(Vec::new());
        i += 1;
    }
    let ghost mut seen: Set<(u32, u32)> = Set::empty();
    let tri_count = faces.len() / 3;
    let mut out: Vec<u32> = Vec::with_capacity(faces.len() * 4);
    let mut t: usize = 0;
    proof {
        assert(seen =~= edges_upto(faces@, 0));
        reveal(cache_ok);
        reveal(new_midpoints_ok);
    }
    while t < tri_count
        invariant
            0 <= t <= tri_count,
            tri_count == faces@.len() / 3,
            faces@.len() % 3 == 0,
            base == base_len,
            forall|k: int| 0 <= k < faces@.len() ==> #[trigger] faces@[k] < base,
            base + faces@.len() < u32::MAX,
            seen == edges_upto(faces@, t as int),
            seen.finite(),
            seen.len() <= 3 * t,
            vertices@.len() == base + seen.len(),
            vertices@.take(base) == vs_orig,
            vs_orig.len() == base,
            cache_ok(cache@, vertices@, base, seen),
            new_midpoints_ok(vertices@, base, seen),
            out@.len() == 12 * t,
            forall|u: int| 0 <= u < t ==> #[trigger] subdivided_ok(vertices@, base, faces@, out@, u),
            vertices@ == vs_orig + edge_order(faces@, 3 * t).map_values(|x: (u32, u32)| midpoint_of(x)),
        decreases tri_count - t,
    {
        let a = faces[3 * t];
        let b = faces[3 * t + 1];
        let c = faces[3 * t + 2];
        let ghost vs_t = vertices@;
        let ghost out_t = out@;
        proof {
            assert(vertices@.len() < u32::MAX - 3);
            lemma_edge_order_set(faces@, t as int);
        }
        let (ab, Ghost(s1)) = midpoint_index(&mut cache, vertices, a, b, Ghost(base), Ghost(seen));
        let ghost s1_vs = vertices@;
        let (bc, Ghost(s2)) = midpoint_index(&mut cache, vertices, b, c, Ghost(base), Ghost(s1));
        let ghost s2_vs = vertices@;
        let (ca, Ghost(s3)) = midpoint_index(&mut cache, vertices, c, a, Ghost(base), Ghost(s2));
        out.push(a);
        out.push(ab);
        out.push(ca);
        out.push(b);
        out.push(bc);
        out.push(ab);
        out.push(c);
        out.push(ca);
        out.push(bc);
        out.push(ab);
        out.push(bc);
        out.push(ca);
        proof {
            let vs = vertices@;
            lemma_take_chain(vs_t, s1_vs, s2_vs, vs);
            lemma_prefix_mid(s1_vs, vs, base, ab, a, b);
            lemma_prefix_mid(s2_vs, vs, base, bc, b, c);
            assert(out@.take(out_t.len() as int) =~= out_t);
            assert forall|u: int| 0 <= u < t + 1 implies #[trigger] subdivided_ok(vs, base, faces@, out@, u) by {
                if u < t {
                    lemma_subdivided_extend(vs_t, vs, base, faces@, out_t, out@, u);
                }
            }
            let m = 3 * t as int;
            assert(tri_edge(faces@, m / 3, m % 3) == norm_edge(a, b));
            assert(tri_edge(faces@, (m + 1) / 3, (m + 1) % 3) == norm_edge(b, c));
            assert(tri_edge(faces@, (m + 2) / 3, (m + 2) % 3) == norm_edge(c, a));
            lemma_vertices_step(vs_orig, faces@, m, vs_t, s1_vs, seen, norm_edge(a, b));
            lemma_vertices_step(vs_orig, faces@, m + 1, s1_vs, s2_vs, s1, norm_edge(b, c));
            lemma_vertices_step(vs_orig, faces@, m + 2, s2_vs, vs, s2, norm_edge(c, a));
            assert(3 * (t + 1) == m + 3);
            lemma_edges_step(faces@, t as int, seen, s3);
            seen = s3;
            assert(vs_t.take(vs_t.len() as int) =~= vs_t);
            lemma_take_chain(vs_orig, vs_t, vs_t, vs);
        }
        t += 1;
    }
    proof {
        assert(faces@.len() / 3 == tri_count);
        assert(3 * tri_count == faces@.len());
        assert(out@ =~= subdivided_faces(base, faces@)) by {
            assert forall|k: int| 0 <= k < out@.len() implies out@[k] == subdivided_faces(base, faces@)[k] by {
                let u = k / 12;
                let q = k % 12;
                assert(0 <= u < tri_count && 0 <= q < 12 && k == 12 * u + q);
                assert(subdivided_ok(vertices@, base, faces@, out@, u));
                let o = 12 * u;
                let a = corner(faces@, u, 0);
                let b = corner(faces@, u, 1);
                let c = corner(faces@, u, 2);
                lemma_mid_index(vs_orig, faces@, out@[o + 1], a, b);
                lemma_mid_index(vs_orig, faces@, out@[o + 2], c, a);
                lemma_mid_index(vs_orig, faces@, out@[o + 4], b, c);
                lemma_mid_index(vs_orig, faces@, out@[o + 5], a, b);
                lemma_mid_index(vs_orig, faces@, out@[o + 7], c, a);
                lemma_mid_index(vs_orig, faces@, out@[o + 8], b, c);
                lemma_mid_index(vs_orig, faces@, out@[o + 9], a, b);
                lemma_mid_index(vs_orig, faces@, out@[o + 10], b, c);
                lemma_mid_index(vs_orig, faces@, out@[o + 11], c, a);
            }
        }
    }
    out
}

/// The 20 triangles of the icosahedron over its 12 corners.
pub open spec fn icosahedron_face_list() -> Seq<u32> {
    seq![
        0, 11, 5, 0, 5, 1, 0, 1, 7, 0, 7, 10, 0, 10, 11, 1, 5, 9, 5, 11, 4, 11, 10, 2, 10, 7, 6,
        7, 1, 8, 3, 9, 4, 3, 4, 2, 3, 2, 6, 3, 6, 8, 3, 8, 9, 4, 9, 5, 2, 4, 11, 6, 2, 10, 8, 6,
        7, 9, 8, 1,
    ]
}

/// The 12 corners of the icosahedron.
pub open spec fn icosahedron_corners() -> Seq<IcoVertex> {
    Seq::new(12, |i: int| IcoVertex::Base(i as u32))
}

/// The icosphere of a level: its vertices and its triangles, the
/// icosahedron subdivided `level` times.
pub open spec fn icosphere_at(level: nat) -> (Seq<IcoVertex>, Seq<u32>)
    decreases level,
{
    if level == 0 {
        (icosahedron_corners(), icosahedron_face_list())
    } else {
        let (v, f) = icosphere_at((level - 1) as nat);
        (subdivided_vertices(v, f), subdivided_faces(v.len() as int, f))
    }
}

/// The 20 triangles of the icosahedron over its 12 corners.
pub fn icosahedron_faces() -> (r: Vec<u32>)
    ensures
        r@ == icosahedron_face_list(),
        r@.len() == 60,
        forall|k: int| 0 <= k < 60 ==> #[trigger] r@[k] < 12,
{
    let r: Vec<u32> = vec![
        0, 11, 5, 0, 5, 1, 0, 1, 7, 0, 7, 10, 0, 10, 11, 1, 5, 9, 5, 11, 4, 11, 10, 2, 10, 7, 6,
        7, 1, 8, 3, 9, 4, 3, 4, 2, 3, 2, 6, 3, 6, 8, 3, 8, 9, 4, 9, 5, 2, 4, 11, 6, 2, 10, 8, 6,
        7, 9, 8, 1,
    ];
    proof {
        assert(r@.len() == 60);
        assert forall|k: int| 0 <= k < 60 implies #[trigger] r@[k] < 12 by {}
        assert(r@ =~= icosahedron_face_list());
    }
    r
}

/// `4^level`.
pub open spec fn pow4(level: nat) -> nat
    decreases level,
{
    if level == 0 { 1 } else { 4 * pow4((level - 1) as nat) }
}

/// Every vertex is a corner (the first 12, in order) or the midpoint of two
/// earlier vertices, smaller index first.
pub open spec fn vertices_ok(vs: Seq<IcoVertex>) -> bool {
    &&& vs.len() >= 12
    &&& forall|i: int| 0 <= i < 12 ==> #[trigger] vs[i] == IcoVertex::Base(i as u32)
    &&& forall|k: int| 12 <= k < vs.len() ==> exists|a: u32, b: u32| #[trigger] vs[k] == IcoVertex::Midpoint(a, b) && a <= b < k
}

/// The icosphere of the given subdivision level: its vertices (by origin,
/// `10 * 4^level + 2` of them) and its triangles (three vertex indices each,
/// `20 * 4^level` triangles).
pub fn generate_icosphere(level: u32) -> (r: (Vec<IcoVertex>, Vec<u32>))
    requires
        level <= 12,
    ensures
        r.0@ == icosphere_at(level as nat).0,
        r.1@ == icosphere_at(level as nat).1,
        r.1@.len() == 60 * pow4(level as nat),
        r.0@.len() == 10 * pow4(level as nat) + 2,
        forall|k: int| 0 <= k < r.1@.len() ==> #[trigger] r.1@[k] < r.0@.len(),
        vertices_ok(r.0@),
{
    let mut vertices: Vec<IcoVertex> = Vec::new();
    let mut i: u32 = 0;
    while i < 12
        invariant
            0 <= i <= 12,
            vertices@.len() == i,
            forall|j: int| 0 <= j < i ==> #[trigger] vertices@[j] == IcoVertex::Base(j as u32),
        decreases 12 - i,
    {
        vertices.push(IcoVertex::Base(i));
        i += 1;
    }
    let mut faces = icosahedron_faces();
    let mut l: u32 = 0;
    proof {
        assert(vertices@ =~= icosahedron_corners());
    }
    while l < level
        invariant
            0 <= l <= level,
            level <= 12,
            faces@.len() == 60 * pow4(l as nat),
            forall|k: int| 0 <= k < faces@.len() ==> #[trigger] faces@[k] < vertices@.len(),
            vertices@.len() <= 12 + 60 * pow4(l as nat),
            vertices_ok(vertices@),
            vertices@ == icosphere_at(l as nat).0,
            faces@ == icosphere_at(l as nat).1,
        decreases level - l,
    {
        proof {
            lemma_pow4_bound(l as nat);
        }
        let ghost vs0 = vertices@;
        let new_faces = subdivide_icosphere(&mut vertices, &faces);
        proof {
            reveal(new_midpoints_ok);
            let base = vs0.len() as int;
            lemma_edges_bound(faces@);
            assert forall|k: int| 12 <= k < vertices@.len() implies exists|a: u32, b: u32| #[trigger] vertices@[k] == IcoVertex::Midpoint(a, b) && a <= b < k by {
                if k < base {
                    assert(vertices@[k] == vs0[k]);
                    let (a, b) = choose|a: u32, b: u32| #[trigger] vs0[k] == IcoVertex::Midpoint(a, b) && a <= b < k;
                } else {
                    let (a, b) = choose|a: u32, b: u32| #[trigger] vertices@[k] == IcoVertex::Midpoint(a, b) && face_edges(faces@).contains((a, b));
                    let (u, j) = choose|u: int, j: int| 0 <= u < faces@.len() / 3 && 0 <= j < 3 && #[trigger] tri_edge(faces@, u, j) == (a, b);
                    assert(corner(faces@, u, j) < base);
                    assert(corner(faces@, u, (j + 1) % 3) < base);
                }
            }
            assert forall|j: int| 0 <= j < 12 implies #[trigger] vertices@[j] == IcoVertex::Base(j as u32) by {
                assert(vertices@[j] == vs0[j]);
            }
            assert forall|k: int| 0 <= k < new_faces@.len() implies #[trigger] new_faces@[k] < vertices@.len() by {
                let t = k / 12;
                let q = k % 12;
                assert(k == 12 * t + q);
                assert(0 <= t < faces@.len() / 3);
                assert(subdivided_ok(vertices@, base, faces@, new_faces@, t));
                assert(corner(faces@, t, 0) < base && corner(faces@, t, 1) < base && corner(faces@, t, 2) < base);
            }
        }
        faces = new_faces;
        l += 1;
    }
    proof {
        lemma_icosphere_counts(level as nat);
    }
    (vertices, faces)
}

pub(crate) proof fn lemma_pow4_bound(l: nat)
    requires
        l < 12,
    ensures
        60 * pow4(l) <= 60 * pow4(11),
        pow4(l + 1) == 4 * pow4(l),
        pow4(11) == 4194304,
    decreases l,
{
    reveal_with_fuel(pow4, 12);
    if l > 0 {
        lemma_pow4_bound((l - 1) as nat);
    }
}

pub(crate) proof fn lemma_edges_bound(f: Seq<u32>)
    ensures
        face_edges(f).finite(),
        face_edges(f).len() <= 3 * ((f.len() / 3) as int),
{
    lemma_edges_upto_bound(f, (f.len() / 3) as int);
}

proof fn lemma_edges_upto_bound(f: Seq<u32>, n: int)
    requires
        n >= 0,
    ensures
        edges_upto(f, n).finite(),
        edges_upto(f, n).len() <= 3 * n,
    decreases n,
{
    if n == 0 {
        assert(edges_upto(f, 0) =~= Set::<(u32, u32)>::empty());
    } else {
        lemma_edges_upto_bound(f, n - 1);
        let prev = edges_upto(f, n - 1);
        let add = prev.insert(tri_edge(f, n - 1, 0)).insert(tri_edge(f, n - 1, 1)).insert(tri_edge(f, n - 1, 2));
        assert(edges_upto(f, n) =~= add) by {
            assert forall|e: (u32, u32)| edges_upto(f, n).contains(e) implies add.contains(e) by {
                let (t, j) = choose|t: int, j: int| 0 <= t < n && 0 <= j < 3 && #[trigger] tri_edge(f, t, j) == e;
                if t < n - 1 {
                    assert(prev.contains(e));
                }
            }
            assert forall|e: (u32, u32)| add.contains(e) implies edges_upto(f, n).contains(e) by {
                if prev.contains(e) {
                    let (t, j) = choose|t: int, j: int| 0 <= t < n - 1 && 0 <= j < 3 && #[trigger] tri_edge(f, t, j) == e;
                    assert(tri_edge(f, t, j) == e);
                } else if e == tri_edge(f, n - 1, 0) {
                } else if e == tri_edge(f, n - 1, 1) {
                } else {
                }
            }
        }
    }
}

} // verus!
