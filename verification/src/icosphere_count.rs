//! How many vertices, edges and triangles the icosphere has at each level:
//! `10 * 4^level + 2` vertices, `30 * 4^level` edges, `20 * 4^level`
//! triangles.
use vstd::prelude::*;
use vstd::set_lib::*;
use vstd::relations::injective_on;
use crate::icosphere::{
    corner, edge_order, face_edges, icosahedron_corners, icosahedron_face_list, icosphere_at, lemma_edge_order_set,
    lemma_pow4_bound, mid_index, norm_edge, pow4, subdivided_entry, subdivided_faces, subdivided_vertices, tri_edge,
};

verus! {

/// Cell `x` is a corner of triangle `t`.
pub open spec fn is_corner(f: Seq<u32>, t: int, x: u32) -> bool {
    corner(f, t, 0) == x || corner(f, t, 1) == x || corner(f, t, 2) == x
}

/// Every corner of triangle `t1` is a corner of triangle `t2`.
pub open spec fn corners_within(f: Seq<u32>, t1: int, t2: int) -> bool {
    is_corner(f, t2, corner(f, t1, 0)) && is_corner(f, t2, corner(f, t1, 1)) && is_corner(f, t2, corner(f, t1, 2))
}

/// The three corners of triangle `t` differ.
pub open spec fn proper_triangle(f: Seq<u32>, t: int) -> bool {
    corner(f, t, 0) != corner(f, t, 1) && corner(f, t, 1) != corner(f, t, 2) && corner(f, t, 2) != corner(f, t, 0)
}

/// A triangle mesh over `v` vertices in which every triangle has three
/// distinct corners and no two triangles have the same corners.
pub open spec fn mesh_ok(v: int, f: Seq<u32>) -> bool {
    &&& f.len() % 3 == 0
    &&& forall|k: int| 0 <= k < f.len() ==> (#[trigger] f[k] as int) < v
    &&& forall|t: int| 0 <= t < f.len() / 3 ==> #[trigger] proper_triangle(f, t)
    &&& forall|t1: int, t2: int|
        0 <= t1 < f.len() / 3 && 0 <= t2 < f.len() / 3 && #[trigger] corners_within(f, t1, t2) ==> t1 == t2
}

/// The corners of triangle `t`, sorted, as one number.
spec fn corner_code(f: Seq<u32>, t: int) -> int {
    let a = corner(f, t, 0) as int;
    let b = corner(f, t, 1) as int;
    let c = corner(f, t, 2) as int;
    let lo = if a <= b && a <= c { a } else if b <= c { b } else { c };
    let hi = if a >= b && a >= c { a } else if b >= c { b } else { c };
    lo * 144 + (a + b + c - lo - hi) * 12 + hi
}

/// The icosahedron triangle with the given corner code.
spec fn icosahedron_face_of_code(code: int) -> int {
    if code < 0 {
        -1
    } else if code == 71 {
        0
    } else if code == 17 {
        1
    } else if code == 19 {
        2
    } else if code == 94 {
        3
    } else if code == 131 {
        4
    } else if code == 213 {
        5
    } else if code == 647 {
        6
    } else if code == 419 {
        7
    } else if code == 958 {
        8
    } else if code == 236 {
        9
    } else if code == 489 {
        10
    } else if code == 328 {
        11
    } else if code == 330 {
        12
    } else if code == 512 {
        13
    } else if code == 537 {
        14
    } else if code == 645 {
        15
    } else if code == 347 {
        16
    } else if code == 370 {
        17
    } else if code == 956 {
        18
    } else if code == 249 {
        19
    } else {
        -1
    }
}

/// Two proper triangles one of which has all its corners among the other's
/// have the same corners, so the same code.
proof fn lemma_corner_code(f: Seq<u32>, t1: int, t2: int)
    requires
        proper_triangle(f, t1),
        corners_within(f, t1, t2),
    ensures
        corner_code(f, t1) == corner_code(f, t2),
{
}

/// The icosahedron is a proper mesh with 30 edges.
proof fn lemma_icosahedron_mesh()
    ensures
        mesh_ok(12, icosahedron_face_list()),
        face_edges(icosahedron_face_list()).finite(),
        face_edges(icosahedron_face_list()).len() == 30,
{
    let f = icosahedron_face_list();
    assert(f.len() == 60);
    assert forall|k: int| 0 <= k < f.len() implies (#[trigger] f[k] as int) < 12 by {}
    assert forall|t: int| 0 <= t < f.len() / 3 implies #[trigger] proper_triangle(f, t) && icosahedron_face_of_code(corner_code(f, t)) == t by {
        assert(t == 0 || t == 1 || t == 2 || t == 3 || t == 4 || t == 5 || t == 6 || t == 7 || t == 8 || t == 9 || t == 10 || t == 11 || t == 12 || t == 13 || t == 14 || t == 15 || t == 16 || t == 17 || t == 18 || t == 19);
    }
    assert forall|t1: int, t2: int| 0 <= t1 < f.len() / 3 && 0 <= t2 < f.len() / 3 && #[trigger] corners_within(f, t1, t2) implies t1 == t2 by {
        assert(proper_triangle(f, t1) && icosahedron_face_of_code(corner_code(f, t1)) == t1);
        assert(proper_triangle(f, t2) && icosahedron_face_of_code(corner_code(f, t2)) == t2);
        lemma_corner_code(f, t1, t2);
    }
    let lit: Set<(u32, u32)> = set![(0u32, 11u32), (5u32, 11u32), (0u32, 5u32), (1u32, 5u32), (0u32, 1u32), (1u32, 7u32), (0u32, 7u32), (7u32, 10u32), (0u32, 10u32), (10u32, 11u32), (5u32, 9u32), (1u32, 9u32), (4u32, 11u32), (4u32, 5u32), (2u32, 10u32), (2u32, 11u32), (6u32, 7u32), (6u32, 10u32), (1u32, 8u32), (7u32, 8u32), (3u32, 9u32), (4u32, 9u32), (3u32, 4u32), (2u32, 4u32), (2u32, 3u32), (2u32, 6u32), (3u32, 6u32), (6u32, 8u32), (3u32, 8u32), (8u32, 9u32)];
    assert(lit.len() == 30);
    assert forall|e: (u32, u32)| #[trigger] face_edges(f).contains(e) implies lit.contains(e) by {
        let (t, j) = choose|t: int, j: int| 0 <= t < 20 && 0 <= j < 3 && #[trigger] tri_edge(f, t, j) == e;
        assert(t == 0 || t == 1 || t == 2 || t == 3 || t == 4 || t == 5 || t == 6 || t == 7 || t == 8 || t == 9 || t == 10 || t == 11 || t == 12 || t == 13 || t == 14 || t == 15 || t == 16 || t == 17 || t == 18 || t == 19);
        assert(j == 0 || j == 1 || j == 2);
    }
    assert(tri_edge(f, 0, 0) == (0u32, 11u32));
    assert(tri_edge(f, 0, 1) == (5u32, 11u32));
    assert(tri_edge(f, 0, 2) == (0u32, 5u32));
    assert(tri_edge(f, 1, 1) == (1u32, 5u32));
    assert(tri_edge(f, 1, 2) == (0u32, 1u32));
    assert(tri_edge(f, 2, 1) == (1u32, 7u32));
    assert(tri_edge(f, 2, 2) == (0u32, 7u32));
    assert(tri_edge(f, 3, 1) == (7u32, 10u32));
    assert(tri_edge(f, 3, 2) == (0u32, 10u32));
    assert(tri_edge(f, 4, 1) == (10u32, 11u32));
    assert(tri_edge(f, 5, 1) == (5u32, 9u32));
    assert(tri_edge(f, 5, 2) == (1u32, 9u32));
    assert(tri_edge(f, 6, 1) == (4u32, 11u32));
    assert(tri_edge(f, 6, 2) == (4u32, 5u32));
    assert(tri_edge(f, 7, 1) == (2u32, 10u32));
    assert(tri_edge(f, 7, 2) == (2u32, 11u32));
    assert(tri_edge(f, 8, 1) == (6u32, 7u32));
    assert(tri_edge(f, 8, 2) == (6u32, 10u32));
    assert(tri_edge(f, 9, 1) == (1u32, 8u32));
    assert(tri_edge(f, 9, 2) == (7u32, 8u32));
    assert(tri_edge(f, 10, 0) == (3u32, 9u32));
    assert(tri_edge(f, 10, 1) == (4u32, 9u32));
    assert(tri_edge(f, 10, 2) == (3u32, 4u32));
    assert(tri_edge(f, 11, 1) == (2u32, 4u32));
    assert(tri_edge(f, 11, 2) == (2u32, 3u32));
    assert(tri_edge(f, 12, 1) == (2u32, 6u32));
    assert(tri_edge(f, 12, 2) == (3u32, 6u32));
    assert(tri_edge(f, 13, 1) == (6u32, 8u32));
    assert(tri_edge(f, 13, 2) == (3u32, 8u32));
    assert(tri_edge(f, 14, 1) == (8u32, 9u32));
    assert forall|e: (u32, u32)| lit.contains(e) implies #[trigger] face_edges(f).contains(e) by {}
    assert(face_edges(f) =~= lit);
}

/// The midpoint vertex of edge `e` after one round of subdivision over `v`
/// vertices.
pub open spec fn mid_of(v: int, f: Seq<u32>, e: (u32, u32)) -> int {
    mid_index(v, f, e.0, e.1)
}

/// Facts about the edges of a proper mesh and their midpoints.
proof fn lemma_mid_facts(v: int, f: Seq<u32>)
    requires
        mesh_ok(v, f),
    ensures
        face_edges(f).finite(),
        edge_order(f, f.len() as int).len() == face_edges(f).len(),
        forall|t: int, j: int| 0 <= t < f.len() / 3 && 0 <= j < 3 ==> face_edges(f).contains(#[trigger] tri_edge(f, t, j)),
        forall|e: (u32, u32)|
            #[trigger] face_edges(f).contains(e) ==> e.0 < e.1 && (e.1 as int) < v && v <= mid_of(v, f, e) < v
                + face_edges(f).len() && edge_order(f, f.len() as int)[mid_of(v, f, e) - v] == e,
{
    let n = f.len() as int;
    let tc = n / 3;
    assert(3 * tc == n);
    lemma_edge_order_set(f, tc);
    let eo = edge_order(f, n);
    eo.unique_seq_to_set();
    assert(face_edges(f) == eo.to_set());
    assert forall|t: int, j: int| 0 <= t < f.len() / 3 && 0 <= j < 3 implies face_edges(f).contains(#[trigger] tri_edge(f, t, j)) by {}
    assert forall|e: (u32, u32)| #[trigger] face_edges(f).contains(e) implies e.0 < e.1 && (e.1 as int) < v && v <= mid_of(v, f, e) < v
        + face_edges(f).len() && eo[mid_of(v, f, e) - v] == e by {
        let (t, j) = choose|t: int, j: int| 0 <= t < tc && 0 <= j < 3 && #[trigger] tri_edge(f, t, j) == e;
        assert(proper_triangle(f, t));
        assert(f[3 * t + j] < v);
        assert(f[3 * t + (j + 1) % 3] < v);
        assert(norm_edge(e.0, e.1) == e);
        assert(eo.to_set().contains(e));
        assert(eo.contains(e));
    }
}

/// Midpoints of distinct edges differ.
proof fn lemma_mid_injective(v: int, f: Seq<u32>, e1: (u32, u32), e2: (u32, u32))
    requires
        mesh_ok(v, f),
        face_edges(f).contains(e1),
        face_edges(f).contains(e2),
        mid_of(v, f, e1) == mid_of(v, f, e2),
    ensures
        e1 == e2,
{
    lemma_mid_facts(v, f);
}

/// Corner `j` of the new triangle `q` (`0..4`) made from old triangle `t`
/// (corners `a, b, c`): `(a, ab, ca)`, `(b, bc, ab)`, `(c, ca, bc)`,
/// `(ab, bc, ca)`.
pub open spec fn new_corner(v: int, f: Seq<u32>, t: int, q: int, j: int) -> int {
    let a = corner(f, t, 0) as int;
    let b = corner(f, t, 1) as int;
    let c = corner(f, t, 2) as int;
    let ab = mid_of(v, f, tri_edge(f, t, 0));
    let bc = mid_of(v, f, tri_edge(f, t, 1));
    let ca = mid_of(v, f, tri_edge(f, t, 2));
    if q == 0 {
        if j == 0 { a } else if j == 1 { ab } else { ca }
    } else if q == 1 {
        if j == 0 { b } else if j == 1 { bc } else { ab }
    } else if q == 2 {
        if j == 0 { c } else if j == 1 { ca } else { bc }
    } else {
        if j == 0 { ab } else if j == 1 { bc } else { ca }
    }
}

/// The corners of the subdivided triangles.
proof fn lemma_new_corners(v: int, f: Seq<u32>, t: int, q: int, j: int)
    requires
        mesh_ok(v, f),
        v + face_edges(f).len() <= u32::MAX,
        0 <= t < f.len() / 3,
        0 <= q < 4,
        0 <= j < 3,
    ensures
        corner(subdivided_faces(v, f), 4 * t + q, j) as int == new_corner(v, f, t, q, j),
        subdivided_faces(v, f).len() == 4 * f.len(),
{
    lemma_mid_facts(v, f);
    let g = subdivided_faces(v, f);
    let k = 3 * (4 * t + q) + j;
    assert(k == 12 * t + (3 * q + j));
    vstd::arithmetic::div_mod::lemma_fundamental_div_mod_converse(k, 12, t, 3 * q + j);
    assert(0 <= k < 4 * f.len());
    assert(g[k] == subdivided_entry(v, f, t, 3 * q + j));
    assert(face_edges(f).contains(tri_edge(f, t, 0)));
    assert(face_edges(f).contains(tri_edge(f, t, 1)));
    assert(face_edges(f).contains(tri_edge(f, t, 2)));
    assert(corner(f, t, 2) == f[3 * t + 2]);
    assert(tri_edge(f, t, 2) == norm_edge(corner(f, t, 2), corner(f, t, 0)));
}

/// Two distinct edges of a triangle cover its corners: a triangle sharing
/// them has all its corners.
proof fn lemma_two_edges(f: Seq<u32>, t1: int, t2: int, j: int, k: int, j2: int, k2: int)
    requires
        0 <= j < 3,
        0 <= k < 3,
        j != k,
        0 <= j2 < 3,
        0 <= k2 < 3,
        tri_edge(f, t1, j) == tri_edge(f, t2, j2),
        tri_edge(f, t1, k) == tri_edge(f, t2, k2),
    ensures
        corners_within(f, t1, t2),
{
    assert((0 + 1) % 3 == 1 && (1 + 1) % 3 == 2 && (2 + 1) % 3 == 0);
}

/// The three edges of a proper triangle differ.
proof fn lemma_edges_differ(f: Seq<u32>, t: int)
    requires
        proper_triangle(f, t),
    ensures
        tri_edge(f, t, 0) != tri_edge(f, t, 1),
        tri_edge(f, t, 1) != tri_edge(f, t, 2),
        tri_edge(f, t, 2) != tri_edge(f, t, 0),
{
    assert((0 + 1) % 3 == 1 && (1 + 1) % 3 == 2 && (2 + 1) % 3 == 0);
}

/// Splitting a triangle index of the subdivided mesh into the old triangle
/// and the part of it.
proof fn lemma_split_index(tt: int, tc: int) -> (r: (int, int))
    requires
        0 <= tt < 4 * tc,
    ensures
        0 <= r.0 < tc,
        0 <= r.1 < 4,
        tt == 4 * r.0 + r.1,
{
    let t = tt / 4;
    let q = tt % 4;
    vstd::arithmetic::div_mod::lemma_fundamental_div_mod(tt, 4);
    (t, q)
}

/// `x` is a corner of the new triangle `q` made from old triangle `t`.
pub open spec fn new_corner_in(v: int, f: Seq<u32>, t: int, q: int, x: int) -> bool {
    x == new_corner(v, f, t, q, 0) || x == new_corner(v, f, t, q, 1) || x == new_corner(v, f, t, q, 2)
}

/// The midpoint of edge `j` of old triangle `t`.
spec fn edge_mid(v: int, f: Seq<u32>, t: int, j: int) -> int {
    mid_of(v, f, tri_edge(f, t, j))
}

/// The edge of old triangle `t` whose midpoint is `x` (the last one when
/// none is).
spec fn edge_with_mid(v: int, f: Seq<u32>, t: int, x: int) -> int {
    if x == edge_mid(v, f, t, 0) { 0 } else if x == edge_mid(v, f, t, 1) { 1 } else { 2 }
}

/// New triangles with the same corners come from the same old triangle and
/// are the same part of it.
#[verifier::rlimit(40)]
proof fn lemma_subdivided_same_corners(v: int, f: Seq<u32>, a1: int, q1: int, a2: int, q2: int)
    requires
        mesh_ok(v, f),
        0 <= a1 < f.len() / 3,
        0 <= a2 < f.len() / 3,
        0 <= q1 < 4,
        0 <= q2 < 4,
        new_corner_in(v, f, a2, q2, new_corner(v, f, a1, q1, 0)),
        new_corner_in(v, f, a2, q2, new_corner(v, f, a1, q1, 1)),
        new_corner_in(v, f, a2, q2, new_corner(v, f, a1, q1, 2)),
    ensures
        a1 == a2,
        q1 == q2,
{
    lemma_mid_facts(v, f);
    assert(proper_triangle(f, a1));
    assert(proper_triangle(f, a2));
    lemma_edges_differ(f, a1);
    lemma_edges_differ(f, a2);
    assert(f[3 * a1] < v && f[3 * a1 + 1] < v && f[3 * a1 + 2] < v);
    assert(f[3 * a2] < v && f[3 * a2 + 1] < v && f[3 * a2 + 2] < v);
    assert(face_edges(f).contains(tri_edge(f, a1, 0)) && face_edges(f).contains(tri_edge(f, a1, 1)) && face_edges(f).contains(tri_edge(f, a1, 2)));
    assert(face_edges(f).contains(tri_edge(f, a2, 0)) && face_edges(f).contains(tri_edge(f, a2, 1)) && face_edges(f).contains(tri_edge(f, a2, 2)));
    if q1 < 3 && q2 < 3 {
        let i1 = q1;
        let k1 = (q1 + 2) % 3;
        let j2 = edge_with_mid(v, f, a2, edge_mid(v, f, a1, i1));
        let k2 = edge_with_mid(v, f, a2, edge_mid(v, f, a1, k1));
        assert(edge_mid(v, f, a1, i1) == edge_mid(v, f, a2, j2));
        assert(edge_mid(v, f, a1, k1) == edge_mid(v, f, a2, k2));
        assert(tri_edge(f, a1, i1) == tri_edge(f, a2, j2));
        assert(tri_edge(f, a1, k1) == tri_edge(f, a2, k2));
        lemma_two_edges(f, a1, a2, i1, k1, j2, k2);
        assert(a1 == a2);
    } else if q1 == 3 && q2 == 3 {
        let j2 = edge_with_mid(v, f, a2, edge_mid(v, f, a1, 0));
        let k2 = edge_with_mid(v, f, a2, edge_mid(v, f, a1, 1));
        assert(tri_edge(f, a1, 0) == tri_edge(f, a2, j2));
        assert(tri_edge(f, a1, 1) == tri_edge(f, a2, k2));
        lemma_two_edges(f, a1, a2, 0, 1, j2, k2);
        assert(a1 == a2);
    }
}

/// One round of subdivision keeps the mesh proper.
#[verifier::rlimit(40)]
proof fn lemma_subdivided_mesh_ok(v: int, f: Seq<u32>)
    requires
        mesh_ok(v, f),
        v + face_edges(f).len() <= u32::MAX,
    ensures
        mesh_ok(v + face_edges(f).len(), subdivided_faces(v, f)),
{
    lemma_mid_facts(v, f);
    let g = subdivided_faces(v, f);
    let m = face_edges(f).len() as int;
    let tc = (f.len() / 3) as int;
    assert(g.len() == 4 * f.len());
    assert(g.len() / 3 == 4 * tc);
    assert forall|k: int| 0 <= k < g.len() implies (#[trigger] g[k] as int) < v + m by {
        let tt = k / 3;
        let j = k % 3;
        vstd::arithmetic::div_mod::lemma_fundamental_div_mod(k, 3);
        let (t, q) = lemma_split_index(tt, tc);
        lemma_new_corners(v, f, t, q, j);
        assert(corner(g, tt, j) == g[k]);
        assert(f[3 * t] < v && f[3 * t + 1] < v && f[3 * t + 2] < v);
    }
    assert forall|tt: int| 0 <= tt < g.len() / 3 implies #[trigger] proper_triangle(g, tt) by {
        let (t, q) = lemma_split_index(tt, tc);
        lemma_new_corners(v, f, t, q, 0);
        lemma_new_corners(v, f, t, q, 1);
        lemma_new_corners(v, f, t, q, 2);
        assert(proper_triangle(f, t));
        lemma_edges_differ(f, t);
        assert(f[3 * t] < v && f[3 * t + 1] < v && f[3 * t + 2] < v);
    }
    assert forall|t1: int, t2: int|
        0 <= t1 < g.len() / 3 && 0 <= t2 < g.len() / 3 && #[trigger] corners_within(g, t1, t2) implies t1 == t2 by {
        let (a1, q1) = lemma_split_index(t1, tc);
        let (a2, q2) = lemma_split_index(t2, tc);
        lemma_new_corners(v, f, a1, q1, 0);
        lemma_new_corners(v, f, a1, q1, 1);
        lemma_new_corners(v, f, a1, q1, 2);
        lemma_new_corners(v, f, a2, q2, 0);
        lemma_new_corners(v, f, a2, q2, 1);
        lemma_new_corners(v, f, a2, q2, 2);
        assert(proper_triangle(f, a1));
        assert(proper_triangle(f, a2));
        lemma_edges_differ(f, a1);
        lemma_edges_differ(f, a2);
        assert(f[3 * a1] < v && f[3 * a1 + 1] < v && f[3 * a1 + 2] < v);
        assert(f[3 * a2] < v && f[3 * a2 + 1] < v && f[3 * a2 + 2] < v);
        lemma_subdivided_same_corners(v, f, a1, q1, a2, q2);
    }
}

/// Edge `j` of the new triangle `q` made from old triangle `t`.
proof fn lemma_new_edge(v: int, f: Seq<u32>, t: int, q: int, j: int)
    requires
        mesh_ok(v, f),
        v + face_edges(f).len() <= u32::MAX,
        0 <= t < f.len() / 3,
        0 <= q < 4,
        0 <= j < 3,
    ensures
        tri_edge(subdivided_faces(v, f), 4 * t + q, j) == norm_edge(
            new_corner(v, f, t, q, j) as u32,
            new_corner(v, f, t, q, (j + 1) % 3) as u32,
        ),
{
    lemma_new_corners(v, f, t, q, j);
    lemma_new_corners(v, f, t, q, (j + 1) % 3);
}

/// The edge between the midpoints of edges `j` and `j + 1` of old
/// triangle `s / 3`, where `j = s % 3`.
spec fn inner_edge(v: int, f: Seq<u32>, s: int) -> (u32, u32) {
    norm_edge(edge_mid(v, f, s / 3, s % 3) as u32, edge_mid(v, f, s / 3, (s % 3 + 1) % 3) as u32)
}

/// The half of edge `e` at its first end.
spec fn low_half(v: int, f: Seq<u32>, e: (u32, u32)) -> (u32, u32) {
    (e.0, mid_of(v, f, e) as u32)
}

/// The half of edge `e` at its second end.
spec fn high_half(v: int, f: Seq<u32>, e: (u32, u32)) -> (u32, u32) {
    (e.1, mid_of(v, f, e) as u32)
}

/// The halves of the old edges at their first ends.
spec fn low_halves(v: int, f: Seq<u32>) -> Set<(u32, u32)> {
    face_edges(f).map(|e: (u32, u32)| low_half(v, f, e))
}

/// The halves of the old edges at their second ends.
spec fn high_halves(v: int, f: Seq<u32>) -> Set<(u32, u32)> {
    face_edges(f).map(|e: (u32, u32)| high_half(v, f, e))
}

/// The edges between midpoints, three per old triangle.
spec fn inner_edges(v: int, f: Seq<u32>) -> Set<(u32, u32)> {
    set_int_range(0, 3 * ((f.len() / 3) as int)).map(|s: int| inner_edge(v, f, s))
}

/// Old edge `e` with end `x` of old triangle `t`: the half of `e` at `x`
/// is a half of the old edges.
proof fn lemma_half_member(v: int, f: Seq<u32>, e: (u32, u32), x: u32)
    requires
        mesh_ok(v, f),
        face_edges(f).contains(e),
        x == e.0 || x == e.1,
    ensures
        low_halves(v, f).union(high_halves(v, f)).contains((x, mid_of(v, f, e) as u32)),
{
    if x == e.0 {
        assert(low_half(v, f, e) == (x, mid_of(v, f, e) as u32));
        assert(low_halves(v, f).contains(low_half(v, f, e)));
    } else {
        assert(high_half(v, f, e) == (x, mid_of(v, f, e) as u32));
        assert(high_halves(v, f).contains(high_half(v, f, e)));
    }
}

/// Slot `s` of the inner edges.
proof fn lemma_inner_member(v: int, f: Seq<u32>, t: int, j: int)
    requires
        0 <= t < f.len() / 3,
        0 <= j < 3,
    ensures
        inner_edges(v, f).contains(inner_edge(v, f, 3 * t + j)),
        inner_edge(v, f, 3 * t + j) == norm_edge(edge_mid(v, f, t, j) as u32, edge_mid(v, f, t, (j + 1) % 3) as u32),
{
    vstd::arithmetic::div_mod::lemma_fundamental_div_mod_converse(3 * t + j, 3, t, j);
    assert(set_int_range(0, 3 * ((f.len() / 3) as int)).contains(3 * t + j));
}

/// The edges of the subdivided mesh: the two halves of every old edge and
/// the three edges between midpoints inside every old triangle.
#[verifier::rlimit(60)]
proof fn lemma_new_edges(v: int, f: Seq<u32>)
    requires
        mesh_ok(v, f),
        v + face_edges(f).len() <= u32::MAX,
    ensures
        face_edges(subdivided_faces(v, f)) == low_halves(v, f).union(high_halves(v, f)).union(inner_edges(v, f)),
{
    lemma_mid_facts(v, f);
    let g = subdivided_faces(v, f);
    let tc = (f.len() / 3) as int;
    let hs = low_halves(v, f).union(high_halves(v, f));
    let all = hs.union(inner_edges(v, f));
    assert(g.len() / 3 == 4 * tc);
    assert forall|y: (u32, u32)| #[trigger] face_edges(g).contains(y) implies all.contains(y) by {
        let (tt, j) = choose|tt: int, j: int| 0 <= tt < g.len() / 3 && 0 <= j < 3 && #[trigger] tri_edge(g, tt, j) == y;
        let (t, q) = lemma_split_index(tt, tc);
        lemma_new_edge(v, f, t, q, j);
        assert(f[3 * t] < v && f[3 * t + 1] < v && f[3 * t + 2] < v);
        assert(proper_triangle(f, t));
        assert(face_edges(f).contains(tri_edge(f, t, 0)) && face_edges(f).contains(tri_edge(f, t, 1)) && face_edges(f).contains(tri_edge(f, t, 2)));
        assert((0 + 1) % 3 == 1 && (1 + 1) % 3 == 2 && (2 + 1) % 3 == 0);
        if q < 3 {
            let p = (q + 2) % 3;
            assert((p + 1) % 3 == q);
            if j == 0 {
                lemma_half_member(v, f, tri_edge(f, t, q), corner(f, t, q));
            } else if j == 1 {
                lemma_inner_member(v, f, t, p);
            } else {
                lemma_half_member(v, f, tri_edge(f, t, p), corner(f, t, q));
            }
        } else {
            lemma_inner_member(v, f, t, j);
        }
    }
    assert forall|y: (u32, u32)| #[trigger] all.contains(y) implies face_edges(g).contains(y) by {
        assert((0 + 1) % 3 == 1 && (1 + 1) % 3 == 2 && (2 + 1) % 3 == 0);
        if inner_edges(v, f).contains(y) {
            let s = choose|s: int| set_int_range(0, 3 * tc).contains(s) && y == inner_edge(v, f, s);
            let t = s / 3;
            let j = s % 3;
            vstd::arithmetic::div_mod::lemma_fundamental_div_mod(s, 3);
            lemma_new_edge(v, f, t, 3, j);
            assert(tri_edge(g, 4 * t + 3, j) == y);
        } else {
            let e = if low_halves(v, f).contains(y) {
                choose|e: (u32, u32)| face_edges(f).contains(e) && y == low_half(v, f, e)
            } else {
                choose|e: (u32, u32)| face_edges(f).contains(e) && y == high_half(v, f, e)
            };
            let x = y.0;
            assert(x == e.0 || x == e.1);
            assert(y == (x, mid_of(v, f, e) as u32));
            let (t, j) = choose|t: int, j: int| 0 <= t < tc && 0 <= j < 3 && #[trigger] tri_edge(f, t, j) == e;
            assert(f[3 * t] < v && f[3 * t + 1] < v && f[3 * t + 2] < v);
            let q2 = (j + 1) % 3;
            assert((q2 + 2) % 3 == j);
            if x == corner(f, t, j) {
                lemma_new_edge(v, f, t, j, 0);
                assert(tri_edge(g, 4 * t + j, 0) == y);
            } else {
                assert(x == corner(f, t, q2));
                lemma_new_edge(v, f, t, q2, 2);
                assert(tri_edge(g, 4 * t + q2, 2) == y);
            }
        }
    }
    assert(face_edges(g) =~= all);
}

/// One round of subdivision turns `m` edges and `n` triangles into
/// `2 * m + 3 * n` edges.
#[verifier::rlimit(60)]
proof fn lemma_new_edge_count(v: int, f: Seq<u32>)
    requires
        mesh_ok(v, f),
        v + face_edges(f).len() <= u32::MAX,
    ensures
        face_edges(subdivided_faces(v, f)).finite(),
        face_edges(subdivided_faces(v, f)).len() == 2 * face_edges(f).len() + 3 * (f.len() / 3),
{
    lemma_mid_facts(v, f);
    lemma_new_edges(v, f);
    let es = face_edges(f);
    let tc = (f.len() / 3) as int;
    let lo = low_halves(v, f);
    let hi = high_halves(v, f);
    let inn = inner_edges(v, f);
    assert(injective_on(|e: (u32, u32)| low_half(v, f, e), es)) by {
        assert forall|e1: (u32, u32), e2: (u32, u32)| es.contains(e1) && es.contains(e2) && #[trigger] low_half(v, f, e1) == #[trigger] low_half(v, f, e2) implies e1 == e2 by {
            assert(mid_of(v, f, e1) == mid_of(v, f, e2));
        }
    }
    assert(injective_on(|e: (u32, u32)| high_half(v, f, e), es)) by {
        assert forall|e1: (u32, u32), e2: (u32, u32)| es.contains(e1) && es.contains(e2) && #[trigger] high_half(v, f, e1) == #[trigger] high_half(v, f, e2) implies e1 == e2 by {
            assert(mid_of(v, f, e1) == mid_of(v, f, e2));
        }
    }
    lemma_map_size(es, lo, |e: (u32, u32)| low_half(v, f, e));
    lemma_map_size(es, hi, |e: (u32, u32)| high_half(v, f, e));
    let range = set_int_range(0, 3 * tc);
    lemma_int_range(0, 3 * tc);
    assert(injective_on(|s: int| inner_edge(v, f, s), range)) by {
        assert forall|s1: int, s2: int| range.contains(s1) && range.contains(s2) && #[trigger] inner_edge(v, f, s1) == #[trigger] inner_edge(v, f, s2) implies s1 == s2 by {
            let t1 = s1 / 3;
            let j1 = s1 % 3;
            let t2 = s2 / 3;
            let j2 = s2 % 3;
            vstd::arithmetic::div_mod::lemma_fundamental_div_mod(s1, 3);
            vstd::arithmetic::div_mod::lemma_fundamental_div_mod(s2, 3);
            assert(0 <= t1 < tc && 0 <= t2 < tc);
            assert(proper_triangle(f, t1) && proper_triangle(f, t2));
            lemma_edges_differ(f, t1);
            lemma_edges_differ(f, t2);
            assert((0 + 1) % 3 == 1 && (1 + 1) % 3 == 2 && (2 + 1) % 3 == 0);
            let k1 = (j1 + 1) % 3;
            let k2 = (j2 + 1) % 3;
            assert(es.contains(tri_edge(f, t1, j1)) && es.contains(tri_edge(f, t1, k1)));
            assert(es.contains(tri_edge(f, t2, j2)) && es.contains(tri_edge(f, t2, k2)));
            if edge_mid(v, f, t1, j1) == edge_mid(v, f, t2, j2) {
                assert(tri_edge(f, t1, j1) == tri_edge(f, t2, j2));
                assert(tri_edge(f, t1, k1) == tri_edge(f, t2, k2));
                lemma_two_edges(f, t1, t2, j1, k1, j2, k2);
            } else {
                assert(tri_edge(f, t1, j1) == tri_edge(f, t2, k2));
                assert(tri_edge(f, t1, k1) == tri_edge(f, t2, j2));
                lemma_two_edges(f, t1, t2, j1, k1, k2, j2);
            }
            assert(t1 == t2);
        }
    }
    lemma_map_size(range, inn, |s: int| inner_edge(v, f, s));
    assert(lo.disjoint(hi)) by {
        assert forall|y: (u32, u32)| lo.contains(y) implies !hi.contains(y) by {
            let e1 = choose|e: (u32, u32)| es.contains(e) && y == low_half(v, f, e);
            if hi.contains(y) {
                let e2 = choose|e: (u32, u32)| es.contains(e) && y == high_half(v, f, e);
                assert(mid_of(v, f, e1) == mid_of(v, f, e2));
            }
        }
    }
    lemma_set_disjoint_lens(lo, hi);
    lemma_len_union(lo, hi);
    assert((lo + hi).disjoint(inn)) by {
        assert forall|y: (u32, u32)| (lo + hi).contains(y) implies !inn.contains(y) by {
            assert((y.0 as int) < v) by {
                if lo.contains(y) {
                    let e = choose|e: (u32, u32)| es.contains(e) && y == low_half(v, f, e);
                } else {
                    let e = choose|e: (u32, u32)| es.contains(e) && y == high_half(v, f, e);
                }
            }
            if inn.contains(y) {
                let s = choose|s: int| range.contains(s) && y == inner_edge(v, f, s);
                let t = s / 3;
                let j = s % 3;
                vstd::arithmetic::div_mod::lemma_fundamental_div_mod(s, 3);
                assert(es.contains(tri_edge(f, t, j)) && es.contains(tri_edge(f, t, (j + 1) % 3)));
            }
        }
    }
    lemma_set_disjoint_lens(lo + hi, inn);
    assert(lo.union(hi).union(inn) == (lo + hi) + inn);
}

/// The icosphere of level `l` has `10 * 4^l + 2` vertices, `30 * 4^l`
/// edges and `20 * 4^l` triangles (three corners each); every triangle has
/// three distinct corners, and no two triangles have the same corners.
pub proof fn lemma_icosphere_counts(l: nat)
    requires
        l <= 12,
    ensures
        icosphere_at(l).0.len() == 10 * pow4(l) + 2,
        icosphere_at(l).1.len() == 60 * pow4(l),
        face_edges(icosphere_at(l).1).finite(),
        face_edges(icosphere_at(l).1).len() == 30 * pow4(l),
        mesh_ok(icosphere_at(l).0.len() as int, icosphere_at(l).1),
    decreases l,
{
    if l == 0 {
        lemma_icosahedron_mesh();
        assert(icosahedron_corners().len() == 12);
        assert(icosahedron_face_list().len() == 60);
        assert(pow4(0) == 1);
    } else {
        let k = (l - 1) as nat;
        lemma_icosphere_counts(k);
        let vs = icosphere_at(k).0;
        let f = icosphere_at(k).1;
        let v = vs.len() as int;
        lemma_pow4_bound(k);
        let p = pow4(k);
        assert(60 * p <= 60 * 4194304);
        assert(v + face_edges(f).len() <= u32::MAX);
        lemma_mid_facts(v, f);
        lemma_subdivided_mesh_ok(v, f);
        lemma_new_edge_count(v, f);
        assert(icosphere_at(l).0 == subdivided_vertices(vs, f));
        assert(icosphere_at(l).1 == subdivided_faces(v, f));
        assert(subdivided_vertices(vs, f).len() == v + edge_order(f, f.len() as int).len());
        assert(f.len() / 3 == 20 * p);
        assert(subdivided_faces(v, f).len() == 4 * f.len());
    }
}

} // verus!
