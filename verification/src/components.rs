//! Connected regions of the mesh: cells with the same non-negative key that
//! are linked through the neighbour lists.
use vstd::prelude::*;
use vstd::set_lib::*;
use crate::geology_types::PlateId;
use crate::mesh::readable_range;
use crate::plates::count_id;
use crate::text::{decimal, usize_to_decimal};

verus! {

/// `v` is listed among the neighbours of `u`.
pub open spec fn nbr_of(offsets: Seq<u32>, nbrs: Seq<u32>, u: int, v: int) -> bool {
    exists|k: int| offsets[u] <= k < offsets[u + 1] && #[trigger] nbrs[k] as int == v
}

/// One step inside a region: `u` takes part (key >= 0) and its neighbour `v`
/// has the same key.
pub open spec fn linked(offsets: Seq<u32>, nbrs: Seq<u32>, key: Seq<int>, u: int, v: int) -> bool {
    &&& 0 <= u < key.len()
    &&& 0 <= v < key.len()
    &&& key[u] >= 0
    &&& key[v] == key[u]
    &&& nbr_of(offsets, nbrs, u, v)
}

/// `p` walks through its region one link at a time.
pub open spec fn is_region_path(offsets: Seq<u32>, nbrs: Seq<u32>, key: Seq<int>, p: Seq<int>) -> bool {
    &&& p.len() >= 1
    &&& 0 <= p[0] < key.len()
    &&& forall|i: int| 0 <= i < p.len() - 1 ==> #[trigger] linked(offsets, nbrs, key, p[i], p[i + 1])
}

/// `v` can be reached from `u` inside its region (every cell reaches itself).
pub open spec fn reaches(offsets: Seq<u32>, nbrs: Seq<u32>, key: Seq<int>, u: int, v: int) -> bool {
    exists|p: Seq<int>| #[trigger] is_region_path(offsets, nbrs, key, p) && p[0] == u && p.last() == v
}

/// No earlier cell reaches `v`: `v` is the first cell of the region found
/// when the cells are scanned in index order.
pub open spec fn is_region_root(offsets: Seq<u32>, nbrs: Seq<u32>, key: Seq<int>, v: int) -> bool {
    forall|u: int| 0 <= u < v ==> !#[trigger] reaches(offsets, nbrs, key, u, v)
}

proof fn lemma_reaches_refl(offsets: Seq<u32>, nbrs: Seq<u32>, key: Seq<int>, u: int)
    requires
        0 <= u < key.len(),
    ensures
        reaches(offsets, nbrs, key, u, u),
{
    let p = seq![u];
    assert(is_region_path(offsets, nbrs, key, p));
}

proof fn lemma_reaches_extend(offsets: Seq<u32>, nbrs: Seq<u32>, key: Seq<int>, u: int, v: int, w: int)
    requires
        reaches(offsets, nbrs, key, u, v),
        linked(offsets, nbrs, key, v, w),
    ensures
        reaches(offsets, nbrs, key, u, w),
{
    let p = choose|p: Seq<int>| #[trigger] is_region_path(offsets, nbrs, key, p) && p[0] == u && p.last() == v;
    let q = p.push(w);
    assert forall|i: int| 0 <= i < q.len() - 1 implies #[trigger] linked(offsets, nbrs, key, q[i], q[i + 1]) by {
        if i < p.len() - 1 {
            assert(q[i] == p[i] && q[i + 1] == p[i + 1]);
        }
    }
    assert(is_region_path(offsets, nbrs, key, q));
}

/// A set closed under region links contains everything its members reach.
proof fn lemma_closed_contains_reached(
    offsets: Seq<u32>,
    nbrs: Seq<u32>,
    key: Seq<int>,
    inside: spec_fn(int) -> bool,
    u: int,
    v: int,
)
    requires
        inside(u),
        forall|x: int, y: int| inside(x) && #[trigger] linked(offsets, nbrs, key, x, y) ==> inside(y),
        reaches(offsets, nbrs, key, u, v),
    ensures
        inside(v),
{
    let p = choose|p: Seq<int>| #[trigger] is_region_path(offsets, nbrs, key, p) && p[0] == u && p.last() == v;
    lemma_closed_path_prefix(offsets, nbrs, key, inside, p, p.len() - 1);
}

proof fn lemma_closed_path_prefix(
    offsets: Seq<u32>,
    nbrs: Seq<u32>,
    key: Seq<int>,
    inside: spec_fn(int) -> bool,
    p: Seq<int>,
    i: int,
)
    requires
        is_region_path(offsets, nbrs, key, p),
        inside(p[0]),
        forall|x: int, y: int| inside(x) && #[trigger] linked(offsets, nbrs, key, x, y) ==> inside(y),
        0 <= i < p.len(),
    ensures
        inside(p[i]),
    decreases i,
{
    if i > 0 {
        lemma_closed_path_prefix(offsets, nbrs, key, inside, p, i - 1);
        let j = i - 1;
        assert(linked(offsets, nbrs, key, p[j], p[j + 1]));
    }
}

/// Keys for counting plate regions: a plate id below `plate_count`, or -1
/// for cells whose id is out of range.
pub open spec fn plate_keys(plate_id: Seq<PlateId>, plate_count: int) -> Seq<int> {
    Seq::new(plate_id.len(), |i: int| if (plate_id[i].0 as int) < plate_count { plate_id[i].0 as int } else { -1 })
}

/// Number of region roots of plate `p` among the first `n` cells.
pub open spec fn root_count(offsets: Seq<u32>, nbrs: Seq<u32>, key: Seq<int>, p: int, n: int) -> nat
    decreases n,
{
    if n <= 0 {
        0
    } else {
        root_count(offsets, nbrs, key, p, n - 1) + if key[n - 1] == p && is_region_root(offsets, nbrs, key, n - 1) {
            1nat
        } else {
            0nat
        }
    }
}

proof fn lemma_root_count_le(offsets: Seq<u32>, nbrs: Seq<u32>, key: Seq<int>, p: int, n: int)
    requires
        n >= 0,
    ensures
        root_count(offsets, nbrs, key, p, n) <= n,
    decreases n,
{
    if n > 0 {
        lemma_root_count_le(offsets, nbrs, key, p, n - 1);
    }
}

proof fn lemma_set_bound(s: Set<int>, n: int)
    requires
        n >= 0,
        forall|x: int| #[trigger] s.contains(x) ==> 0 <= x < n,
    ensures
        s.finite(),
        s.len() <= n,
{
    lemma_int_range(0, n);
    assert(s.subset_of(set_int_range(0, n)));
    lemma_len_subset(s, set_int_range(0, n));
}

/// Number of connected pieces of each plate `0..plate_count`: for plate `p`,
/// the number of cells of `p` not reached from any earlier cell through
/// cells of `p` (for a symmetric adjacency, its number of components).
/// Cells with an id of `plate_count` or more belong to no plate.
pub fn component_counts_by_plate(
    nbr_offsets: &[u32],
    nbrs: &[u32],
    plate_id: &[PlateId],
    plate_count: usize,
) -> (r: Vec<usize>)
    requires
        forall|v: int|
            0 <= v < plate_id@.len() && (plate_id@[v].0 as int) < plate_count ==> #[trigger] readable_range(
                nbr_offsets@,
                nbrs@,
                plate_id@.len() as int,
                v,
            ),
    ensures
        r@.len() == plate_count,
        forall|p: int|
            0 <= p < plate_count ==> #[trigger] r@[p] == root_count(
                nbr_offsets@,
                nbrs@,
                plate_keys(plate_id@, plate_count as int),
                p,
                plate_id@.len() as int,
            ),
{
    let n = plate_id.len();
    let ghost key = plate_keys(plate_id@, plate_count as int);
    let ghost offs = nbr_offsets@;
    let ghost nb = nbrs@;
    let mut components: Vec<usize> = vec![0; plate_count];
    let mut visited: Vec<bool> = vec![false; n];
    let mut stack: Vec<usize> = Vec::new();
    let mut start_v: usize = 0;
    while start_v < n
        invariant
            0 <= start_v <= n,
            n == plate_id@.len(),
            key == plate_keys(plate_id@, plate_count as int),
            offs == nbr_offsets@,
            nb == nbrs@,
            forall|u: int| 0 <= u < n && key[u] >= 0 ==> #[trigger] readable_range(offs, nb, n as int, u),
            visited@.len() == n,
            components@.len() == plate_count,
            stack@.len() == 0,
            forall|x: int| 0 <= x < n ==> (#[trigger] visited@[x] <==> exists|u: int| 0 <= u < start_v && #[trigger] reaches(offs, nb, key, u, x)),
            forall|p: int| 0 <= p < plate_count ==> #[trigger] components@[p] == root_count(offs, nb, key, p, start_v as int),
        decreases n - start_v,
    {
        let ghost vis0 = visited@;
        proof {
            assert forall|p: int| 0 <= p < plate_count implies #[trigger] root_count(offs, nb, key, p, start_v + 1)
                == root_count(offs, nb, key, p, start_v as int) + if key[start_v as int] == p && is_region_root(offs, nb, key, start_v as int) { 1nat } else { 0nat } by {}
            assert(is_region_root(offs, nb, key, start_v as int) == !vis0[start_v as int]);
        }
        if visited[start_v] {
            proof {
                assert forall|x: int| 0 <= x < n implies (#[trigger] visited@[x] <==> exists|u: int| 0 <= u < start_v + 1 && #[trigger] reaches(offs, nb, key, u, x)) by {
                    if exists|u: int| 0 <= u < start_v + 1 && #[trigger] reaches(offs, nb, key, u, x) {
                        let u = choose|u: int| 0 <= u < start_v + 1 && #[trigger] reaches(offs, nb, key, u, x);
                        if u == start_v as int {
                            let w = choose|w: int| 0 <= w < start_v && #[trigger] reaches(offs, nb, key, w, start_v as int);
                            let inside = |z: int| 0 <= z < n && vis0[z];
                            assert forall|a: int, b: int| inside(a) && #[trigger] linked(offs, nb, key, a, b) implies inside(b) by {
                                let w2 = choose|w2: int| 0 <= w2 < start_v && #[trigger] reaches(offs, nb, key, w2, a);
                                lemma_reaches_extend(offs, nb, key, w2, a, b);
                            }
                            lemma_closed_contains_reached(offs, nb, key, inside, start_v as int, x);
                        }
                    }
                }
            }
            start_v += 1;
            continue;
        }
        visited.set(start_v, true);
        let plate = plate_id[start_v].as_usize();
        if plate >= plate_count {
            proof {
                assert forall|x: int| 0 <= x < n implies (#[trigger] visited@[x] <==> exists|u: int| 0 <= u < start_v + 1 && #[trigger] reaches(offs, nb, key, u, x)) by {
                    if x == start_v as int {
                        lemma_reaches_refl(offs, nb, key, x);
                    }
                    if exists|u: int| 0 <= u < start_v + 1 && #[trigger] reaches(offs, nb, key, u, x) {
                        let u = choose|u: int| 0 <= u < start_v + 1 && #[trigger] reaches(offs, nb, key, u, x);
                        if u == start_v as int && x != start_v as int {
                            let p = choose|p: Seq<int>| #[trigger] is_region_path(offs, nb, key, p) && p[0] == u && p.last() == x;
                            let z: int = 0;
                            assert(linked(offs, nb, key, p[z], p[z + 1]));
                        }
                    }
                }
            }
            start_v += 1;
            continue;
        }
        proof {
            lemma_root_count_le(offs, nb, key, plate as int, start_v as int);
        }
        components.set(plate, components[plate] + 1);
        stack.push(start_v);
        let ghost s = start_v as int;
        let ghost mut sset: Set<int> = set![s];
        proof {
            lemma_reaches_refl(offs, nb, key, s);
            assert(stack@[0] == start_v);
            assert(stack@.contains(start_v));
        }
        while stack.len() > 0
            invariant
                sset.contains(s),
                n == plate_id@.len(),
                key == plate_keys(plate_id@, plate_count as int),
                offs == nbr_offsets@,
                nb == nbrs@,
                forall|u: int| 0 <= u < n && key[u] >= 0 ==> #[trigger] readable_range(offs, nb, n as int, u),
                0 <= s < n,
                key[s] == plate as int,
                plate < plate_count,
                visited@.len() == n,
                forall|t: int| 0 <= t < stack@.len() ==> sset.contains(#[trigger] stack@[t] as int),
                forall|x: int| #[trigger] sset.contains(x) ==> 0 <= x < n && reaches(offs, nb, key, s, x) && key[x] == key[s],
                forall|x: int| 0 <= x < n ==> (#[trigger] visited@[x] <==> (vis0[x] || sset.contains(x))),
                forall|x: int| sset.contains(x) ==> !#[trigger] vis0[x],
                forall|x: int, y: int| sset.contains(x) && !stack@.contains(x as usize) && #[trigger] linked(offs, nb, key, x, y) ==> visited@[y],
                stack@.no_duplicates(),
            decreases (n - sset.len()) * 2 + stack@.len(),
        {
            proof {
                lemma_set_bound(sset, n as int);
            }
            let ghost stack_pre = stack@;
            let v = stack.pop().unwrap();
            let ghost sset_before = sset;
            let ghost stack_mid = stack@;
            proof {
                assert(stack_pre == stack_mid.push(v));
                assert(!stack_mid.contains(v)) by {
                    if stack_mid.contains(v) {
                        let t = choose|t: int| 0 <= t < stack_mid.len() && stack_mid[t] == v;
                        assert(stack_pre[t] == stack_pre[stack_pre.len() - 1]);
                    }
                }
                assert(sset.contains(stack_pre[stack_pre.len() - 1] as int));
            }
            proof {
                assert(readable_range(offs, nb, n as int, v as int));
            }
            let start = nbr_offsets[v] as usize;
            let end = nbr_offsets[v + 1] as usize;
            let mut k = start;
            while k < end
                invariant
                    start <= k <= end,
                    end <= nb.len(),
                    start == offs[v as int],
                    end == offs[v + 1],
                    readable_range(offs, nb, n as int, v as int),
                    n == plate_id@.len(),
                    key == plate_keys(plate_id@, plate_count as int),
                    offs == nbr_offsets@,
                    nb == nbrs@,
                    forall|u: int| 0 <= u < n && key[u] >= 0 ==> #[trigger] readable_range(offs, nb, n as int, u),
                    0 <= s < n,
                    0 <= v < n,
                    sset.contains(v as int),
                    sset.contains(s),
                    sset_before.subset_of(sset),
                    key[s] == plate as int,
                    visited@.len() == n,
                    forall|t: int| 0 <= t < stack@.len() ==> sset.contains(#[trigger] stack@[t] as int),
                    forall|x: int| #[trigger] sset.contains(x) ==> 0 <= x < n && reaches(offs, nb, key, s, x) && key[x] == key[s],
                    forall|x: int| 0 <= x < n ==> (#[trigger] visited@[x] <==> (vis0[x] || sset.contains(x))),
                    forall|x: int| sset.contains(x) ==> !#[trigger] vis0[x],
                    forall|x: int, y: int| sset.contains(x) && x != v && !stack@.contains(x as usize) && #[trigger] linked(offs, nb, key, x, y) ==> visited@[y],
                    forall|j: int| start <= j < k ==> #[trigger] visited@[nb[j] as int] || key[nb[j] as int] != plate as int,
                    stack@.no_duplicates(),
                    !stack@.contains(v),
                    sset.finite(),
                    sset_before.finite(),
                    stack@.len() >= stack_mid.len(),
                    sset.len() == sset_before.len() + (stack@.len() - stack_mid.len()),
                decreases end - k,
            {
                let nn = nbrs[k] as usize;
                if !visited[nn] && plate_id[nn].as_usize() == plate {
                    let ghost vis_b = visited@;
                    let ghost stack_b = stack@;
                    visited.set(nn, true);
                    proof {
                        assert(linked(offs, nb, key, v as int, nn as int));
                        lemma_reaches_extend(offs, nb, key, s, v as int, nn as int);
                        assert(!sset.contains(nn as int));
                        assert(!stack@.contains(nn)) by {
                            if stack@.contains(nn) {
                                let t = choose|t: int| 0 <= t < stack@.len() && stack@[t] == nn;
                                assert(sset.contains(stack@[t] as int));
                            }
                        }
                        sset = sset.insert(nn as int);
                    }
                    stack.push(nn);
                    proof {
                        assert(stack@ == stack_b.push(nn));
                        assert forall|t: int| 0 <= t < stack@.len() implies sset.contains(#[trigger] stack@[t] as int) by {
                            if t < stack@.len() - 1 {
                                assert(stack_b[t] == stack@[t]);
                            }
                        }
                        assert forall|x: int, y: int| sset.contains(x) && x != v && !stack@.contains(x as usize) && #[trigger] linked(offs, nb, key, x, y) implies visited@[y] by {
                            assert(x != nn as int) by {
                                assert(stack@[stack@.len() - 1] == nn);
                            }
                            assert(!stack_b.contains(x as usize)) by {
                                if stack_b.contains(x as usize) {
                                    let t = choose|t: int| 0 <= t < stack_b.len() && stack_b[t] == x as usize;
                                    assert(stack@[t] == x as usize);
                                }
                            }
                            assert(vis_b[y]);
                        }
                        assert(stack@.no_duplicates()) by {
                            assert forall|a: int, b: int| 0 <= a < b < stack@.len() implies stack@[a] != stack@[b] by {
                                if b == stack@.len() - 1 {
                                    assert(stack_b.contains(stack_b[a]));
                                } else {
                                    assert(stack_b[a] != stack_b[b]);
                                }
                            }
                        }
                        assert(!stack@.contains(v)) by {
                            if stack@.contains(v) {
                                let t = choose|t: int| 0 <= t < stack@.len() && stack@[t] == v;
                                if t < stack_b.len() {
                                    assert(stack_b[t] == v);
                                }
                            }
                        }
                    }
                }
                k += 1;
            }
            proof {
                assert forall|y: int| linked(offs, nb, key, v as int, y) implies visited@[y] by {
                    let j = choose|j: int| offs[v as int] <= j < offs[v + 1] && #[trigger] nb[j] as int == y;
                    assert(visited@[nb[j] as int] || key[nb[j] as int] != plate as int);
                }
                lemma_set_bound(sset, n as int);
            }
        }
        proof {
            assert forall|x: int| 0 <= x < n implies (#[trigger] visited@[x] <==> exists|u: int| 0 <= u < start_v + 1 && #[trigger] reaches(offs, nb, key, u, x)) by {
                if visited@[x] {
                    if vis0[x] {
                        let u = choose|u: int| 0 <= u < start_v && #[trigger] reaches(offs, nb, key, u, x);
                        assert(reaches(offs, nb, key, u, x));
                    } else {
                        assert(reaches(offs, nb, key, s, x));
                    }
                }
                if exists|u: int| 0 <= u < start_v + 1 && #[trigger] reaches(offs, nb, key, u, x) {
                    let u = choose|u: int| 0 <= u < start_v + 1 && #[trigger] reaches(offs, nb, key, u, x);
                    let inside = |z: int| 0 <= z < n && visited@[z];
                    assert forall|a: int, b: int| inside(a) && #[trigger] linked(offs, nb, key, a, b) implies inside(b) by {
                        if vis0[a] {
                            let w2 = choose|w2: int| 0 <= w2 < start_v && #[trigger] reaches(offs, nb, key, w2, a);
                            lemma_reaches_extend(offs, nb, key, w2, a, b);
                        } else {
                            assert(sset.contains(a));
                        }
                    }
                    if u == s {
                        lemma_closed_contains_reached(offs, nb, key, inside, u, x);
                    } else {
                        assert(vis0[x]) by {
                            assert(reaches(offs, nb, key, u, x));
                        }
                    }
                }
            }
        }
        start_v += 1;
    }
    components
}

/// Cell `c` names a plate outside `0..plate_count`.
pub open spec fn invalid_cell(plate_id: Seq<PlateId>, plate_count: int, c: int) -> bool {
    plate_id[c].0 as int >= plate_count
}

/// Plate `p` has no cell.
pub open spec fn empty_plate(plate_id: Seq<PlateId>, p: int) -> bool {
    count_id(plate_id, p, plate_id.len() as int) == 0
}

/// Plate `p` falls apart into more than one piece.
pub open spec fn split_plate(offsets: Seq<u32>, nbrs: Seq<u32>, plate_id: Seq<PlateId>, plate_count: int, p: int) -> bool {
    root_count(offsets, nbrs, plate_keys(plate_id, plate_count), p, plate_id.len() as int) > 1
}

/// What a partition check reports: the first problem found, in this order:
/// no plates, the first cell with an out-of-range id, the first empty plate,
/// the first plate in several pieces; `None` for a valid partition.
pub open spec fn partition_problem(offsets: Seq<u32>, nbrs: Seq<u32>, plate_id: Seq<PlateId>, plate_count: int) -> Option<Seq<char>> {
    let n = plate_id.len() as int;
    if plate_count == 0 {
        Some("plate_count is zero"@)
    } else if exists|c: int| 0 <= c < n && #[trigger] invalid_cell(plate_id, plate_count, c) {
        let c = choose|c: int| 0 <= c < n && #[trigger] invalid_cell(plate_id, plate_count, c)
            && forall|d: int| 0 <= d < c ==> !#[trigger] invalid_cell(plate_id, plate_count, d);
        Some("cell "@ + decimal(c as nat) + " has invalid plate_id "@ + decimal(plate_id[c].0 as nat)
            + "; plate_count="@ + decimal(plate_count as nat))
    } else if exists|p: int| 0 <= p < plate_count && #[trigger] empty_plate(plate_id, p) {
        let p = choose|p: int| 0 <= p < plate_count && #[trigger] empty_plate(plate_id, p)
            && forall|q: int| 0 <= q < p ==> !#[trigger] empty_plate(plate_id, q);
        Some("plate "@ + decimal(p as nat) + " is empty"@)
    } else if exists|p: int| 0 <= p < plate_count && #[trigger] split_plate(offsets, nbrs, plate_id, plate_count, p) {
        let p = choose|p: int| 0 <= p < plate_count && #[trigger] split_plate(offsets, nbrs, plate_id, plate_count, p)
            && forall|q: int| 0 <= q < p ==> !#[trigger] split_plate(offsets, nbrs, plate_id, plate_count, q);
        Some("plate "@ + decimal(p as nat) + " has "@ + decimal(root_count(offsets, nbrs, plate_keys(plate_id, plate_count), p, n))
            + " disconnected components"@)
    } else {
        None
    }
}

/// Checks that the cells form `plate_count` non-empty plates, each in one
/// piece; the error names the first problem (see `partition_problem`).
pub fn validate_plate_partition(
    nbr_offsets: &[u32],
    nbrs: &[u32],
    plate_id: &[PlateId],
    plate_count: usize,
) -> (r: Result<(), String>)
    requires
        plate_count > 0 && (forall|c: int| 0 <= c < plate_id@.len() ==> !#[trigger] invalid_cell(plate_id@, plate_count as int, c))
            && (forall|p: int| 0 <= p < plate_count ==> !#[trigger] empty_plate(plate_id@, p)) ==> forall|v: int|
            0 <= v < plate_id@.len() ==> #[trigger] readable_range(nbr_offsets@, nbrs@, plate_id@.len() as int, v),
    ensures
        match r {
            Ok(()) => partition_problem(nbr_offsets@, nbrs@, plate_id@, plate_count as int) is None,
            Err(m) => partition_problem(nbr_offsets@, nbrs@, plate_id@, plate_count as int) == Some(m@),
        },
{
    proof {
        reveal_strlit("plate_count is zero");
        reveal_strlit("cell ");
        reveal_strlit(" has invalid plate_id ");
        reveal_strlit("; plate_count=");
        reveal_strlit("plate ");
        reveal_strlit(" is empty");
        reveal_strlit(" has ");
        reveal_strlit(" disconnected components");
    }
    let ghost pid = plate_id@;
    let ghost pc = plate_count as int;
    if plate_count == 0 {
        return Err(String::from_str("plate_count is zero"));
    }
    let n = plate_id.len();
    let mut counts: Vec<usize> = vec![0; plate_count];
    let mut cell: usize = 0;
    while cell < n
        invariant
            0 <= cell <= n,
            n == pid.len(),
            pid == plate_id@,
            pc == plate_count,
            plate_count > 0,
            counts@.len() == plate_count,
            forall|d: int| 0 <= d < cell ==> !#[trigger] invalid_cell(pid, pc, d),
            forall|p: int| 0 <= p < plate_count ==> #[trigger] counts@[p] == count_id(pid, p, cell as int) && counts@[p] <= cell,
        decreases n - cell,
    {
        let p = plate_id[cell].as_usize();
        if p >= plate_count {
            proof {
                assert(invalid_cell(pid, pc, cell as int));
                let c = choose|c: int| 0 <= c < n && #[trigger] invalid_cell(pid, pc, c)
                    && forall|d: int| 0 <= d < c ==> !#[trigger] invalid_cell(pid, pc, d);
                if c < cell {
                } else if c > cell {
                    assert(!invalid_cell(pid, pc, cell as int));
                }
                assert(c == cell);
            }
            let msg = String::from_str("cell ").concat(usize_to_decimal(cell).as_str()).concat(
                " has invalid plate_id ",
            ).concat(usize_to_decimal(p).as_str()).concat("; plate_count=").concat(
                usize_to_decimal(plate_count).as_str(),
            );
            return Err(msg);
        }
        counts.set(p, counts[p] + 1);
        cell += 1;
    }
    proof {
        assert(!exists|c: int| 0 <= c < n && #[trigger] invalid_cell(pid, pc, c));
    }
    let mut q: usize = 0;
    while q < plate_count
        invariant
            0 <= q <= plate_count,
            counts@.len() == plate_count,
            pid == plate_id@,
            pc == plate_count,
            forall|p: int| 0 <= p < plate_count ==> #[trigger] counts@[p] == count_id(pid, p, pid.len() as int),
            forall|p: int| 0 <= p < q ==> !#[trigger] empty_plate(pid, p),
            !exists|c: int| 0 <= c < pid.len() && #[trigger] invalid_cell(pid, pc, c),
            plate_count > 0,
        decreases plate_count - q,
    {
        if counts[q] == 0 {
            proof {
                assert(empty_plate(pid, q as int));
                let c = choose|c: int| 0 <= c < pc && #[trigger] empty_plate(pid, c)
                    && forall|d: int| 0 <= d < c ==> !#[trigger] empty_plate(pid, d);
                if c > q {
                    assert(!empty_plate(pid, q as int));
                }
                assert(c == q);
            }
            let msg = String::from_str("plate ").concat(usize_to_decimal(q).as_str()).concat(" is empty");
            return Err(msg);
        }
        q += 1;
    }
    proof {
        assert(!exists|x: int| 0 <= x < pc && #[trigger] empty_plate(pid, x));
    }
    let components = component_counts_by_plate(nbr_offsets, nbrs, plate_id, plate_count);
    let mut p: usize = 0;
    while p < plate_count
        invariant
            0 <= p <= plate_count,
            components@.len() == plate_count,
            pid == plate_id@,
            pc == plate_count,
            forall|x: int| 0 <= x < plate_count ==> #[trigger] components@[x] == root_count(
                nbr_offsets@,
                nbrs@,
                plate_keys(pid, pc),
                x,
                pid.len() as int,
            ),
            forall|x: int| 0 <= x < p ==> !#[trigger] split_plate(nbr_offsets@, nbrs@, pid, pc, x),
            !exists|c: int| 0 <= c < pid.len() && #[trigger] invalid_cell(pid, pc, c),
            !exists|x: int| 0 <= x < pc && #[trigger] empty_plate(pid, x),
            plate_count > 0,
        decreases plate_count - p,
    {
        if components[p] > 1 {
            proof {
                assert(split_plate(nbr_offsets@, nbrs@, pid, pc, p as int));
                let c = choose|c: int| 0 <= c < pc && #[trigger] split_plate(nbr_offsets@, nbrs@, pid, pc, c)
                    && forall|d: int| 0 <= d < c ==> !#[trigger] split_plate(nbr_offsets@, nbrs@, pid, pc, d);
                if c > p {
                    assert(!split_plate(nbr_offsets@, nbrs@, pid, pc, p as int));
                }
                assert(c == p);
            }
            let msg = String::from_str("plate ").concat(usize_to_decimal(p).as_str()).concat(" has ").concat(
                usize_to_decimal(components[p]).as_str(),
            ).concat(" disconnected components");
            return Err(msg);
        }
        p += 1;
    }
    Ok(())
}

/// Keys for boundary islands: boundary cells share key 0, other cells take no part.
pub open spec fn mask_keys(mask: Seq<bool>) -> Seq<int> {
    Seq::new(mask.len(), |i: int| if mask[i] { 0int } else { -1int })
}

/// `u` is the island root of `x`: the first boundary cell from which `x` can
/// be reached through boundary cells.
pub open spec fn island_owner(offsets: Seq<u32>, nbrs: Seq<u32>, mask: Seq<bool>, u: int, x: int) -> bool {
    &&& 0 <= u < mask.len()
    &&& mask[u]
    &&& reaches(offsets, nbrs, mask_keys(mask), u, x)
    &&& forall|w: int| 0 <= w < u && mask[w] ==> !#[trigger] reaches(offsets, nbrs, mask_keys(mask), w, x)
}

/// The island rooted at `u`: the boundary cells whose island root is `u`.
pub open spec fn island_of(offsets: Seq<u32>, nbrs: Seq<u32>, mask: Seq<bool>, u: int) -> Set<int> {
    Set::new(|x: int| 0 <= x < mask.len() && island_owner(offsets, nbrs, mask, u, x))
}

/// A boundary cell survives when its island has at least `min_size` cells.
pub open spec fn island_kept(offsets: Seq<u32>, nbrs: Seq<u32>, mask: Seq<bool>, min_size: int, x: int) -> bool {
    mask[x] && exists|u: int| #[trigger] island_owner(offsets, nbrs, mask, u, x) && island_of(offsets, nbrs, mask, u).len() >= min_size
}

/// Clears every boundary island with fewer than `min_size` cells. Islands
/// are found by scanning the cells in index order and collecting, from each
/// boundary cell not yet collected, the boundary cells it reaches (for a
/// symmetric adjacency, the connected components of the boundary).
pub fn remove_tiny_boundary_islands(
    nbr_offsets: &[u32],
    nbrs: &[u32],
    boundary_mask: &mut [bool],
    min_size: usize,
)
    requires
        forall|v: int|
            0 <= v < old(boundary_mask)@.len() && old(boundary_mask)@[v] ==> #[trigger] readable_range(
                nbr_offsets@,
                nbrs@,
                old(boundary_mask)@.len() as int,
                v,
            ),
    ensures
        final(boundary_mask)@.len() == old(boundary_mask)@.len(),
        forall|x: int| 0 <= x < old(boundary_mask)@.len() ==> #[trigger] final(boundary_mask)@[x] == island_kept(
            nbr_offsets@,
            nbrs@,
            old(boundary_mask)@,
            min_size as int,
            x,
        ),
        forall|x: int| 0 <= x < old(boundary_mask)@.len() && #[trigger] final(boundary_mask)@[x] ==> old(boundary_mask)@[x],
{
    let n = boundary_mask.len();
    let ghost orig = boundary_mask@;
    let ghost key = mask_keys(orig);
    let ghost offs = nbr_offsets@;
    let ghost nb = nbrs@;
    let mut visited: Vec<bool> = vec![false; n];
    let mut stack: Vec<usize> = Vec::new();
    let mut start_v: usize = 0;
    while start_v < n
        invariant
            0 <= start_v <= n,
            n == orig.len(),
            boundary_mask@.len() == n,
            key == mask_keys(orig),
            offs == nbr_offsets@,
            nb == nbrs@,
            forall|u: int| 0 <= u < n && key[u] >= 0 ==> #[trigger] readable_range(offs, nb, n as int, u),
            visited@.len() == n,
            stack@.len() == 0,
            forall|x: int| 0 <= x < n ==> (#[trigger] visited@[x] <==> exists|u: int| 0 <= u < start_v && orig[u] && #[trigger] reaches(offs, nb, key, u, x)),
            forall|x: int| 0 <= x < n && !visited@[x] ==> #[trigger] boundary_mask@[x] == orig[x],
            forall|x: int| 0 <= x < n && visited@[x] ==> #[trigger] boundary_mask@[x] == island_kept(offs, nb, orig, min_size as int, x),
            forall|x: int| 0 <= x < start_v && orig[x] ==> #[trigger] visited@[x],
        decreases n - start_v,
    {
        let ghost vis0 = visited@;
        let ghost mask0 = boundary_mask@;
        if visited[start_v] || !boundary_mask[start_v] {
            proof {
                assert forall|x: int| 0 <= x < n implies (#[trigger] visited@[x] <==> exists|u: int| 0 <= u < start_v + 1 && orig[u] && #[trigger] reaches(offs, nb, key, u, x)) by {
                    if exists|u: int| 0 <= u < start_v + 1 && orig[u] && #[trigger] reaches(offs, nb, key, u, x) {
                        let u = choose|u: int| 0 <= u < start_v + 1 && orig[u] && #[trigger] reaches(offs, nb, key, u, x);
                        if u == start_v as int {
                            if vis0[u] {
                                let w = choose|w: int| 0 <= w < start_v && orig[w] && #[trigger] reaches(offs, nb, key, w, start_v as int);
                                let inside = |z: int| 0 <= z < n && vis0[z];
                                assert forall|a: int, b: int| inside(a) && #[trigger] linked(offs, nb, key, a, b) implies inside(b) by {
                                    let w2 = choose|w2: int| 0 <= w2 < start_v && orig[w2] && #[trigger] reaches(offs, nb, key, w2, a);
                                    lemma_reaches_extend(offs, nb, key, w2, a, b);
                                }
                                lemma_closed_contains_reached(offs, nb, key, inside, start_v as int, x);
                            }
                        }
                    }
                }
                if !vis0[start_v as int] {
                    assert(!orig[start_v as int]);
                }
            }
            start_v += 1;
            continue;
        }
        visited.set(start_v, true);
        let ghost s = start_v as int;
        let ghost mut sset: Set<int> = set![s];
        let mut component: Vec<usize> = Vec::new();
        stack.push(start_v);
        proof {
            lemma_reaches_refl(offs, nb, key, s);
            assert(stack@[0] == start_v);
            assert(orig[s]);
        }
        while stack.len() > 0
            invariant
                n == orig.len(),
                boundary_mask@ == mask0,
                mask0.len() == n,
                forall|t: int| 0 <= t < stack@.len() ==> #[trigger] stack@[t] < n,
                forall|t: int| 0 <= t < component@.len() ==> #[trigger] component@[t] < n,
                key == mask_keys(orig),
                offs == nbr_offsets@,
                nb == nbrs@,
                forall|u: int| 0 <= u < n && key[u] >= 0 ==> #[trigger] readable_range(offs, nb, n as int, u),
                0 <= s < n,
                orig[s],
                sset.contains(s),
                visited@.len() == n,
                forall|x: int| 0 <= x < n && !vis0[x] ==> #[trigger] mask0[x] == orig[x],
                forall|x: int| 0 <= x < n ==> (#[trigger] sset.contains(x) <==> (component@.contains(x as usize) || stack@.contains(x as usize))),
                forall|t: int| 0 <= t < stack@.len() ==> !component@.contains(#[trigger] stack@[t]),
                forall|x: int| #[trigger] sset.contains(x) ==> 0 <= x < n && reaches(offs, nb, key, s, x) && orig[x],
                forall|x: int| 0 <= x < n ==> (#[trigger] visited@[x] <==> (vis0[x] || sset.contains(x))),
                forall|x: int| sset.contains(x) ==> !#[trigger] vis0[x],
                forall|x: int, y: int| sset.contains(x) && !stack@.contains(x as usize) && #[trigger] linked(offs, nb, key, x, y) ==> visited@[y],
                stack@.no_duplicates(),
                component@.no_duplicates(),
                sset.finite(),
            decreases (n - sset.len()) * 2 + stack@.len(),
        {
            proof {
                lemma_set_bound(sset, n as int);
            }
            let ghost stack_pre = stack@;
            let ghost comp_pre = component@;
            let v = stack.pop().unwrap();
            component.push(v);
            let ghost sset_before = sset;
            let ghost stack_mid = stack@;
            proof {
                assert(stack_pre == stack_mid.push(v));
                assert(!stack_mid.contains(v)) by {
                    if stack_mid.contains(v) {
                        let t = choose|t: int| 0 <= t < stack_mid.len() && stack_mid[t] == v;
                        assert(stack_pre[t] == stack_pre[stack_pre.len() - 1]);
                    }
                }
                assert(sset.contains(stack_pre[stack_pre.len() - 1] as int));
                assert(!comp_pre.contains(v)) by {
                    assert(!comp_pre.contains(stack_pre[stack_pre.len() - 1]));
                }
                assert(component@ == comp_pre.push(v));
                assert forall|x: int| 0 <= x < n implies (#[trigger] sset.contains(x) <==> (component@.contains(x as usize) || stack@.contains(x as usize))) by {
                    if comp_pre.contains(x as usize) {
                        let t = choose|t: int| 0 <= t < comp_pre.len() && comp_pre[t] == x as usize;
                        assert(component@[t] == x as usize);
                    }
                    if stack_pre.contains(x as usize) {
                        let t = choose|t: int| 0 <= t < stack_pre.len() && stack_pre[t] == x as usize;
                        if t < stack_mid.len() {
                            assert(stack_mid[t] == x as usize);
                        } else {
                            assert(component@[component@.len() - 1] == x as usize);
                        }
                    }
                    if component@.contains(x as usize) {
                        let t = choose|t: int| 0 <= t < component@.len() && component@[t] == x as usize;
                        if t < comp_pre.len() {
                            assert(comp_pre[t] == x as usize);
                        } else {
                            assert(stack_pre[stack_pre.len() - 1] == x as usize);
                        }
                    }
                    if stack_mid.contains(x as usize) {
                        let t = choose|t: int| 0 <= t < stack_mid.len() && stack_mid[t] == x as usize;
                        assert(stack_pre[t] == x as usize);
                    }
                }
                assert forall|t: int| 0 <= t < stack@.len() implies !component@.contains(#[trigger] stack@[t]) by {
                    assert(stack_pre[t] == stack@[t]);
                    assert(!comp_pre.contains(stack_pre[t]));
                    if component@.contains(stack@[t]) {
                        let u = choose|u: int| 0 <= u < component@.len() && component@[u] == stack@[t];
                        if u < comp_pre.len() {
                            assert(comp_pre[u] == stack@[t]);
                        } else {
                            assert(stack_pre[t] == stack_pre[stack_pre.len() - 1]);
                        }
                    }
                }
                assert(component@.no_duplicates()) by {
                    assert forall|a: int, b: int| 0 <= a < b < component@.len() implies component@[a] != component@[b] by {
                        if b == component@.len() - 1 {
                            assert(comp_pre.contains(comp_pre[a]));
                        } else {
                            assert(comp_pre[a] != comp_pre[b]);
                        }
                    }
                }
            }
            proof {
                assert(readable_range(offs, nb, n as int, v as int));
            }
            let start = nbr_offsets[v] as usize;
            let end = nbr_offsets[v + 1] as usize;
            let mut k = start;
            while k < end
                invariant
                    start <= k <= end,
                    end <= nb.len(),
                    start == offs[v as int],
                    end == offs[v + 1],
                    readable_range(offs, nb, n as int, v as int),
                    n == orig.len(),
                    boundary_mask@ == mask0,
                    mask0.len() == n,
                    forall|t: int| 0 <= t < stack@.len() ==> #[trigger] stack@[t] < n,
                    forall|t: int| 0 <= t < component@.len() ==> #[trigger] component@[t] < n,
                    key == mask_keys(orig),
                    offs == nbr_offsets@,
                    nb == nbrs@,
                    forall|u: int| 0 <= u < n && key[u] >= 0 ==> #[trigger] readable_range(offs, nb, n as int, u),
                    0 <= s < n,
                    0 <= v < n,
                    sset.contains(v as int),
                    sset.contains(s),
                    sset_before.subset_of(sset),
                    orig[s],
                    visited@.len() == n,
                    forall|x: int| 0 <= x < n && !vis0[x] ==> #[trigger] mask0[x] == orig[x],
                    forall|x: int| 0 <= x < n ==> (#[trigger] sset.contains(x) <==> (component@.contains(x as usize) || stack@.contains(x as usize))),
                    forall|t: int| 0 <= t < stack@.len() ==> !component@.contains(#[trigger] stack@[t]),
                    forall|x: int| #[trigger] sset.contains(x) ==> 0 <= x < n && reaches(offs, nb, key, s, x) && orig[x],
                    forall|x: int| 0 <= x < n ==> (#[trigger] visited@[x] <==> (vis0[x] || sset.contains(x))),
                    forall|x: int| sset.contains(x) ==> !#[trigger] vis0[x],
                    forall|x: int, y: int| sset.contains(x) && x != v && !stack@.contains(x as usize) && #[trigger] linked(offs, nb, key, x, y) ==> visited@[y],
                    forall|j: int| start <= j < k ==> #[trigger] visited@[nb[j] as int] || !orig[nb[j] as int],
                    stack@.no_duplicates(),
                    component@.no_duplicates(),
                    !stack@.contains(v),
                    sset.finite(),
                    sset_before.finite(),
                    stack@.len() >= stack_mid.len(),
                    sset.len() == sset_before.len() + (stack@.len() - stack_mid.len()),
                decreases end - k,
            {
                let nn = nbrs[k] as usize;
                if !visited[nn] && boundary_mask[nn] {
                    let ghost vis_b = visited@;
                    let ghost stack_b = stack@;
                    visited.set(nn, true);
                    proof {
                        assert(mask0[nn as int] == orig[nn as int]);
                        assert(linked(offs, nb, key, v as int, nn as int));
                        lemma_reaches_extend(offs, nb, key, s, v as int, nn as int);
                        assert(!sset.contains(nn as int));
                        assert(!stack@.contains(nn)) by {
                            if stack@.contains(nn) {
                                let t = choose|t: int| 0 <= t < stack@.len() && stack@[t] == nn;
                                assert(sset.contains(stack@[t] as int));
                            }
                        }
                        assert(!component@.contains(nn)) by {
                            if component@.contains(nn) {
                                assert(sset.contains(nn as int));
                            }
                        }
                        sset = sset.insert(nn as int);
                    }
                    stack.push(nn);
                    proof {
                        assert(stack@ == stack_b.push(nn));
                        assert forall|x: int| 0 <= x < n implies (#[trigger] sset.contains(x) <==> (component@.contains(x as usize) || stack@.contains(x as usize))) by {
                            if stack_b.contains(x as usize) {
                                let t = choose|t: int| 0 <= t < stack_b.len() && stack_b[t] == x as usize;
                                assert(stack@[t] == x as usize);
                            }
                            if stack@.contains(x as usize) {
                                let t = choose|t: int| 0 <= t < stack@.len() && stack@[t] == x as usize;
                                if t < stack_b.len() {
                                    assert(stack_b[t] == x as usize);
                                }
                            }
                            if x == nn as int {
                                assert(stack@[stack@.len() - 1] == nn);
                            }
                        }
                        assert forall|t: int| 0 <= t < stack@.len() implies !component@.contains(#[trigger] stack@[t]) by {
                            if t < stack_b.len() {
                                assert(stack_b[t] == stack@[t]);
                            }
                        }
                        assert forall|x: int, y: int| sset.contains(x) && x != v && !stack@.contains(x as usize) && #[trigger] linked(offs, nb, key, x, y) implies visited@[y] by {
                            assert(x != nn as int) by {
                                assert(stack@[stack@.len() - 1] == nn);
                            }
                            assert(!stack_b.contains(x as usize)) by {
                                if stack_b.contains(x as usize) {
                                    let t = choose|t: int| 0 <= t < stack_b.len() && stack_b[t] == x as usize;
                                    assert(stack@[t] == x as usize);
                                }
                            }
                            assert(vis_b[y]);
                        }
                        assert(stack@.no_duplicates()) by {
                            assert forall|a: int, b: int| 0 <= a < b < stack@.len() implies stack@[a] != stack@[b] by {
                                if b == stack@.len() - 1 {
                                    assert(stack_b.contains(stack_b[a]));
                                } else {
                                    assert(stack_b[a] != stack_b[b]);
                                }
                            }
                        }
                        assert(!stack@.contains(v)) by {
                            if stack@.contains(v) {
                                let t = choose|t: int| 0 <= t < stack@.len() && stack@[t] == v;
                                if t < stack_b.len() {
                                    assert(stack_b[t] == v);
                                }
                            }
                        }
                    }
                } else {
                    proof {
                        if !visited@[nn as int] {
                            assert(mask0[nn as int] == orig[nn as int]);
                        }
                    }
                }
                k += 1;
            }
            proof {
                assert forall|y: int| linked(offs, nb, key, v as int, y) implies visited@[y] by {
                    let j = choose|j: int| offs[v as int] <= j < offs[v + 1] && #[trigger] nb[j] as int == y;
                    assert(visited@[nb[j] as int] || !orig[nb[j] as int]);
                }
                lemma_set_bound(sset, n as int);
            }
        }
        // The collected cells are exactly the island rooted at `s`.
        proof {
            assert forall|x: int| 0 <= x < n implies (#[trigger] sset.contains(x) <==> island_owner(offs, nb, orig, s, x)) by {
                if sset.contains(x) {
                    assert(reaches(offs, nb, key, s, x));
                    assert forall|w: int| 0 <= w < s && orig[w] implies !#[trigger] reaches(offs, nb, key, w, x) by {
                        assert(!vis0[x]);
                    }
                }
                if island_owner(offs, nb, orig, s, x) {
                    let inside = |z: int| 0 <= z < n && visited@[z];
                    assert forall|a: int, b: int| inside(a) && #[trigger] linked(offs, nb, key, a, b) implies inside(b) by {
                        if vis0[a] {
                            let w2 = choose|w2: int| 0 <= w2 < start_v && orig[w2] && #[trigger] reaches(offs, nb, key, w2, a);
                            lemma_reaches_extend(offs, nb, key, w2, a, b);
                        } else {
                            assert(sset.contains(a));
                        }
                    }
                    lemma_closed_contains_reached(offs, nb, key, inside, s, x);
                    if vis0[x] {
                        let w = choose|w: int| 0 <= w < start_v && orig[w] && #[trigger] reaches(offs, nb, key, w, x);
                    }
                }
            }
            assert(island_of(offs, nb, orig, s) =~= sset);
            let cmap = component@.map_values(|u: usize| u as int);
            assert(cmap.no_duplicates()) by {
                assert forall|a: int, b: int| 0 <= a < b < cmap.len() implies cmap[a] != cmap[b] by {
                    assert(component@[a] != component@[b]);
                }
            }
            assert(cmap.to_set() =~= sset) by {
                assert forall|x: int| sset.contains(x) <==> cmap.to_set().contains(x) by {
                    if sset.contains(x) {
                        assert(!stack@.contains(x as usize));
                        assert(component@.contains(x as usize));
                        let t = choose|t: int| 0 <= t < component@.len() && component@[t] == x as usize;
                        assert(cmap[t] == x);
                    }
                    if cmap.to_set().contains(x) {
                        let t = choose|t: int| 0 <= t < cmap.len() && cmap[t] == x;
                        assert(component@.contains(component@[t]));
                        assert(sset.contains(component@[t] as int));
                    }
                }
            }
            cmap.unique_seq_to_set();
        }
        let ghost mask_mid = boundary_mask@;
        if component.len() < min_size {
            let mut t: usize = 0;
            while t < component.len()
                invariant
                    0 <= t <= component@.len(),
                    boundary_mask@.len() == n,
                    mask_mid.len() == n,
                    forall|u: int| 0 <= u < component@.len() ==> #[trigger] component@[u] < n,
                    forall|x: int| 0 <= x < n ==> #[trigger] boundary_mask@[x] == (if component@.take(t as int).contains(x as usize) { false } else { mask_mid[x] }),
                decreases component@.len() - t,
            {
                let c = component[t];
                boundary_mask[c] = false;
                proof {
                    assert forall|x: int| 0 <= x < n implies #[trigger] boundary_mask@[x] == (if component@.take(t + 1).contains(x as usize) { false } else { mask_mid[x] }) by {
                        assert(component@.take(t + 1) == component@.take(t as int).push(c));
                        if x == c as int {
                            assert(component@.take(t + 1)[t as int] == c);
                        } else {
                            if component@.take(t + 1).contains(x as usize) {
                                let u = choose|u: int| 0 <= u < t + 1 && #[trigger] component@.take(t + 1)[u] == x as usize;
                                assert(component@.take(t as int)[u] == x as usize);
                            }
                            if component@.take(t as int).contains(x as usize) {
                                let u = choose|u: int| 0 <= u < t && #[trigger] component@.take(t as int)[u] == x as usize;
                                assert(component@.take(t + 1)[u] == x as usize);
                            }
                        }
                    }
                }
                t += 1;
            }
            proof {
                assert(component@.take(component@.len() as int) == component@);
            }
        }
        proof {
            assert forall|x: int| 0 <= x < n && visited@[x] implies #[trigger] boundary_mask@[x] == island_kept(offs, nb, orig, min_size as int, x) by {
                if sset.contains(x) {
                    assert(island_owner(offs, nb, orig, s, x));
                    assert(component@.contains(x as usize));
                    if island_kept(offs, nb, orig, min_size as int, x) {
                        let u = choose|u: int| #[trigger] island_owner(offs, nb, orig, u, x) && island_of(offs, nb, orig, u).len() >= min_size;
                        if u < s {
                            assert(!reaches(offs, nb, key, u, x));
                        } else if u > s {
                            assert(!reaches(offs, nb, key, s, x));
                        }
                    }
                } else {
                    assert(vis0[x]);
                    assert(!component@.contains(x as usize));
                }
            }
            assert forall|x: int| 0 <= x < n && !visited@[x] implies #[trigger] boundary_mask@[x] == orig[x] by {
                assert(!component@.contains(x as usize)) by {
                    if component@.contains(x as usize) {
                        assert(sset.contains(x));
                    }
                }
            }
            assert forall|x: int| 0 <= x < n implies (#[trigger] visited@[x] <==> exists|u: int| 0 <= u < start_v + 1 && orig[u] && #[trigger] reaches(offs, nb, key, u, x)) by {
                if visited@[x] {
                    if vis0[x] {
                        let u = choose|u: int| 0 <= u < start_v && orig[u] && #[trigger] reaches(offs, nb, key, u, x);
                        assert(reaches(offs, nb, key, u, x));
                    } else {
                        assert(reaches(offs, nb, key, s, x));
                    }
                }
                if exists|u: int| 0 <= u < start_v + 1 && orig[u] && #[trigger] reaches(offs, nb, key, u, x) {
                    let u = choose|u: int| 0 <= u < start_v + 1 && orig[u] && #[trigger] reaches(offs, nb, key, u, x);
                    if u == s {
                        if !vis0[x] {
                            assert(island_owner(offs, nb, orig, s, x));
                        }
                    } else {
                        assert(vis0[x]) by {
                            assert(reaches(offs, nb, key, u, x));
                        }
                    }
                }
            }
        }
        start_v += 1;
    }
    proof {
        assert forall|x: int| 0 <= x < n implies #[trigger] boundary_mask@[x] == island_kept(offs, nb, orig, min_size as int, x) by {
            if !visited@[x] {
                assert(!orig[x]);
            }
        }
    }
}

} // verus!
