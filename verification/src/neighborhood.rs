//! Neighbourhoods of a cell within a number of steps through the mesh.
use vstd::prelude::*;
use crate::components::nbr_of;
use crate::mesh::valid_csr;
use crate::active_queue::{enqueue_all_spec, ActiveQueue, lemma_enqueue_all_keeps_queue_wf};

verus! {

/// The cells of `s` together with the cells that `allowed` admits and that
/// neighbour a cell of `s`.
pub open spec fn grow(offsets: Seq<u32>, nbrs: Seq<u32>, allowed: Seq<bool>, s: Set<int>) -> Set<int> {
    s.union(
        Set::new(
            |x: int|
                0 <= x < allowed.len() && allowed[x] && exists|y: int|
                    #[trigger] s.contains(y) && 0 <= y < allowed.len() && nbr_of(offsets, nbrs, y, x),
        ),
    )
}

/// The cells reached from `start` in at most `k` steps, each step going
/// from a cell to one of its neighbours that `allowed` admits.
pub open spec fn reached_within(offsets: Seq<u32>, nbrs: Seq<u32>, allowed: Seq<bool>, start: int, k: int) -> Set<int>
    decreases k,
{
    if k <= 0 {
        Set::empty().insert(start)
    } else {
        grow(offsets, nbrs, allowed, reached_within(offsets, nbrs, allowed, start, k - 1))
    }
}

/// `x` can be reached from `start` in at most `k` steps.
pub open spec fn within_steps(offsets: Seq<u32>, nbrs: Seq<u32>, allowed: Seq<bool>, start: int, k: int, x: int) -> bool {
    reached_within(offsets, nbrs, allowed, start, k).contains(x)
}

/// Unfolds one step of `within_steps`.
proof fn lemma_within_unfold(offsets: Seq<u32>, nbrs: Seq<u32>, allowed: Seq<bool>, start: int, k: int, x: int)
    requires
        k > 0,
    ensures
        within_steps(offsets, nbrs, allowed, start, k, x) <==> (within_steps(offsets, nbrs, allowed, start, k - 1, x) || (0
            <= x < allowed.len() && allowed[x] && exists|y: int|
            #[trigger] within_steps(offsets, nbrs, allowed, start, k - 1, y) && 0 <= y < allowed.len() && nbr_of(offsets, nbrs, y, x))),
{
    let p = reached_within(offsets, nbrs, allowed, start, k - 1);
    assert(reached_within(offsets, nbrs, allowed, start, k) == grow(offsets, nbrs, allowed, p));
    if within_steps(offsets, nbrs, allowed, start, k, x) && !within_steps(offsets, nbrs, allowed, start, k - 1, x) {
        let y = choose|y: int| #[trigger] p.contains(y) && 0 <= y < allowed.len() && nbr_of(offsets, nbrs, y, x);
        assert(within_steps(offsets, nbrs, allowed, start, k - 1, y));
    }
    if 0 <= x < allowed.len() && allowed[x] && exists|y: int|
        #[trigger] within_steps(offsets, nbrs, allowed, start, k - 1, y) && 0 <= y < allowed.len() && nbr_of(offsets, nbrs, y, x) {
        let y = choose|y: int|
            #[trigger] within_steps(offsets, nbrs, allowed, start, k - 1, y) && 0 <= y < allowed.len() && nbr_of(offsets, nbrs, y, x);
        assert(p.contains(y));
    }
}

/// `x` is reached in exactly `k` steps and no fewer.
pub open spec fn first_reached_at(offsets: Seq<u32>, nbrs: Seq<u32>, allowed: Seq<bool>, start: int, k: int, x: int) -> bool {
    &&& within_steps(offsets, nbrs, allowed, start, k, x)
    &&& (k <= 0 || !within_steps(offsets, nbrs, allowed, start, k - 1, x))
}

/// The cells a mark array leaves open: those not marked yet.
pub open spec fn unmarked(mark: Seq<u8>) -> Seq<bool> {
    Seq::new(mark.len(), |i: int| mark[i] == 0)
}

proof fn lemma_within_monotone(offsets: Seq<u32>, nbrs: Seq<u32>, allowed: Seq<bool>, start: int, a: int, b: int, x: int)
    requires
        a <= b,
        within_steps(offsets, nbrs, allowed, start, a, x),
    ensures
        within_steps(offsets, nbrs, allowed, start, b, x),
    decreases b - a,
{
    if a < b {
        lemma_within_monotone(offsets, nbrs, allowed, start, a, b - 1, x);
        if b > 0 {
            lemma_within_unfold(offsets, nbrs, allowed, start, b, x);
        }
    }
}

/// Once a round reaches nothing new, no later round does.
proof fn lemma_within_stable(offsets: Seq<u32>, nbrs: Seq<u32>, allowed: Seq<bool>, start: int, r: int, k: int, x: int)
    requires
        r >= 1,
        r <= k,
        forall|z: int| #[trigger] within_steps(offsets, nbrs, allowed, start, r, z) ==> within_steps(offsets, nbrs, allowed, start, r - 1, z),
    ensures
        within_steps(offsets, nbrs, allowed, start, k, x) == within_steps(offsets, nbrs, allowed, start, r, x),
    decreases k - r,
{
    if k > r {
        lemma_within_stable(offsets, nbrs, allowed, start, r, k - 1, x);
        lemma_within_unfold(offsets, nbrs, allowed, start, k, x);
        if within_steps(offsets, nbrs, allowed, start, k, x) && !within_steps(offsets, nbrs, allowed, start, k - 1, x) {
            let y = choose|y: int|
                #[trigger] within_steps(offsets, nbrs, allowed, start, k - 1, y) && 0 <= y < allowed.len() && nbr_of(offsets, nbrs, y, x);
            lemma_within_stable(offsets, nbrs, allowed, start, r, k - 1, y);
            assert(within_steps(offsets, nbrs, allowed, start, r - 1, y));
            lemma_within_unfold(offsets, nbrs, allowed, start, r, x);
        }
        if within_steps(offsets, nbrs, allowed, start, r, x) {
            lemma_within_monotone(offsets, nbrs, allowed, start, r, k, x);
        }
    }
}

/// What the next round reaches first: cells that `allowed` admits, not
/// reached yet, that neighbour a cell reached first in this round.
proof fn lemma_next_layer(offsets: Seq<u32>, nbrs: Seq<u32>, allowed: Seq<bool>, start: int, r: int, x: int)
    requires
        r >= 0,
    ensures
        first_reached_at(offsets, nbrs, allowed, start, r + 1, x) <==> (0 <= x < allowed.len() && allowed[x]
            && !within_steps(offsets, nbrs, allowed, start, r, x) && exists|y: int|
            0 <= y < allowed.len() && #[trigger] first_reached_at(offsets, nbrs, allowed, start, r, y)
                && nbr_of(offsets, nbrs, y, x)),
{
    lemma_within_unfold(offsets, nbrs, allowed, start, r + 1, x);
    if first_reached_at(offsets, nbrs, allowed, start, r + 1, x) {
        let y = choose|y: int|
            #[trigger] within_steps(offsets, nbrs, allowed, start, r, y) && 0 <= y < allowed.len() && nbr_of(offsets, nbrs, y, x);
        if r > 0 && within_steps(offsets, nbrs, allowed, start, r - 1, y) {
            lemma_within_unfold(offsets, nbrs, allowed, start, r, x);
        }
        assert(first_reached_at(offsets, nbrs, allowed, start, r, y));
    }
    if 0 <= x < allowed.len() && allowed[x] && !within_steps(offsets, nbrs, allowed, start, r, x) && exists|y: int|
        0 <= y < allowed.len() && #[trigger] first_reached_at(offsets, nbrs, allowed, start, r, y)
            && nbr_of(offsets, nbrs, y, x) {
        let y = choose|y: int|
            0 <= y < allowed.len() && #[trigger] first_reached_at(offsets, nbrs, allowed, start, r, y)
                && nbr_of(offsets, nbrs, y, x);
        assert(within_steps(offsets, nbrs, allowed, start, r, y));
    }
}

/// `x` neighbours one of the cells `cur[..i]`, or is one of the first
/// neighbour slots `offsets[cur[i]]..j` of cell `cur[i]`.
pub open spec fn seen_from(offsets: Seq<u32>, nbrs: Seq<u32>, cur: Seq<usize>, i: int, j: int, x: int) -> bool {
    ||| exists|t: int| 0 <= t < i && #[trigger] nbr_of(offsets, nbrs, cur[t] as int, x)
    ||| (0 <= i < cur.len() && exists|k: int| offsets[cur[i] as int] <= k < j && #[trigger] nbrs[k] as int == x)
}

/// `x` neighbours one of the cells of `cur`.
pub open spec fn adjacent_to_any(offsets: Seq<u32>, nbrs: Seq<u32>, cur: Seq<usize>, x: int) -> bool {
    exists|t: int| 0 <= t < cur.len() && #[trigger] nbr_of(offsets, nbrs, cur[t] as int, x)
}

/// Scanning the neighbour lists of `cells` in order, `x` is met first at
/// slot `s` of the list of `cells[p]`: no earlier cell of `cells` lists `x`,
/// and no earlier slot of that list holds it.
pub open spec fn first_met(offsets: Seq<u32>, nbrs: Seq<u32>, cells: Seq<int>, p: int, s: int, x: int) -> bool {
    &&& 0 <= p < cells.len()
    &&& offsets[cells[p]] <= s < offsets[cells[p] + 1]
    &&& nbrs[s] as int == x
    &&& forall|q: int| 0 <= q < p ==> !#[trigger] nbr_of(offsets, nbrs, cells[q], x)
    &&& forall|k: int| offsets[cells[p]] <= k < s ==> #[trigger] nbrs[k] as int != x
}

/// The scan over the neighbour lists of `cells` meets `x`.
pub open spec fn met_in_scan(offsets: Seq<u32>, nbrs: Seq<u32>, cells: Seq<int>, x: int) -> bool {
    exists|p: int, s: int| #[trigger] first_met(offsets, nbrs, cells, p, s, x)
}

/// Slot `(p, s)` comes before slot `(q, u)` in the scan.
pub open spec fn scan_before(p: int, s: int, q: int, u: int) -> bool {
    p < q || (p == q && s < u)
}

/// A cell is met first at one slot only.
proof fn lemma_first_met_unique(offsets: Seq<u32>, nbrs: Seq<u32>, cells: Seq<int>, p: int, s: int, q: int, u: int, x: int)
    requires
        first_met(offsets, nbrs, cells, p, s, x),
        first_met(offsets, nbrs, cells, q, u, x),
    ensures
        p == q && s == u,
{
    if p < q {
        assert(nbr_of(offsets, nbrs, cells[p], x));
    } else if q < p {
        assert(nbr_of(offsets, nbrs, cells[q], x));
    } else if s < u {
        assert(nbrs[s] as int == x);
    } else if u < s {
        assert(nbrs[u] as int == x);
    }
}

/// Where a cell is met first depends only on the cells up to that point.
proof fn lemma_first_met_prefix(offsets: Seq<u32>, nbrs: Seq<u32>, cells: Seq<int>, more: Seq<int>, p: int, s: int, x: int)
    requires
        0 <= p < cells.len(),
    ensures
        first_met(offsets, nbrs, cells, p, s, x) <==> first_met(offsets, nbrs, cells + more, p, s, x),
{
    let all = cells + more;
    assert forall|q: int| 0 <= q <= p implies #[trigger] all[q] == cells[q] by {}
    if first_met(offsets, nbrs, cells, p, s, x) {
        assert forall|q: int| 0 <= q < p implies !#[trigger] nbr_of(offsets, nbrs, all[q], x) by {
            assert(all[q] == cells[q]);
        }
    }
    if first_met(offsets, nbrs, all, p, s, x) {
        assert forall|q: int| 0 <= q < p implies !#[trigger] nbr_of(offsets, nbrs, cells[q], x) by {
            assert(all[q] == cells[q]);
        }
    }
}

/// The cells of `v` as integers.
pub open spec fn cells_of(v: Seq<usize>) -> Seq<int> {
    v.map_values(|c: usize| c as int)
}

/// The neighbour offsets of `m` cells read leniently: each offset is cut
/// down to `l` (the length of the neighbour table), and the cells past the
/// end of the offsets get empty ranges.
pub open spec fn clamped_offsets(offsets: Seq<u32>, l: int, m: int) -> Seq<u32> {
    Seq::new(
        (m + 1) as nat,
        |i: int|
            if i < offsets.len() {
                if offsets[i] as int <= l { offsets[i] } else { l as u32 }
            } else if offsets.len() > 0 {
                if offsets.last() as int <= l { offsets.last() } else { l as u32 }
            } else {
                0u32
            },
    )
}

/// The neighbour range of `cell` does not run backwards: where both of its
/// offsets are present, the first (cut down to `l`) is not past the second.
pub open spec fn ordered_range(offsets: Seq<u32>, l: int, cell: int) -> bool {
    0 <= cell && cell + 1 < offsets.len() ==> (if offsets[cell] as int <= l { offsets[cell] as int } else { l })
        <= (if offsets[cell + 1] as int <= l { offsets[cell + 1] as int } else { l })
}

/// A well-formed neighbour table reads the same leniently.
proof fn lemma_valid_csr_clamped(offsets: Seq<u32>, nbrs: Seq<u32>, n: int)
    requires
        valid_csr(offsets, nbrs, n),
    ensures
        clamped_offsets(offsets, nbrs.len() as int, n) == offsets,
        forall|c: int| #[trigger] ordered_range(offsets, nbrs.len() as int, c),
{
    assert forall|i: int| 0 <= i <= n implies #[trigger] offsets[i] <= nbrs.len() by {
        assert(offsets[i] <= offsets[n]);
    }
    assert(clamped_offsets(offsets, nbrs.len() as int, n) =~= offsets);
    assert forall|c: int| #[trigger] ordered_range(offsets, nbrs.len() as int, c) by {
        if 0 <= c && c + 1 < offsets.len() {
            assert(offsets[c] <= offsets[c + 1]);
            assert(offsets[c + 1] <= nbrs.len());
        }
    }
}

/// The neighbour range of `cell` in the lenient reading of the offsets.
fn neighbor_range(nbr_offsets: &[u32], nbrs_len: usize, cell: usize, m: usize) -> (r: (usize, usize))
    requires
        cell < m,
        ordered_range(nbr_offsets@, nbrs_len as int, cell as int),
    ensures
        r.0 == clamped_offsets(nbr_offsets@, nbrs_len as int, m as int)[cell as int],
        r.1 == clamped_offsets(nbr_offsets@, nbrs_len as int, m as int)[cell + 1],
        r.0 <= r.1 <= nbrs_len,
{
    let n = nbr_offsets.len();
    if cell + 1 < n {
        let b = nbr_offsets[cell] as usize;
        let e = nbr_offsets[cell + 1] as usize;
        let b2 = if b <= nbrs_len { b } else { nbrs_len };
        let e2 = if e <= nbrs_len { e } else { nbrs_len };
        (b2, e2)
    } else if n > 0 {
        let last = nbr_offsets[n - 1] as usize;
        let l2 = if last <= nbrs_len { last } else { nbrs_len };
        (l2, l2)
    } else {
        (0, 0)
    }
}

/// Marks the unmarked neighbours of the cells of `cur` and lists them, each
/// once, in the order in which they are met. Neighbour ranges are read as
/// clamped to the end of `nbrs` (`clamped_offsets`), and neighbours that
/// are not cells of `mark` are passed over.
fn expand_frontier(cur: &Vec<usize>, nbr_offsets: &[u32], nbrs: &[u32], mark: &mut [u8]) -> (next: Vec<usize>)
    requires
        forall|t: int| 0 <= t < cur@.len() ==> (#[trigger] cur@[t] as int) < old(mark)@.len() && ordered_range(
            nbr_offsets@,
            nbrs@.len() as int,
            cur@[t] as int,
        ),
    ensures
        final(mark)@.len() == old(mark)@.len(),
        forall|x: int| 0 <= x < old(mark)@.len() ==> #[trigger] final(mark)@[x] == if old(mark)@[x] == 0
            && adjacent_to_any(clamped_offsets(nbr_offsets@, nbrs@.len() as int, old(mark)@.len() as int), nbrs@, cur@, x) {
            1u8
        } else {
            old(mark)@[x]
        },
        next@.no_duplicates(),
        forall|t: int| 0 <= t < next@.len() ==> (#[trigger] next@[t] as int) < old(mark)@.len() && old(mark)@[next@[t] as int] == 0
            && adjacent_to_any(clamped_offsets(nbr_offsets@, nbrs@.len() as int, old(mark)@.len() as int), nbrs@, cur@, next@[t] as int),
        forall|x: int| 0 <= x < old(mark)@.len() && old(mark)@[x] == 0 && #[trigger] adjacent_to_any(clamped_offsets(nbr_offsets@, nbrs@.len() as int, old(mark)@.len() as int), nbrs@, cur@, x)
            ==> next@.contains(x as usize),
        forall|t: int| 0 <= t < next@.len() ==> #[trigger] met_in_scan(clamped_offsets(nbr_offsets@, nbrs@.len() as int, old(mark)@.len() as int), nbrs@, cells_of(cur@), next@[t] as int),
        forall|a: int, b: int, pa: int, sa: int, pb: int, sb: int|
            0 <= a < b < next@.len() && #[trigger] first_met(clamped_offsets(nbr_offsets@, nbrs@.len() as int, old(mark)@.len() as int), nbrs@, cells_of(cur@), pa, sa, next@[a] as int)
                && #[trigger] first_met(clamped_offsets(nbr_offsets@, nbrs@.len() as int, old(mark)@.len() as int), nbrs@, cells_of(cur@), pb, sb, next@[b] as int) ==> scan_before(pa, sa, pb, sb),
{
    let ghost m0 = mark@;
    let ghost offs = clamped_offsets(nbr_offsets@, nbrs@.len() as int, mark@.len() as int);
    let ghost nb = nbrs@;
    let ghost len = m0.len() as int;
    let ghost c = cur@;
    let ghost ci = cells_of(cur@);
    let ghost mut kp: Seq<int> = Seq::empty();
    let ghost mut ks: Seq<int> = Seq::empty();
    let mut next: Vec<usize> = Vec::new();
    let mut i: usize = 0;
    while i < cur.len()
        invariant
            0 <= i <= c.len(),
            cur@ == c,
            mark@.len() == len,
            m0.len() == len,
            offs == clamped_offsets(nbr_offsets@, nbrs@.len() as int, len),
            nb == nbrs@,
            forall|t: int| 0 <= t < c.len() ==> (#[trigger] c[t] as int) < len && ordered_range(nbr_offsets@, nb.len() as int, c[t] as int),
            forall|x: int| 0 <= x < len ==> #[trigger] mark@[x] == if m0[x] == 0 && seen_from(offs, nb, c, i as int, offs[c[i as int] as int] as int, x) {
                1u8
            } else {
                m0[x]
            },
            next@.no_duplicates(),
            forall|t: int| 0 <= t < next@.len() ==> (#[trigger] next@[t] as int) < len && m0[next@[t] as int] == 0
                && seen_from(offs, nb, c, i as int, offs[c[i as int] as int] as int, next@[t] as int),
            forall|x: int| 0 <= x < len && m0[x] == 0 && #[trigger] seen_from(offs, nb, c, i as int, offs[c[i as int] as int] as int, x)
                ==> next@.contains(x as usize),
            ci == cells_of(c),
            kp.len() == next@.len(),
            ks.len() == next@.len(),
            forall|t: int| 0 <= t < next@.len() ==> #[trigger] first_met(offs, nb, ci, kp[t], ks[t], next@[t] as int),
            forall|a: int, b: int| 0 <= a < b < next@.len() ==> scan_before(#[trigger] kp[a], ks[a], #[trigger] kp[b], ks[b]),
            forall|t: int| 0 <= t < next@.len() ==> #[trigger] kp[t] < i,
        decreases c.len() - i,
    {
        let cell = cur[i];
        let (begin, end) = neighbor_range(nbr_offsets, nbrs.len(), cell, mark.len());
        let mut slot = begin;
        while slot < end
            invariant
                begin <= slot <= end,
                i < c.len(),
                cell == c[i as int],
                begin == offs[cell as int],
                end == offs[cell + 1],
                end <= nb.len(),
                cur@ == c,
                mark@.len() == len,
                m0.len() == len,
                offs == clamped_offsets(nbr_offsets@, nbrs@.len() as int, len),
                nb == nbrs@,
                forall|x: int| 0 <= x < len ==> #[trigger] mark@[x] == if m0[x] == 0 && seen_from(offs, nb, c, i as int, slot as int, x) {
                    1u8
                } else {
                    m0[x]
                },
                next@.no_duplicates(),
                forall|t: int| 0 <= t < next@.len() ==> (#[trigger] next@[t] as int) < len && m0[next@[t] as int] == 0
                    && seen_from(offs, nb, c, i as int, slot as int, next@[t] as int),
                forall|x: int| 0 <= x < len && m0[x] == 0 && #[trigger] seen_from(offs, nb, c, i as int, slot as int, x)
                    ==> next@.contains(x as usize),
                ci == cells_of(c),
                kp.len() == next@.len(),
                ks.len() == next@.len(),
                forall|t: int| 0 <= t < next@.len() ==> #[trigger] first_met(offs, nb, ci, kp[t], ks[t], next@[t] as int),
                forall|a: int, b: int| 0 <= a < b < next@.len() ==> scan_before(#[trigger] kp[a], ks[a], #[trigger] kp[b], ks[b]),
                forall|t: int| 0 <= t < next@.len() ==> scan_before(#[trigger] kp[t], ks[t], i as int, slot as int),
            decreases end - slot,
        {
            let n = nbrs[slot] as usize;
            let ghost mark_s = mark@;
            let ghost next_s = next@;
            proof {
                assert forall|x: int| #[trigger] seen_from(offs, nb, c, i as int, slot + 1, x) <==> (seen_from(offs, nb, c, i as int, slot as int, x) || x == n) by {
                    if x == n {
                        assert(nb[slot as int] as int == x);
                    }
                    if seen_from(offs, nb, c, i as int, slot + 1, x) && !seen_from(offs, nb, c, i as int, slot as int, x) {
                        let k = choose|k: int| offs[c[i as int] as int] <= k < slot + 1 && #[trigger] nb[k] as int == x;
                        if k < slot {
                            assert(seen_from(offs, nb, c, i as int, slot as int, x));
                        }
                    }
                }
            }
            if n < mark.len() && mark[n] == 0 {
                proof {
                    assert(ci[i as int] == cell as int);
                    assert(m0[n as int] == 0 && !seen_from(offs, nb, c, i as int, slot as int, n as int));
                    assert forall|q: int| 0 <= q < i implies !#[trigger] nbr_of(offs, nb, ci[q], n as int) by {
                        assert(ci[q] == c[q] as int);
                        if nbr_of(offs, nb, ci[q], n as int) {
                            assert(seen_from(offs, nb, c, i as int, slot as int, n as int));
                        }
                    }
                    assert forall|k: int| offs[ci[i as int]] <= k < slot implies #[trigger] nb[k] as int != n as int by {
                        if nb[k] as int == n as int {
                            assert(seen_from(offs, nb, c, i as int, slot as int, n as int));
                        }
                    }
                    assert(first_met(offs, nb, ci, i as int, slot as int, n as int));
                    kp = kp.push(i as int);
                    ks = ks.push(slot as int);
                }
                mark[n] = 1;
                next.push(n);
                proof {
                    assert(!next_s.contains(n));
                    assert forall|a: int, b: int| 0 <= a < b < next@.len() implies next@[a] != next@[b] by {
                        if b == next_s.len() {
                            assert(next_s.contains(next_s[a]));
                        }
                    }
                }
            }
            proof {
                assert forall|t: int| 0 <= t < next@.len() implies (#[trigger] next@[t] as int) < len && m0[next@[t] as int] == 0
                    && seen_from(offs, nb, c, i as int, slot + 1, next@[t] as int) by {
                    if t < next_s.len() {
                        assert(next@[t] == next_s[t]);
                    }
                }
                assert forall|x: int| 0 <= x < len && m0[x] == 0 && #[trigger] seen_from(offs, nb, c, i as int, slot + 1, x)
                    implies next@.contains(x as usize) by {
                    if seen_from(offs, nb, c, i as int, slot as int, x) {
                        let w = choose|w: int| 0 <= w < next_s.len() && next_s[w] == x as usize;
                        assert(next@[w] == next_s[w]);
                    } else {
                        assert(x == n);
                        assert(next@[next@.len() - 1] == n);
                    }
                }
            }
            slot += 1;
        }
        proof {
            assert forall|x: int| #[trigger] seen_from(offs, nb, c, i + 1, offs[c[i + 1] as int] as int, x) <==> seen_from(offs, nb, c, i as int, end as int, x) by {
                if seen_from(offs, nb, c, i as int, end as int, x) && !(exists|t: int| 0 <= t < i && #[trigger] nbr_of(offs, nb, c[t] as int, x)) {
                    let k = choose|k: int| offs[c[i as int] as int] <= k < end && #[trigger] nb[k] as int == x;
                    assert(nbr_of(offs, nb, c[i as int] as int, x));
                }
                if seen_from(offs, nb, c, i + 1, offs[c[i + 1] as int] as int, x) {
                    if exists|t: int| 0 <= t < i + 1 && #[trigger] nbr_of(offs, nb, c[t] as int, x) {
                        let t = choose|t: int| 0 <= t < i + 1 && #[trigger] nbr_of(offs, nb, c[t] as int, x);
                        if t == i {
                            let k = choose|k: int| offs[c[t] as int] <= k < offs[c[t] + 1] && #[trigger] nb[k] as int == x;
                        }
                    } else {
                        if i + 1 < c.len() {
                            let k = choose|k: int| offs[c[i + 1] as int] <= k < offs[c[i + 1] as int] && #[trigger] nb[k] as int == x;
                        }
                    }
                }
            }
        }
        i += 1;
    }
    proof {
        assert forall|x: int| #[trigger] seen_from(offs, nb, c, c.len() as int, offs[c[c.len() as int] as int] as int, x)
            <==> adjacent_to_any(offs, nb, c, x) by {
        }
        assert forall|x: int| 0 <= x < len && m0[x] == 0 && #[trigger] adjacent_to_any(offs, nb, c, x) implies next@.contains(x as usize) by {
            assert(seen_from(offs, nb, c, c.len() as int, offs[c[c.len() as int] as int] as int, x));
        }
        assert forall|t: int| 0 <= t < next@.len() implies #[trigger] met_in_scan(clamped_offsets(nbr_offsets@, nbrs@.len() as int, m0.len() as int), nbrs@, cells_of(cur@), next@[t] as int) by {
            assert(first_met(offs, nb, ci, kp[t], ks[t], next@[t] as int));
            assert(first_met(clamped_offsets(nbr_offsets@, nbrs@.len() as int, m0.len() as int), nbrs@, cells_of(cur@), kp[t], ks[t], next@[t] as int));
        }
        assert forall|a: int, b: int, pa: int, sa: int, pb: int, sb: int|
            0 <= a < b < next@.len() && #[trigger] first_met(offs, nb, ci, pa, sa, next@[a] as int)
                && #[trigger] first_met(offs, nb, ci, pb, sb, next@[b] as int) implies scan_before(pa, sa, pb, sb) by {
            assert(first_met(offs, nb, ci, kp[a], ks[a], next@[a] as int));
            assert(first_met(offs, nb, ci, kp[b], ks[b], next@[b] as int));
            lemma_first_met_unique(offs, nb, ci, pa, sa, kp[a], ks[a], next@[a] as int);
            lemma_first_met_unique(offs, nb, ci, pb, sb, kp[b], ks[b], next@[b] as int);
            assert(scan_before(kp[a], ks[a], kp[b], ks[b]));
        }
    }
    next
}

/// Marks (with 1) every cell that can be reached from `start` in at most
/// `hops` steps through cells that were not marked before; `start` itself
/// is marked if it was not. Cells that were marked keep their mark, and
/// nothing changes when `start` is not a cell. The neighbour table is read
/// leniently (`clamped_offsets`): ranges are cut at the end of `nbrs`, cells
/// past the end of the offsets have no neighbours, and neighbours that are
/// not cells of `mark` are passed over; only the ranges of the cells the
/// search expands must not run backwards.
pub fn mark_neighbors_within_hops(start: usize, hops: u32, nbr_offsets: &[u32], nbrs: &[u32], mark: &mut [u8])
    requires
        hops > 0 ==> forall|y: int|
            0 <= y < old(mark)@.len() && #[trigger] within_steps(clamped_offsets(nbr_offsets@, nbrs@.len() as int, old(mark)@.len() as int), nbrs@, unmarked(old(mark)@), start as int, hops - 1, y)
                ==> ordered_range(nbr_offsets@, nbrs@.len() as int, y),
    ensures
        final(mark)@.len() == old(mark)@.len(),
        start >= old(mark)@.len() ==> final(mark)@ == old(mark)@,
        start < old(mark)@.len() ==> forall|x: int| 0 <= x < old(mark)@.len() ==> #[trigger] final(mark)@[x] == if old(mark)@[x] == 0
            && within_steps(clamped_offsets(nbr_offsets@, nbrs@.len() as int, old(mark)@.len() as int), nbrs@, unmarked(old(mark)@), start as int, hops as int, x) {
            1u8
        } else {
            old(mark)@[x]
        },
{
    if start >= mark.len() {
        return;
    }
    let ghost orig = mark@;
    let ghost allowed = unmarked(orig);
    let ghost offs = clamped_offsets(nbr_offsets@, nbrs@.len() as int, mark@.len() as int);
    let ghost nb = nbrs@;
    let ghost len = orig.len() as int;
    if mark[start] == 0 {
        mark[start] = 1;
    }
    let mut frontier: Vec<usize> = vec![start];
    let mut r: u32 = 0;
    let mut stop = false;
    proof {
        assert forall|x: int| 0 <= x < len && #[trigger] first_reached_at(offs, nb, allowed, start as int, 0int, x) implies frontier@.contains(x as usize) by {
            if x == start {
                assert(frontier@[0] == start);
            }
        }
    }
    while r < hops && !stop
        invariant
            0 <= r <= hops,
            mark@.len() == len,
            orig.len() == len,
            start < len,
            allowed == unmarked(orig),
            offs == clamped_offsets(nbr_offsets@, nbrs@.len() as int, len),
            nb == nbrs@,
            hops > 0 ==> forall|y: int|
                0 <= y < len && #[trigger] within_steps(offs, nb, allowed, start as int, hops - 1, y)
                    ==> ordered_range(nbr_offsets@, nb.len() as int, y),
            forall|x: int| 0 <= x < len ==> #[trigger] mark@[x] == if orig[x] == 0 && within_steps(offs, nb, allowed, start as int, r as int, x) {
                1u8
            } else {
                orig[x]
            },
            frontier@.no_duplicates(),
            forall|t: int| 0 <= t < frontier@.len() ==> (#[trigger] frontier@[t] as int) < len && first_reached_at(offs, nb, allowed, start as int, r as int, frontier@[t] as int),
            forall|x: int| 0 <= x < len ==> #[trigger] first_reached_at(offs, nb, allowed, start as int, r as int, x) ==> frontier@.contains(x as usize),
            stop ==> r >= 1 && forall|z: int| #[trigger] within_steps(offs, nb, allowed, start as int, r as int, z) ==> within_steps(offs, nb, allowed, start as int, r - 1, z),
        decreases hops - r,
    {
        let ghost cur = frontier@;
        let ghost mark_r = mark@;
        proof {
            assert forall|t: int| 0 <= t < frontier@.len() implies ordered_range(nbr_offsets@, nb.len() as int, #[trigger] frontier@[t] as int) by {
                lemma_within_monotone(offs, nb, allowed, start as int, r as int, hops - 1, frontier@[t] as int);
            }
        }
        let next = expand_frontier(&frontier, nbr_offsets, nbrs, mark);
        proof {
            let rn = r as int;
            assert forall|x: int| #[trigger] adjacent_to_any(offs, nb, cur, x) <==> exists|y: int| 0 <= y < len && #[trigger] first_reached_at(offs, nb, allowed, start as int, rn, y) && nbr_of(offs, nb, y, x) by {
                if adjacent_to_any(offs, nb, cur, x) {
                    let t = choose|t: int| 0 <= t < cur.len() && #[trigger] nbr_of(offs, nb, cur[t] as int, x);
                    assert(first_reached_at(offs, nb, allowed, start as int, rn, cur[t] as int));
                }
                if exists|y: int| 0 <= y < len && #[trigger] first_reached_at(offs, nb, allowed, start as int, rn, y) && nbr_of(offs, nb, y, x) {
                    let y = choose|y: int| 0 <= y < len && #[trigger] first_reached_at(offs, nb, allowed, start as int, rn, y) && nbr_of(offs, nb, y, x);
                    assert(cur.contains(y as usize));
                    let t = choose|t: int| 0 <= t < cur.len() && cur[t] == y as usize;
                    assert(nbr_of(offs, nb, cur[t] as int, x));
                }
            }
            assert forall|x: int| 0 <= x < len implies #[trigger] first_reached_at(offs, nb, allowed, start as int, rn + 1, x) <==> (mark_r[x] == 0
                && adjacent_to_any(offs, nb, cur, x)) by {
                lemma_next_layer(offs, nb, allowed, start as int, rn, x);
            }
            assert forall|x: int| 0 <= x < len && #[trigger] first_reached_at(offs, nb, allowed, start as int, rn + 1, x) implies next@.contains(x as usize) by {
                lemma_next_layer(offs, nb, allowed, start as int, rn, x);
            }
            assert forall|t: int| 0 <= t < next@.len() implies (#[trigger] next@[t] as int) < len && first_reached_at(offs, nb, allowed, start as int, rn + 1, next@[t] as int) by {
                lemma_next_layer(offs, nb, allowed, start as int, rn, next@[t] as int);
            }
            assert forall|x: int| 0 <= x < len implies #[trigger] mark@[x] == if orig[x] == 0 && within_steps(offs, nb, allowed, start as int, rn + 1, x) {
                1u8
            } else {
                orig[x]
            } by {
                lemma_next_layer(offs, nb, allowed, start as int, rn, x);
                if within_steps(offs, nb, allowed, start as int, rn, x) {
                    lemma_within_monotone(offs, nb, allowed, start as int, rn, rn + 1, x);
                }
            }
        }
        if next.len() == 0 {
            stop = true;
            proof {
                assert forall|z: int| #[trigger] within_steps(offs, nb, allowed, start as int, r + 1, z) implies within_steps(offs, nb, allowed, start as int, r as int, z) by {
                    if !within_steps(offs, nb, allowed, start as int, r as int, z) {
                        lemma_next_layer(offs, nb, allowed, start as int, r as int, z);
                        assert(first_reached_at(offs, nb, allowed, start as int, r + 1, z));
                        assert(next@.contains(z as usize));
                    }
                }
            }
        }
        frontier = next;
        r += 1;
    }
    proof {
        if r < hops {
            assert forall|x: int| 0 <= x < len implies #[trigger] within_steps(offs, nb, allowed, start as int, hops as int, x) == within_steps(offs, nb, allowed, start as int, r as int, x) by {
                lemma_within_stable(offs, nb, allowed, start as int, r as int, hops as int, x);
            }
        }
    }
}

/// The cells of `v` as integers.
pub open spec fn cells_u32(v: Seq<u32>) -> Seq<int> {
    v.map_values(|c: u32| c as int)
}

/// The scan over the neighbour lists of `cells` meets `x` first in the list
/// of a cell at a position below `a`.
pub open spec fn discovered_before(offsets: Seq<u32>, nbrs: Seq<u32>, cells: Seq<int>, a: int, x: int) -> bool {
    exists|p: int, s: int| p < a && #[trigger] first_met(offsets, nbrs, cells, p, s, x)
}

/// The scan over the neighbour lists of `cells` meets `x` first in the list
/// of a cell at a position in `lo..hi`.
pub open spec fn met_between(offsets: Seq<u32>, nbrs: Seq<u32>, cells: Seq<int>, lo: int, hi: int, x: int) -> bool {
    exists|p: int, s: int| lo <= p < hi && #[trigger] first_met(offsets, nbrs, cells, p, s, x)
}

/// From position `from` on, the entries of `xs` come in the order in which
/// the scan over the neighbour lists of `cells` first meets them.
pub open spec fn scan_ordered(offsets: Seq<u32>, nbrs: Seq<u32>, cells: Seq<int>, xs: Seq<int>, from: int) -> bool {
    forall|a: int, b: int, pa: int, sa: int, pb: int, sb: int|
        from <= a < b < xs.len() && #[trigger] first_met(offsets, nbrs, cells, pa, sa, xs[a])
            && #[trigger] first_met(offsets, nbrs, cells, pb, sb, xs[b]) ==> scan_before(pa, sa, pb, sb)
}

/// `order` lists cells in breadth-first order from `start`: `start` comes
/// first; every later cell is met in the neighbour list of a cell listed
/// before it; and the cells after `start` come in the order in which the
/// scan over the neighbour lists of the listed cells, in list order, first
/// meets them.
pub open spec fn breadth_first_order(offsets: Seq<u32>, nbrs: Seq<u32>, start: int, order: Seq<u32>) -> bool {
    let cells = cells_u32(order);
    &&& order.len() > 0
    &&& cells[0] == start
    &&& forall|a: int| 0 < a < order.len() ==> #[trigger] discovered_before(offsets, nbrs, cells, a, cells[a])
    &&& scan_ordered(offsets, nbrs, cells, cells, 1)
}

/// Where an entry of `co + cf` is met first: for an entry of `co`, in `co`
/// before it and before `lp`; for an entry of `cf`, in `co` from `lp` on.
proof fn lemma_bfs_key(offsets: Seq<u32>, nbrs: Seq<u32>, co: Seq<int>, cf: Seq<int>, lp: int, a: int) -> (ps: (int, int))
    requires
        0 < a < (co + cf).len(),
        0 <= lp <= co.len(),
        forall|i: int| 0 < i < co.len() ==> #[trigger] discovered_before(offsets, nbrs, co, i, co[i]),
        forall|i: int, p: int, s: int| 0 < i < co.len() && #[trigger] first_met(offsets, nbrs, co, p, s, co[i]) ==> p < lp,
        co.len() > 0 ==> forall|t: int| 0 <= t < cf.len() ==> #[trigger] met_between(offsets, nbrs, co, lp, co.len() as int, cf[t]),
        co.len() == 0 ==> cf.len() <= 1,
    ensures
        first_met(offsets, nbrs, co, ps.0, ps.1, (co + cf)[a]),
        first_met(offsets, nbrs, co + cf, ps.0, ps.1, (co + cf)[a]),
        a < co.len() ==> ps.0 < a && ps.0 < lp,
        a >= co.len() ==> lp <= ps.0 < co.len(),
{
    let all = co + cf;
    let n = co.len() as int;
    let x = all[a];
    let ps = if a < n {
        assert(all[a] == co[a]);
        assert(discovered_before(offsets, nbrs, co, a, co[a]));
        choose|p: int, s: int| p < a && #[trigger] first_met(offsets, nbrs, co, p, s, co[a])
    } else {
        assert(all[a] == cf[a - n]);
        assert(met_between(offsets, nbrs, co, lp, n, cf[a - n]));
        choose|p: int, s: int| lp <= p < n && #[trigger] first_met(offsets, nbrs, co, p, s, cf[a - n])
    };
    lemma_first_met_prefix(offsets, nbrs, co, cf, ps.0, ps.1, x);
    ps
}

/// Appending the next layer to a breadth-first prefix keeps it breadth-first,
/// and every entry is then met first before the appended layer.
proof fn lemma_bfs_append(offsets: Seq<u32>, nbrs: Seq<u32>, co: Seq<int>, cf: Seq<int>, lp: int)
    requires
        0 <= lp <= co.len(),
        forall|i: int| 0 < i < co.len() ==> #[trigger] discovered_before(offsets, nbrs, co, i, co[i]),
        scan_ordered(offsets, nbrs, co, co, 1),
        forall|i: int, p: int, s: int| 0 < i < co.len() && #[trigger] first_met(offsets, nbrs, co, p, s, co[i]) ==> p < lp,
        co.len() > 0 ==> forall|t: int| 0 <= t < cf.len() ==> #[trigger] met_between(offsets, nbrs, co, lp, co.len() as int, cf[t]),
        co.len() == 0 ==> cf.len() <= 1,
        scan_ordered(offsets, nbrs, co, cf, 0),
    ensures
        forall|i: int| 0 < i < (co + cf).len() ==> #[trigger] discovered_before(offsets, nbrs, co + cf, i, (co + cf)[i]),
        scan_ordered(offsets, nbrs, co + cf, co + cf, 1),
        forall|i: int, p: int, s: int| 0 < i < (co + cf).len() && #[trigger] first_met(offsets, nbrs, co + cf, p, s, (co + cf)[i])
            ==> p < co.len(),
{
    let all = co + cf;
    let n = co.len() as int;
    assert forall|i: int| 0 < i < all.len() implies #[trigger] discovered_before(offsets, nbrs, all, i, all[i]) by {
        let ps = lemma_bfs_key(offsets, nbrs, co, cf, lp, i);
    }
    assert forall|i: int, p: int, s: int| 0 < i < all.len() && #[trigger] first_met(offsets, nbrs, all, p, s, all[i]) implies p < n by {
        let ps = lemma_bfs_key(offsets, nbrs, co, cf, lp, i);
        lemma_first_met_unique(offsets, nbrs, all, p, s, ps.0, ps.1, all[i]);
    }
    assert forall|a: int, b: int, pa: int, sa: int, pb: int, sb: int|
        1 <= a < b < all.len() && #[trigger] first_met(offsets, nbrs, all, pa, sa, all[a])
            && #[trigger] first_met(offsets, nbrs, all, pb, sb, all[b]) implies scan_before(pa, sa, pb, sb) by {
        let ka = lemma_bfs_key(offsets, nbrs, co, cf, lp, a);
        let kb = lemma_bfs_key(offsets, nbrs, co, cf, lp, b);
        lemma_first_met_unique(offsets, nbrs, all, pa, sa, ka.0, ka.1, all[a]);
        lemma_first_met_unique(offsets, nbrs, all, pb, sb, kb.0, kb.1, all[b]);
        if b < n {
            assert(all[a] == co[a] && all[b] == co[b]);
        } else if a >= n {
            assert(all[a] == cf[a - n] && all[b] == cf[b - n]);
        }
    }
}

/// The layer found by scanning the neighbour lists of the last layer `cf`
/// is met first in `cf`, after every cell listed before it (`co`), and in
/// the same order.
proof fn lemma_bfs_next_layer(
    offsets: Seq<u32>,
    nbrs: Seq<u32>,
    allowed: Seq<bool>,
    start: int,
    depth: int,
    co: Seq<int>,
    cf: Seq<int>,
    cn: Seq<int>,
)
    requires
        depth >= 0,
        depth == 0 ==> co.len() == 0,
        forall|q: int| 0 <= q < co.len() ==> 0 <= #[trigger] co[q] < allowed.len() && within_steps(offsets, nbrs, allowed, start, depth - 1, co[q]),
        forall|t: int| 0 <= t < cn.len() ==> 0 <= #[trigger] cn[t] < allowed.len() && allowed[cn[t]] && !within_steps(offsets, nbrs, allowed, start, depth, cn[t]),
        forall|t: int| 0 <= t < cn.len() ==> #[trigger] met_in_scan(offsets, nbrs, cf, cn[t]),
        scan_ordered(offsets, nbrs, cf, cn, 0),
    ensures
        forall|t: int| 0 <= t < cn.len() ==> #[trigger] met_between(offsets, nbrs, co + cf, co.len() as int, (co + cf).len() as int, cn[t]),
        scan_ordered(offsets, nbrs, co + cf, cn, 0),
{
    let all = co + cf;
    let n = co.len() as int;
    // no cell listed before the last layer neighbours a cell of the next layer
    assert forall|t: int, q: int| 0 <= t < cn.len() && 0 <= q < n implies !#[trigger] nbr_of(offsets, nbrs, co[q], cn[t]) by {
        if nbr_of(offsets, nbrs, co[q], cn[t]) {
            lemma_within_unfold(offsets, nbrs, allowed, start, depth, cn[t]);
            assert(within_steps(offsets, nbrs, allowed, start, depth - 1, co[q]));
        }
    }
    assert forall|t: int, i: int, s: int| 0 <= t < cn.len() && #[trigger] first_met(offsets, nbrs, cf, i, s, cn[t])
        implies first_met(offsets, nbrs, all, n + i, s, cn[t]) by {
        assert(all[n + i] == cf[i]);
        assert forall|q: int| 0 <= q < n + i implies !#[trigger] nbr_of(offsets, nbrs, all[q], cn[t]) by {
            if q < n {
                assert(all[q] == co[q]);
                assert(!nbr_of(offsets, nbrs, co[q], cn[t]));
            } else {
                assert(all[q] == cf[q - n]);
            }
        }
    }
    assert forall|t: int, p: int, s: int| 0 <= t < cn.len() && #[trigger] first_met(offsets, nbrs, all, p, s, cn[t])
        implies p >= n && first_met(offsets, nbrs, cf, p - n, s, cn[t]) by {
        if p < n {
            assert(all[p] == co[p]);
            assert(nbr_of(offsets, nbrs, all[p], cn[t]));
        } else {
            assert(all[p] == cf[p - n]);
            assert forall|q: int| 0 <= q < p - n implies !#[trigger] nbr_of(offsets, nbrs, cf[q], cn[t]) by {
                assert(all[n + q] == cf[q]);
                assert(!nbr_of(offsets, nbrs, all[n + q], cn[t]));
            }
        }
    }
    assert forall|t: int| 0 <= t < cn.len() implies #[trigger] met_between(offsets, nbrs, all, n, all.len() as int, cn[t]) by {
        assert(met_in_scan(offsets, nbrs, cf, cn[t]));
        let (i, s) = choose|i: int, s: int| #[trigger] first_met(offsets, nbrs, cf, i, s, cn[t]);
        assert(first_met(offsets, nbrs, all, n + i, s, cn[t]));
    }
    assert forall|a: int, b: int, pa: int, sa: int, pb: int, sb: int|
        0 <= a < b < cn.len() && #[trigger] first_met(offsets, nbrs, all, pa, sa, cn[a])
            && #[trigger] first_met(offsets, nbrs, all, pb, sb, cn[b]) implies scan_before(pa, sa, pb, sb) by {
        assert(first_met(offsets, nbrs, cf, pa - n, sa, cn[a]));
        assert(first_met(offsets, nbrs, cf, pb - n, sb, cn[b]));
    }
}

/// Every one of `n` cells may be entered.
pub open spec fn all_cells(n: int) -> Seq<bool> {
    Seq::new(n as nat, |i: int| true)
}

/// The spill cell of sink `sid`, or -1 when there is no such sink.
pub open spec fn spill_cell_of(sink_spill_cell: Seq<i32>, sid: int) -> int {
    if 0 <= sid < sink_spill_cell.len() { sink_spill_cell[sid] as int } else { -1 }
}

/// Queues the cells around the spill cell of sink `sid`: every cell within
/// `max(local_radius, 1)` steps of it, each cell once, in breadth-first
/// order from the spill cell (`breadth_first_order`: the spill cell first,
/// then the cells in the order in which the neighbour lists of the cells
/// already listed first meet them). A sink without a spill cell queues
/// nothing.
pub fn enqueue_sink_local_area(
    queue: &mut ActiveQueue,
    sink_spill_cell: &[i32],
    sid: usize,
    local_radius: u32,
    nbr_offsets: &[u32],
    nbrs: &[u32],
    cell_count: usize,
)
    requires
        valid_csr(nbr_offsets@, nbrs@, cell_count as int),
        cell_count <= u32::MAX,
        spill_cell_of(sink_spill_cell@, sid as int) < cell_count,
    ensures
        final(queue).active_head == old(queue).active_head,
        spill_cell_of(sink_spill_cell@, sid as int) < 0 ==> *final(queue) == *old(queue),
        spill_cell_of(sink_spill_cell@, sid as int) >= 0 ==> exists|order: Seq<u32>| {
            &&& order.no_duplicates()
            &&& forall|t: int| 0 <= t < order.len() ==> (#[trigger] order[t] as int) < cell_count
            &&& forall|x: int| 0 <= x < cell_count ==> (#[trigger] order.contains(x as u32) <==> within_steps(
                nbr_offsets@,
                nbrs@,
                all_cells(cell_count as int),
                spill_cell_of(sink_spill_cell@, sid as int),
                if local_radius > 1 { local_radius as int } else { 1 },
                x,
            ))
            &&& breadth_first_order(nbr_offsets@, nbrs@, spill_cell_of(sink_spill_cell@, sid as int), order)
            &&& (final(queue).active_queue@, final(queue).in_queue@) == enqueue_all_spec(
                old(queue).active_queue@,
                old(queue).in_queue@,
                order,
            )
        },
        old(queue).wf() ==> final(queue).wf(),
{
    let spill: i32 = if sid < sink_spill_cell.len() { sink_spill_cell[sid] } else { -1 };
    if spill < 0 {
        return;
    }
    let start = spill as usize;
    let max_depth: u32 = if local_radius > 1 { local_radius } else { 1 };
    let ghost allowed = all_cells(cell_count as int);
    let ghost offs = nbr_offsets@;
    let ghost nb = nbrs@;
    let ghost len = cell_count as int;
    let ghost q0 = queue.active_queue@;
    let ghost inq0 = queue.in_queue@;
    let ghost wf0 = queue.wf();
    let mut seen: Vec<u8> = vec![0u8; cell_count];
    seen.set(start, 1);
    let mut frontier: Vec<usize> = vec![start];
    let mut depth: u64 = 0;
    let mut done = false;
    let ghost mut order: Seq<u32> = Seq::empty();
    let ghost mut lp: int = 0;
    proof {
        assert forall|x: int| 0 <= x < len && #[trigger] first_reached_at(offs, nb, allowed, start as int, 0int, x) implies frontier@.contains(x as usize) by {
            if x == start {
                assert(frontier@[0] == start);
            }
        }
        assert forall|x: int| 0 <= x < len implies #[trigger] seen@[x] == if within_steps(offs, nb, allowed, start as int, 0int, x) { 1u8 } else { 0u8 } by {
        }
    }
    while !done
        invariant
            depth <= max_depth + 1,
            !done ==> depth <= max_depth,
            max_depth == if local_radius > 1 { local_radius } else { 1 },
            start < len,
            len == cell_count,
            len <= u32::MAX,
            allowed == all_cells(len),
            offs == nbr_offsets@,
            nb == nbrs@,
            valid_csr(offs, nb, len),
            seen@.len() == len,
            queue.active_head == old(queue).active_head,
            q0 == old(queue).active_queue@,
            inq0 == old(queue).in_queue@,
            wf0 == old(queue).wf(),
            (queue.active_queue@, queue.in_queue@) == enqueue_all_spec(q0, inq0, order),
            wf0 ==> queue.wf(),
            order.no_duplicates(),
            forall|t: int| 0 <= t < order.len() ==> (#[trigger] order[t] as int) < len,
            !done && depth == 0 ==> order.len() == 0,
            !done && depth > 0 ==> forall|x: int| 0 <= x < len ==> (#[trigger] order.contains(x as u32) <==> within_steps(offs, nb, allowed, start as int, depth - 1, x)),
            !done ==> forall|x: int| 0 <= x < len ==> #[trigger] seen@[x] == if within_steps(offs, nb, allowed, start as int, depth as int, x) { 1u8 } else { 0u8 },
            !done ==> frontier@.no_duplicates(),
            !done ==> forall|t: int| 0 <= t < frontier@.len() ==> (#[trigger] frontier@[t] as int) < len && first_reached_at(offs, nb, allowed, start as int, depth as int, frontier@[t] as int),
            !done ==> forall|x: int| 0 <= x < len ==> #[trigger] first_reached_at(offs, nb, allowed, start as int, depth as int, x) ==> frontier@.contains(x as usize),
            done ==> forall|x: int| 0 <= x < len ==> (#[trigger] order.contains(x as u32) <==> within_steps(offs, nb, allowed, start as int, max_depth as int, x)),
            depth > 0 ==> order.len() > 0 && order[0] as int == start,
            done ==> depth > 0,
            forall|a: int| 0 < a < order.len() ==> #[trigger] discovered_before(offs, nb, cells_u32(order), a, cells_u32(order)[a]),
            scan_ordered(offs, nb, cells_u32(order), cells_u32(order), 1),
            0 <= lp <= order.len(),
            forall|a: int, p: int, s: int| 0 < a < order.len() && #[trigger] first_met(offs, nb, cells_u32(order), p, s, cells_u32(order)[a]) ==> p < lp,
            !done && order.len() > 0 ==> forall|t: int| 0 <= t < frontier@.len() ==> #[trigger] met_between(offs, nb, cells_u32(order), lp, order.len() as int, cells_of(frontier@)[t]),
            !done ==> scan_ordered(offs, nb, cells_u32(order), cells_of(frontier@), 0),
            !done && depth == 0 ==> frontier@ == seq![start],
        decreases max_depth + 1 - depth,
    {
        let ghost order_d = order;
        let mut k: usize = 0;
        while k < frontier.len()
            invariant
                0 <= k <= frontier@.len(),
                len <= u32::MAX,
                queue.active_head == old(queue).active_head,
                (queue.active_queue@, queue.in_queue@) == enqueue_all_spec(q0, inq0, order),
                wf0 ==> queue.wf(),
                order == order_d + frontier@.take(k as int).map_values(|v: usize| v as u32),
                forall|t: int| 0 <= t < frontier@.len() ==> (#[trigger] frontier@[t] as int) < len,
            decreases frontier@.len() - k,
        {
            let v = frontier[k];
            queue.enqueue_active_vertex(v);
            proof {
                let o2 = order.push(v as u32);
                assert(o2.drop_last() =~= order);
                assert(frontier@.take(k + 1).map_values(|w: usize| w as u32) =~= frontier@.take(k as int).map_values(|w: usize| w as u32).push(v as u32));
                order = o2;
            }
            k += 1;
        }
        proof {
            assert(frontier@.take(frontier@.len() as int) =~= frontier@);
            let fr = frontier@.map_values(|v: usize| v as u32);
            assert(order == order_d + fr);
            assert forall|t: int| 0 <= t < fr.len() implies (#[trigger] fr[t] as int) == frontier@[t] as int by {}
            // the frontier is new to the order, and the order now covers `depth` steps
            assert forall|x: int| 0 <= x < len implies (#[trigger] order.contains(x as u32) <==> within_steps(offs, nb, allowed, start as int, depth as int, x)) by {
                if order.contains(x as u32) {
                    let t = choose|t: int| 0 <= t < order.len() && order[t] == x as u32;
                    if t < order_d.len() {
                        assert(order_d.contains(x as u32));
                        lemma_within_monotone(offs, nb, allowed, start as int, depth - 1, depth as int, x);
                    } else {
                        assert(fr[t - order_d.len()] == x as u32);
                        assert(first_reached_at(offs, nb, allowed, start as int, depth as int, frontier@[t - order_d.len()] as int));
                    }
                }
                if within_steps(offs, nb, allowed, start as int, depth as int, x) {
                    if depth > 0 && within_steps(offs, nb, allowed, start as int, depth - 1, x) {
                        assert(order_d.contains(x as u32));
                        let t = choose|t: int| 0 <= t < order_d.len() && order_d[t] == x as u32;
                        assert(order[t] == x as u32);
                    } else {
                        assert(first_reached_at(offs, nb, allowed, start as int, depth as int, x));
                        assert(frontier@.contains(x as usize));
                        let t = choose|t: int| 0 <= t < frontier@.len() && frontier@[t] == x as usize;
                        assert(order[order_d.len() + t] == x as u32);
                    }
                }
            }
            assert forall|a: int, b: int| 0 <= a < b < order.len() implies order[a] != order[b] by {
                if b >= order_d.len() && a < order_d.len() {
                    let y = frontier@[b - order_d.len()] as int;
                    assert(first_reached_at(offs, nb, allowed, start as int, depth as int, y));
                    assert(order_d.contains(order[a]));
                    assert(order[b] as int == y);
                    if depth > 0 {
                        let xa = order[a] as int;
                        assert(order_d[a] as int == xa);
                        assert(0 <= xa < len);
                        assert(order_d.contains(xa as u32));
                        assert(within_steps(offs, nb, allowed, start as int, depth - 1, xa));
                    }
                } else if a >= order_d.len() {
                    assert(frontier@[a - order_d.len()] != frontier@[b - order_d.len()]);
                }
            }
            assert forall|t: int| 0 <= t < order.len() implies (#[trigger] order[t] as int) < len by {
                if t >= order_d.len() {
                    assert(order[t] == fr[t - order_d.len()]);
                }
            }
            // the appended layer keeps the order breadth-first
            let co = cells_u32(order_d);
            let cf = cells_of(frontier@);
            assert(cells_u32(order) =~= co + cf) by {
                assert forall|t: int| 0 <= t < order.len() implies #[trigger] cells_u32(order)[t] == (co + cf)[t] by {
                    if t >= order_d.len() {
                        assert(order[t] == fr[t - order_d.len()]);
                    }
                }
            }
            lemma_bfs_append(offs, nb, co, cf, lp);
            lp = order_d.len() as int;
            if depth == 0 {
                assert(order[0] == fr[0]);
            } else {
                assert(order[0] == order_d[0]);
            }
        }
        if depth >= max_depth as u64 {
            done = true;
        } else {
            let ghost seen_d = seen@;
            proof {
                lemma_valid_csr_clamped(offs, nb, len);
            }
            let next = expand_frontier(&frontier, nbr_offsets, nbrs, &mut seen);
            proof {
                let rn = depth as int;
                assert forall|x: int| #[trigger] adjacent_to_any(offs, nb, frontier@, x) <==> exists|y: int| 0 <= y < len && #[trigger] first_reached_at(offs, nb, allowed, start as int, rn, y) && nbr_of(offs, nb, y, x) by {
                    if adjacent_to_any(offs, nb, frontier@, x) {
                        let t = choose|t: int| 0 <= t < frontier@.len() && #[trigger] nbr_of(offs, nb, frontier@[t] as int, x);
                        assert(first_reached_at(offs, nb, allowed, start as int, rn, frontier@[t] as int));
                    }
                    if exists|y: int| 0 <= y < len && #[trigger] first_reached_at(offs, nb, allowed, start as int, rn, y) && nbr_of(offs, nb, y, x) {
                        let y = choose|y: int| 0 <= y < len && #[trigger] first_reached_at(offs, nb, allowed, start as int, rn, y) && nbr_of(offs, nb, y, x);
                        assert(frontier@.contains(y as usize));
                        let t = choose|t: int| 0 <= t < frontier@.len() && frontier@[t] == y as usize;
                        assert(nbr_of(offs, nb, frontier@[t] as int, x));
                    }
                }
                assert forall|x: int| 0 <= x < len implies #[trigger] first_reached_at(offs, nb, allowed, start as int, rn + 1, x) <==> (seen_d[x] == 0
                    && adjacent_to_any(offs, nb, frontier@, x)) by {
                    lemma_next_layer(offs, nb, allowed, start as int, rn, x);
                }
                assert forall|x: int| 0 <= x < len && #[trigger] first_reached_at(offs, nb, allowed, start as int, rn + 1, x) implies next@.contains(x as usize) by {
                    lemma_next_layer(offs, nb, allowed, start as int, rn, x);
                }
                assert forall|t: int| 0 <= t < next@.len() implies (#[trigger] next@[t] as int) < len && first_reached_at(offs, nb, allowed, start as int, rn + 1, next@[t] as int) by {
                    lemma_next_layer(offs, nb, allowed, start as int, rn, next@[t] as int);
                }
                assert forall|x: int| 0 <= x < len implies #[trigger] seen@[x] == if within_steps(offs, nb, allowed, start as int, rn + 1, x) { 1u8 } else { 0u8 } by {
                    lemma_next_layer(offs, nb, allowed, start as int, rn, x);
                    if within_steps(offs, nb, allowed, start as int, rn, x) {
                        lemma_within_monotone(offs, nb, allowed, start as int, rn, rn + 1, x);
                    }
                }
            }
            proof {
                let co = cells_u32(order_d);
                let cf = cells_of(frontier@);
                let cn = cells_of(next@);
                assert forall|q: int| 0 <= q < co.len() implies 0 <= #[trigger] co[q] < allowed.len() && within_steps(offs, nb, allowed, start as int, depth - 1, co[q]) by {
                    assert(order_d.contains(order_d[q]));
                    assert(order_d[q] as int == co[q]);
                    assert((co[q] as u32) == order_d[q]);
                }
                assert forall|t: int| 0 <= t < cn.len() implies 0 <= #[trigger] cn[t] < allowed.len() && allowed[cn[t]] && !within_steps(offs, nb, allowed, start as int, depth as int, cn[t]) by {
                    assert(cn[t] == next@[t] as int);
                    assert(first_reached_at(offs, nb, allowed, start as int, depth + 1, next@[t] as int));
                }
                assert forall|t: int| 0 <= t < cn.len() implies #[trigger] met_in_scan(offs, nb, cf, cn[t]) by {
                    assert(cn[t] == next@[t] as int);
                }
                assert forall|a: int, b: int, pa: int, sa: int, pb: int, sb: int|
                    0 <= a < b < cn.len() && #[trigger] first_met(offs, nb, cf, pa, sa, cn[a])
                        && #[trigger] first_met(offs, nb, cf, pb, sb, cn[b]) implies scan_before(pa, sa, pb, sb) by {
                    assert(cn[a] == next@[a] as int && cn[b] == next@[b] as int);
                }
                lemma_bfs_next_layer(offs, nb, allowed, start as int, depth as int, co, cf, cn);
            }
            if next.len() == 0 {
                done = true;
                proof {
                    let rn = depth as int;
                    assert forall|z: int| #[trigger] within_steps(offs, nb, allowed, start as int, rn + 1, z) implies within_steps(offs, nb, allowed, start as int, rn, z) by {
                        if !within_steps(offs, nb, allowed, start as int, rn, z) {
                            lemma_next_layer(offs, nb, allowed, start as int, rn, z);
                            assert(first_reached_at(offs, nb, allowed, start as int, rn + 1, z));
                            assert(next@.contains(z as usize));
                        }
                    }
                    assert forall|x: int| 0 <= x < len implies (#[trigger] order.contains(x as u32) <==> within_steps(offs, nb, allowed, start as int, max_depth as int, x)) by {
                        lemma_within_stable(offs, nb, allowed, start as int, rn + 1, max_depth as int, x);
                        if within_steps(offs, nb, allowed, start as int, rn + 1, x) {
                        }
                    }
                }
            } else {
                frontier = next;
            }
        }
        depth += 1;
    }
    proof {
        if wf0 {
            lemma_enqueue_all_keeps_queue_wf(q0, inq0, old(queue).active_head as int, order);
        }
        assert(spill_cell_of(sink_spill_cell@, sid as int) == start);
        assert(cells_u32(order)[0] == order[0] as int);
        assert(breadth_first_order(nbr_offsets@, nbrs@, start as int, order));
    }
}

} // verus!
