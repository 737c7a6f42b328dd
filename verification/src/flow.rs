//! Primary river routing: each cell names at most one downstream cell
//! (`next[i] >= 0`) or is an outlet (`next[i] < 0`).
use vstd::prelude::*;
use vstd::set_lib::*;

verus! {

/// Targets that point past the end of the mesh become outlets (`-1`).
pub open spec fn clamp_targets(s: Seq<i32>) -> Seq<i32> {
    Seq::new(s.len(), |i: int| if s[i] >= 0 && s[i] >= s.len() { -1i32 } else { s[i] })
}

/// One routing step from `x`; anything that is not a cell index leads to the outlet `-1`.
pub open spec fn step_of(s: Seq<i32>, x: int) -> int {
    if 0 <= x < s.len() {
        s[x] as int
    } else {
        -1
    }
}

/// Where `k` routing steps lead from `x`.
pub open spec fn walk(s: Seq<i32>, x: int, k: nat) -> int
    decreases k,
{
    if k == 0 {
        x
    } else {
        walk(s, step_of(s, x), (k - 1) as nat)
    }
}

/// Following the routing from `x` eventually leaves the mesh through an outlet.
pub open spec fn reaches_outlet(s: Seq<i32>, x: int) -> bool {
    exists|k: nat| #[trigger] walk(s, x, k) < 0
}

/// Cell `x` lies on a routing cycle: following its successor leads back to `x`.
pub open spec fn on_cycle(s: Seq<i32>, x: int) -> bool {
    exists|k: nat| #[trigger] walk(s, step_of(s, x), k) == x
}

/// Every cell of the routing drains to an outlet.
pub open spec fn drains_everywhere(s: Seq<i32>) -> bool {
    forall|x: int| 0 <= x < s.len() ==> #[trigger] reaches_outlet(s, x)
}

/// Every target is either an outlet or a cell of the mesh.
pub open spec fn targets_in_range(s: Seq<i32>) -> bool {
    forall|x: int| 0 <= x < s.len() ==> #[trigger] s[x] < s.len()
}

proof fn lemma_walk_add(s: Seq<i32>, x: int, a: nat, b: nat)
    ensures
        walk(s, x, a + b) == walk(s, walk(s, x, a), b),
    decreases a,
{
    if a > 0 {
        lemma_walk_add(s, step_of(s, x), (a - 1) as nat, b);
        assert((a + b - 1) as nat == (a - 1) as nat + b);
    }
}

proof fn lemma_walk_chain(s: Seq<i32>, path: Seq<usize>, j: int, m: nat)
    requires
        0 <= j,
        j + m < path.len(),
        forall|t: int| 0 <= t < path.len() ==> #[trigger] path[t] < s.len(),
        forall|t: int|
            0 <= t < path.len() - 1 ==> #[trigger] s[path[t] as int] as int == path[t + 1] as int,
    ensures
        walk(s, path[j] as int, m) == path[j + m] as int,
    decreases m,
{
    if m > 0 {
        assert(step_of(s, path[j] as int) == path[j + 1] as int);
        lemma_walk_chain(s, path, j + 1, (m - 1) as nat);
    }
}

proof fn lemma_walk_cycle(s: Seq<i32>, path: Seq<usize>, k: int, m: nat)
    requires
        0 <= k < path.len(),
        forall|t: int| 0 <= t < path.len() ==> #[trigger] path[t] < s.len(),
        forall|t: int|
            0 <= t < path.len() - 1 ==> #[trigger] s[path[t] as int] as int == path[t + 1] as int,
        s[path[path.len() - 1] as int] as int == path[k] as int,
    ensures
        exists|t: int| k <= t < path.len() && walk(s, path[k] as int, m) == path[t] as int,
    decreases m,
{
    if m > 0 {
        lemma_walk_cycle(s, path, k, (m - 1) as nat);
        let t = choose|t: int| k <= t < path.len() && walk(s, path[k] as int, (m - 1) as nat) == path[t] as int;
        lemma_walk_add(s, path[k] as int, (m - 1) as nat, 1);
        assert(walk(s, path[t] as int, 1) == walk(s, step_of(s, path[t] as int), 0));
        if t < path.len() - 1 {
            assert(walk(s, path[k] as int, m) == path[t + 1] as int);
        } else {
            assert(walk(s, path[k] as int, m) == path[k] as int);
        }
    } else {
        assert(walk(s, path[k] as int, m) == path[k] as int);
    }
}

/// Done cells (state 2) route to an outlet or to a done cell of smaller rank.
spec fn done_ok(r: Seq<i32>, st: Seq<u8>, rank: Seq<int>) -> bool {
    forall|d: int|
        0 <= d < r.len() && #[trigger] st[d] == 2 ==> {
            &&& rank[d] >= 0
            &&& (r[d] < 0 || (r[d] < r.len() && st[r[d] as int] == 2 && rank[r[d] as int]
                < rank[d]))
        }
}

proof fn lemma_ranked_reaches(r: Seq<i32>, st: Seq<u8>, rank: Seq<int>, x: int)
    requires
        done_ok(r, st, rank),
        st.len() == r.len(),
        rank.len() == r.len(),
        0 <= x < r.len(),
        st[x] == 2,
    ensures
        reaches_outlet(r, x),
    decreases rank[x],
{
    if r[x] < 0 {
        assert(walk(r, x, 1) == walk(r, step_of(r, x), 0));
        assert(walk(r, x, 1) < 0);
    } else {
        let y = r[x] as int;
        lemma_ranked_reaches(r, st, rank, y);
        let k = choose|k: nat| #[trigger] walk(r, y, k) < 0;
        assert(walk(r, x, k + 1) == walk(r, step_of(r, x), k));
        assert(walk(r, x, k + 1) < 0);
    }
}

proof fn lemma_distinct_bound(path: Seq<usize>, count: nat, extra: usize)
    requires
        count <= usize::MAX,
        path.no_duplicates(),
        forall|t: int| 0 <= t < path.len() ==> #[trigger] path[t] < count,
        extra < count,
        !path.contains(extra),
    ensures
        path.len() < count,
{
    let s = path.to_set();
    path.unique_seq_to_set();
    let full = Set::new(|v: usize| v < count);
    assert(s.insert(extra).subset_of(full));
    let ints = set_int_range(0, count as int);
    lemma_int_range(0, count as int);
    assert(full == ints.map(|i: int| i as usize)) by {
        assert forall|v: usize| full.contains(v) implies ints.map(|i: int| i as usize).contains(v) by {
            assert(ints.contains(v as int));
        }
    }
    assert forall|a: int, b: int| ints.contains(a) && ints.contains(b) && #[trigger] (a as usize) == #[trigger] (b as usize)
        implies a == b by {
        assert(0 <= a < count && 0 <= b < count);
    }
    lemma_map_size(ints, full, |i: int| i as usize);
    lemma_len_subset(s.insert(extra), full);
}

/// Following the routing from `y` reaches `x`.
pub open spec fn leads_to(s: Seq<i32>, y: int, x: int) -> bool {
    exists|k: nat| #[trigger] walk(s, y, k) == x
}

/// Some cell below `b` reaches `x`.
pub open spec fn reached_before(s: Seq<i32>, b: int, x: int) -> bool {
    exists|y: int| 0 <= y < b && #[trigger] leads_to(s, y, x)
}

/// `x` is the first cell on a cycle that the walk from `y` meets.
pub open spec fn first_cycle_cell(s: Seq<i32>, y: int, x: int) -> bool {
    exists|k: nat| #[trigger] walk(s, y, k) == x && forall|j: nat| j < k ==> !on_cycle(s, #[trigger] walk(s, y, j))
}

/// Cell `x` is where a walk started from a cell below `b` first closes a
/// cycle: `x` lies on a cycle, and it is the first cycle cell on the walk
/// from the smallest cell whose walk reaches `x`.
pub open spec fn cut_by(s: Seq<i32>, b: int, x: int) -> bool {
    &&& on_cycle(s, x)
    &&& exists|y: int| 0 <= y < b && #[trigger] leads_to(s, y, x) && !reached_before(s, y, x) && first_cycle_cell(s, y, x)
}

/// The cell of a cycle that the sanitizer turns into an outlet: the first
/// cell of the cycle that the walk from the smallest cell reaching the
/// cycle meets (the first cell that walk reaches twice).
pub open spec fn cut_cell(s: Seq<i32>, x: int) -> bool {
    cut_by(s, s.len() as int, x)
}

proof fn lemma_leads_trans(s: Seq<i32>, a: int, b: int, c: int)
    requires
        leads_to(s, a, b),
        leads_to(s, b, c),
    ensures
        leads_to(s, a, c),
{
    let k1 = choose|k: nat| #[trigger] walk(s, a, k) == b;
    let k2 = choose|k: nat| #[trigger] walk(s, b, k) == c;
    lemma_walk_add(s, a, k1, k2);
    assert(walk(s, a, k1 + k2) == c);
}

/// A walk from a cell on a cycle never reaches an outlet.
proof fn lemma_cycle_never_drains(s: Seq<i32>, x: int, m: nat)
    requires
        0 <= x,
        on_cycle(s, x),
    ensures
        walk(s, x, m) >= 0,
{
    let k = choose|k: nat| #[trigger] walk(s, step_of(s, x), k) == x;
    let p = (k + 1) as nat;
    assert(walk(s, x, p) == walk(s, step_of(s, x), k));
    if walk(s, x, m) < 0 {
        let q = (m + 1) as nat;
        lemma_walk_periodic(s, x, p, q);
        assert(q * p >= m) by (nonlinear_arith)
            requires
                p >= 1,
                q == m + 1,
        ;
        lemma_walk_add(s, x, m, (q * p - m) as nat);
        lemma_walk_from_outlet(s, walk(s, x, m), (q * p - m) as nat);
        assert((m + (q * p - m) as nat) as nat == q * p);
    }
}

/// The walk from `path[0]` follows the path and then goes on from `node`.
proof fn lemma_path_walk(s: Seq<i32>, path: Seq<usize>, node: int, k: nat)
    requires
        path.len() >= 1,
        forall|t: int| 0 <= t < path.len() ==> #[trigger] path[t] < s.len(),
        forall|t: int| 0 <= t < path.len() - 1 ==> #[trigger] s[path[t] as int] as int == path[t + 1] as int,
        node == s[path.last() as int],
    ensures
        k < path.len() ==> walk(s, path[0] as int, k) == path[k as int] as int,
        k >= path.len() ==> walk(s, path[0] as int, k) == walk(s, node, (k - path.len()) as nat),
{
    if k < path.len() {
        lemma_walk_chain(s, path, 0, k);
    } else {
        let last = (path.len() - 1) as nat;
        lemma_walk_chain(s, path, 0, last);
        lemma_walk_add(s, path[0] as int, last, (k - last) as nat);
        assert(walk(s, path[last as int] as int, (k - last) as nat) == walk(s, step_of(s, path[last as int] as int), (k - last - 1) as nat));
    }
}

/// Skipping a start that an earlier start reaches changes nothing.
proof fn lemma_skip_start(s: Seq<i32>, b: int, x: int)
    requires
        0 <= b,
        reached_before(s, b, b),
    ensures
        reached_before(s, b + 1, x) == reached_before(s, b, x),
        cut_by(s, b + 1, x) == cut_by(s, b, x),
{
    let y0 = choose|y: int| 0 <= y < b && #[trigger] leads_to(s, y, b);
    if leads_to(s, b, x) {
        lemma_leads_trans(s, y0, b, x);
        assert(reached_before(s, b, x));
    }
    if cut_by(s, b + 1, x) {
        let y = choose|y: int| 0 <= y < b + 1 && #[trigger] leads_to(s, y, x) && !reached_before(s, y, x) && first_cycle_cell(s, y, x);
        if y == b {
            lemma_leads_trans(s, y0, b, x);
            assert(leads_to(s, y0, x));
            assert(reached_before(s, b, x));
        }
    }
}

/// Following one new start along `path` until it meets an outlet (exit 0),
/// a cell reached before (exit 1) or a cell of the path (exit 2): the cells
/// reached so far grow by the path, and the cut cells by the repeated cell
/// in the last case.
proof fn lemma_start_step(s: Seq<i32>, path: Seq<usize>, node: int, exit: int)
    requires
        s.len() <= usize::MAX,
        targets_in_range(s),
        path.len() >= 1,
        path.no_duplicates(),
        forall|t: int| 0 <= t < path.len() ==> #[trigger] path[t] < s.len(),
        forall|t: int| 0 <= t < path.len() - 1 ==> #[trigger] s[path[t] as int] as int == path[t + 1] as int,
        node == s[path.last() as int],
        forall|t: int| 0 <= t < path.len() ==> !#[trigger] reached_before(s, path[0] as int, path[t] as int),
        exit == 0 ==> node < 0,
        exit == 1 ==> 0 <= node && reached_before(s, path[0] as int, node),
        exit == 2 ==> 0 <= node && path.contains(node as usize) && on_cycle(s, node),
        exit == 0 || exit == 1 || exit == 2,
    ensures
        forall|x: int| 0 <= x < s.len() ==> (#[trigger] reached_before(s, path[0] + 1, x) <==> (reached_before(s, path[0] as int, x)
            || path.contains(x as usize))),
        forall|x: int| 0 <= x < s.len() ==> (#[trigger] cut_by(s, path[0] + 1, x) <==> (cut_by(s, path[0] as int, x) || (exit == 2
            && x == node))),
{
    let b = path[0] as int;
    let len = path.len();
    // what the new start reaches
    assert forall|x: int| 0 <= x < s.len() && #[trigger] leads_to(s, b, x) implies path.contains(x as usize) || (exit == 1
        && reached_before(s, b, x)) by {
        let k = choose|k: nat| #[trigger] walk(s, b, k) == x;
        lemma_path_walk(s, path, node, k);
        if k >= len {
            let m = (k - len) as nat;
            if exit == 0 {
                lemma_walk_from_outlet(s, node, m);
            } else if exit == 1 {
                assert(leads_to(s, node, x));
                let y = choose|y: int| 0 <= y < b && #[trigger] leads_to(s, y, node);
                lemma_leads_trans(s, y, node, x);
            } else {
                let k0 = choose|u: int| 0 <= u < len && path[u] == node as usize;
                lemma_walk_cycle(s, path, k0, m);
                let t = choose|t: int| k0 <= t < len && walk(s, path[k0] as int, m) == path[t] as int;
                assert(path[t] as int == x);
            }
        } else {
            assert(path[k as int] as int == x);
        }
    }
    assert forall|t: int| 0 <= t < len implies #[trigger] leads_to(s, b, path[t] as int) by {
        lemma_path_walk(s, path, node, t as nat);
    }
    assert forall|x: int| 0 <= x < s.len() implies (#[trigger] reached_before(s, b + 1, x) <==> (reached_before(s, b, x)
        || path.contains(x as usize))) by {
        if path.contains(x as usize) {
            let t = choose|t: int| 0 <= t < len && path[t] == x as usize;
            assert(leads_to(s, b, path[t] as int));
            assert(path[t] as int == x);
            assert(leads_to(s, b, x));
            assert(reached_before(s, b + 1, x));
        }
        if reached_before(s, b, x) {
            let y = choose|y: int| 0 <= y < b && #[trigger] leads_to(s, y, x);
            assert(reached_before(s, b + 1, x));
        }
        if reached_before(s, b + 1, x) && !reached_before(s, b, x) {
            let y = choose|y: int| 0 <= y < b + 1 && #[trigger] leads_to(s, y, x);
            assert(y == b);
        }
    }
    // cells of the path before `k0` lie on no cycle (exit 2); no cell of the path does (exits 0 and 1)
    assert forall|j: int| 0 <= j < len && #[trigger] on_cycle(s, path[j] as int) implies exit == 2 && {
        let k0 = choose|u: int| 0 <= u < len && path[u] == node as usize;
        j >= k0
    } by {
        let x = path[j] as int;
        let kk = choose|kk: nat| #[trigger] walk(s, step_of(s, x), kk) == x;
        let p = (kk + 1) as nat;
        assert(walk(s, x, p) == walk(s, step_of(s, x), kk));
        lemma_path_walk(s, path, node, j as nat);
        lemma_walk_add(s, b, j as nat, p);
        lemma_path_walk(s, path, node, (j + p) as nat);
        if j + p < len {
            assert(path[j + p] == path[j]);
        } else {
            let m = (j + p - len) as nat;
            if exit == 0 {
                lemma_walk_from_outlet(s, node, m);
            } else if exit == 1 {
                assert(leads_to(s, node, x));
                let y = choose|y: int| 0 <= y < b && #[trigger] leads_to(s, y, node);
                lemma_leads_trans(s, y, node, x);
                assert(reached_before(s, b, path[j] as int));
            } else {
                let k0 = choose|u: int| 0 <= u < len && path[u] == node as usize;
                lemma_walk_cycle(s, path, k0, m);
                let t = choose|t: int| k0 <= t < len && walk(s, path[k0] as int, m) == path[t] as int;
                assert(path[t] == path[j]);
                assert(t == j);
            }
        }
    }
    assert forall|x: int| 0 <= x < s.len() implies (#[trigger] cut_by(s, b + 1, x) <==> (cut_by(s, b, x) || (exit == 2
        && x == node))) by {
        if cut_by(s, b + 1, x) && !cut_by(s, b, x) {
            let y = choose|y: int| 0 <= y < b + 1 && #[trigger] leads_to(s, y, x) && !reached_before(s, y, x) && first_cycle_cell(s, y, x);
            assert(y == b);
            let k = choose|k: nat| #[trigger] walk(s, b, k) == x && forall|j: nat| j < k ==> !on_cycle(s, #[trigger] walk(s, b, j));
            assert(!reached_before(s, b, x));
            assert(path.contains(x as usize));
            let t = choose|t: int| 0 <= t < len && path[t] == x as usize;
            assert(path[t] as int == x);
            assert(on_cycle(s, path[t] as int));
            let k0 = choose|u: int| 0 <= u < len && path[u] == node as usize;
            lemma_path_walk(s, path, node, k);
            lemma_path_walk(s, path, node, k0 as nat);
            if (k as int) < k0 {
                assert(path[k as int] as int == x);
                assert(on_cycle(s, path[k as int] as int));
            } else if (k as int) > k0 {
                assert(walk(s, b, k0 as nat) == node);
                assert(on_cycle(s, walk(s, b, k0 as nat)));
            }
            assert(walk(s, b, k0 as nat) == node);
        }
        if exit == 2 && x == node && !cut_by(s, b, x) {
            let k0 = choose|u: int| 0 <= u < len && path[u] == node as usize;
            lemma_path_walk(s, path, node, k0 as nat);
            assert(leads_to(s, b, x));
            assert(!reached_before(s, b, path[k0] as int));
            assert forall|j: nat| j < k0 as nat implies !on_cycle(s, #[trigger] walk(s, b, j)) by {
                lemma_path_walk(s, path, node, j);
                if on_cycle(s, walk(s, b, j)) {
                    assert(on_cycle(s, path[j as int] as int));
                }
            }
            assert(first_cycle_cell(s, b, x));
        }
    }
}

/// Makes the primary routing acyclic.
///
/// Targets past the end of the mesh become outlets. Then every cycle is
/// broken by turning one of its cells into an outlet (`-1`): the cell cut
/// is the first cell of the cycle met by the walk from the smallest cell
/// whose walk reaches the cycle (`cut_cell`), which is the first cell that
/// walk would visit twice. Nothing else changes: every other entry keeps
/// its (clamped) target. Afterwards every cell drains to an outlet.
pub fn sanitize_primary_next_no_cycle(river_next: &mut [i32])
    requires
        old(river_next)@.len() <= i32::MAX,
    ensures
        final(river_next)@.len() == old(river_next)@.len(),
        forall|i: int|
            0 <= i < old(river_next)@.len() ==> #[trigger] final(river_next)@[i] == if cut_cell(
                clamp_targets(old(river_next)@),
                i,
            ) {
                -1i32
            } else {
                clamp_targets(old(river_next)@)[i]
            },
        forall|i: int|
            0 <= i < old(river_next)@.len() ==> (#[trigger] final(river_next)@[i]
                == clamp_targets(old(river_next)@)[i] || (final(river_next)@[i] == -1
                && on_cycle(clamp_targets(old(river_next)@), i))),
        forall|i: int, m: nat|
            0 <= i < old(river_next)@.len() && final(river_next)@[i] != clamp_targets(
                old(river_next)@,
            )[i] && #[trigger] walk(clamp_targets(old(river_next)@), i, m) != i ==> final(river_next)@[walk(
                clamp_targets(old(river_next)@),
                i,
                m,
            )] == clamp_targets(old(river_next)@)[walk(clamp_targets(old(river_next)@), i, m)],
        targets_in_range(final(river_next)@),
        drains_everywhere(final(river_next)@),
        targets_in_range(old(river_next)@) && drains_everywhere(old(river_next)@) ==> final(river_next)@
            == old(river_next)@,
{
    let count = river_next.len();
    let ghost n1 = clamp_targets(river_next@);
    if count == 0 {
        return;
    }
    let mut i: usize = 0;
    while i < count
        invariant
            0 <= i <= count,
            count == river_next@.len(),
            count == old(river_next)@.len(),
            n1.len() == count,
            n1 == clamp_targets(old(river_next)@),
            forall|x: int| 0 <= x < i ==> #[trigger] river_next@[x] == n1[x],
            forall|x: int| i <= x < count ==> #[trigger] river_next@[x] == old(river_next)@[x],
        decreases count - i,
    {
        if river_next[i] >= 0 && (river_next[i] as usize) >= count {
            river_next[i] = -1;
        }
        assert(river_next@[i as int] == n1[i as int]);
        i += 1;
    }
    assert(river_next@ == n1);

    let mut visit_state: Vec<u8> = vec![0u8; count];
    let mut path: Vec<usize> = Vec::with_capacity(32);
    let ghost mut rank: Seq<int> = Seq::new(count as nat, |x: int| 0int);
    let ghost mut pos: Seq<int> = Seq::new(count as nat, |x: int| 0int);
    let mut start: usize = 0;
    while start < count
        invariant
            0 <= start <= count,
            count <= i32::MAX,
            count == river_next@.len(),
            n1.len() == count,
            targets_in_range(n1),
            targets_in_range(river_next@),
            visit_state@.len() == count,
            rank.len() == count,
            pos.len() == count,
            path@.len() == 0,
            forall|x: int| 0 <= x < count ==> #[trigger] visit_state@[x] == 0 || visit_state@[x] == 2,
            forall|x: int| 0 <= x < start ==> #[trigger] visit_state@[x] == 2,
            forall|x: int| 0 <= x < count && #[trigger] visit_state@[x] != 2 ==> river_next@[x] == n1[x],
            forall|x: int|
                0 <= x < count ==> (#[trigger] river_next@[x] == n1[x] || (river_next@[x] == -1
                    && on_cycle(n1, x))),
            done_ok(river_next@, visit_state@, rank),
            forall|x: int, m: nat|
                0 <= x < count && river_next@[x] != n1[x] ==> 0 <= #[trigger] walk(n1, x, m) < count
                    && visit_state@[walk(n1, x, m)] == 2,
            forall|x: int, m: nat|
                0 <= x < count && river_next@[x] != n1[x] && #[trigger] walk(n1, x, m) != x
                    ==> river_next@[walk(n1, x, m)] == n1[walk(n1, x, m)],
            forall|x: int|
                0 <= x < count ==> (#[trigger] visit_state@[x] == 2 <==> reached_before(
                    n1,
                    start as int,
                    x,
                )),
            forall|x: int|
                0 <= x < count ==> (#[trigger] river_next@[x] != n1[x] <==> cut_by(
                    n1,
                    start as int,
                    x,
                )),
        decreases count - start,
    {
        if visit_state[start] != 0 {
            proof {
                assert(reached_before(n1, start as int, start as int));
                assert forall|x: int| 0 <= x < count implies (#[trigger] visit_state@[x] == 2
                    <==> reached_before(n1, start + 1, x)) by {
                    lemma_skip_start(n1, start as int, x);
                }
                assert forall|x: int| 0 <= x < count implies (#[trigger] river_next@[x] != n1[x]
                    <==> cut_by(n1, start + 1, x)) by {
                    lemma_skip_start(n1, start as int, x);
                }
            }
            start += 1;
            continue;
        }
        let ghost r0 = river_next@;
        let ghost st0 = visit_state@;
        assert(forall|x: int| 0 <= x < count ==> (#[trigger] st0[x] == 2 <==> reached_before(n1, start as int, x)));
        assert(forall|x: int| 0 <= x < count ==> (#[trigger] r0[x] != n1[x] <==> cut_by(n1, start as int, x)));
        assert(forall|x: int| 0 <= x < count && #[trigger] st0[x] != 2 ==> r0[x] == n1[x]);
        assert(forall|x: int| 0 <= x < count ==> #[trigger] st0[x] == 0 || st0[x] == 2);
        let mut node: i32 = start as i32;
        let ghost mut exit: int = 0;
        loop
            invariant_except_break
                count == river_next@.len(),
                river_next@ == r0,
                visit_state@.len() == count,
                pos.len() == count,
                0 <= start < count,
                start < i32::MAX,
                st0.len() == count,
                r0.len() == count,
                n1.len() == count,
                targets_in_range(n1),
                st0[start as int] == 0,
                forall|x: int| 0 <= x < count && #[trigger] st0[x] != 2 ==> r0[x] == n1[x],
                forall|x: int| 0 <= x < count ==> #[trigger] st0[x] == 0 || st0[x] == 2,
                forall|t: int| 0 <= t < path@.len() ==> #[trigger] st0[path@[t] as int] == 0,
                path@.no_duplicates(),
                path@.len() <= count,
                forall|t: int| 0 <= t < path@.len() ==> #[trigger] path@[t] < count,
                forall|t: int| 0 <= t < path@.len() ==> #[trigger] pos[path@[t] as int] == t,
                forall|x: int|
                    0 <= x < count ==> (#[trigger] visit_state@[x] == 1 <==> path@.contains(
                        x as usize)),
                forall|x: int|
                    0 <= x < count && !path@.contains(x as usize) ==> #[trigger] visit_state@[x]
                        == st0[x],
                forall|t: int|
                    0 <= t < path@.len() - 1 ==> #[trigger] n1[path@[t] as int] as int == path@[t
                        + 1] as int,
                path@.len() == 0 ==> node == start,
                path@.len() > 0 ==> path@[0] == start && node == n1[path@.last() as int],
                node < count,
            ensures
                count == river_next@.len(),
                forall|t: int| 0 <= t < path@.len() ==> #[trigger] st0[path@[t] as int] == 0,
                visit_state@.len() == count,
                pos.len() == count,
                path@.no_duplicates(),
                path@.len() > 0,
                path@[0] == start,
                forall|t: int| 0 <= t < path@.len() ==> #[trigger] path@[t] < count,
                forall|t: int| 0 <= t < path@.len() ==> #[trigger] pos[path@[t] as int] == t,
                forall|x: int|
                    0 <= x < count ==> (#[trigger] visit_state@[x] == 1 <==> path@.contains(
                        x as usize)),
                forall|x: int|
                    0 <= x < count && !path@.contains(x as usize) ==> #[trigger] visit_state@[x]
                        == st0[x],
                forall|t: int|
                    0 <= t < path@.len() - 1 ==> #[trigger] n1[path@[t] as int] as int == path@[t
                        + 1] as int,
                node == n1[path@.last() as int],
                exit == 0 ==> node < 0 && river_next@ == r0,
                exit == 1 ==> 0 <= node && st0[node as int] == 2 && river_next@ == r0,
                exit == 2 ==> 0 <= node < count && path@.contains(node as usize) && river_next@
                    == r0.update(node as int, -1i32),
                exit == 0 || exit == 1 || exit == 2,
            decreases count - path@.len(),
        {
            if node < 0 {
                proof {
                    exit = 0;
                }
                break;
            }
            let idx = node as usize;
            if idx >= count {
                break;
            }
            let s = visit_state[idx];
            if s == 0 {
                proof {
                    lemma_distinct_bound(path@, count as nat, idx);
                    pos = pos.update(idx as int, path@.len() as int);
                }
                let ghost old_path = path@;
                visit_state.set(idx, 1);
                path.push(idx);
                node = river_next[idx];
                proof {
                    assert(path@ == old_path.push(idx));
                    assert forall|x: int| 0 <= x < count implies (#[trigger] visit_state@[x] == 1 <==> path@.contains(x as usize)) by {
                        if x == idx as int {
                            assert(path@[path@.len() - 1] == idx);
                        } else {
                            if path@.contains(x as usize) {
                                let t = choose|t: int| 0 <= t < path@.len() && path@[t] == x as usize;
                                assert(old_path[t] == x as usize);
                            }
                            if old_path.contains(x as usize) {
                                let t = choose|t: int| 0 <= t < old_path.len() && old_path[t] == x as usize;
                                assert(path@[t] == x as usize);
                            }
                        }
                    }
                    assert forall|x: int| 0 <= x < count && !path@.contains(x as usize) implies #[trigger] visit_state@[x] == st0[x] by {
                        assert(path@[path@.len() - 1] == idx);
                        assert(x != idx as int);
                        if old_path.contains(x as usize) {
                            let t = choose|t: int| 0 <= t < old_path.len() && old_path[t] == x as usize;
                            assert(path@[t] == x as usize);
                        }
                    }
                    assert forall|t: int| 0 <= t < path@.len() - 1 implies #[trigger] n1[path@[t] as int] as int
                        == path@[t + 1] as int by {
                        if t == path@.len() - 2 {
                        }
                    }
                }
            } else if s == 1 {
                river_next[idx] = -1;
                proof {
                    exit = 2;
                }
                break;
            } else {
                proof {
                    exit = 1;
                }
                break;
            }
        }
        let ghost last: int = path@.len() - 1;
        let ghost k: int = if exit == 2 { pos[node as int] } else { 0 };
        proof {
            if exit == 2 {
                // The revisited cell closes a cycle of the clamped routing.
                let idx = node as int;
                assert(path@[k] as int == idx) by {
                    let t = choose|t: int| 0 <= t < path@.len() && path@[t] == node as usize;
                    assert(pos[path@[t] as int] == t);
                }
                lemma_walk_chain(n1, path@, k, (last - k) as nat);
                assert(step_of(n1, path@[last] as int) == idx);
                lemma_walk_add(n1, path@[k] as int, (last - k) as nat, 1);
                assert(walk(n1, path@[last] as int, 1) == walk(n1, step_of(n1, path@[last] as int), 0));
                assert(walk(n1, path@[k] as int, (last - k + 1) as nat) == idx);
                assert(walk(n1, path@[k] as int, (last - k + 1) as nat) == walk(
                    n1,
                    step_of(n1, path@[k] as int),
                    (last - k) as nat,
                ));
                assert(on_cycle(n1, idx));
            }
        }
        let ghost st1 = visit_state@;
        let ghost base: int = if exit == 1 { rank[node as int] } else { 0 };
        let ghost new_rank: Seq<int> = Seq::new(
            count as nat,
            |x: int|
                if st1[x] == 1 {
                    if exit == 0 {
                        last - pos[x]
                    } else if exit == 1 {
                        base + 1 + last - pos[x]
                    } else if pos[x] <= k {
                        k - pos[x]
                    } else {
                        last + 1 - pos[x]
                    }
                } else {
                    rank[x]
                },
        );
        let mut j: usize = 0;
        while j < path.len()
            invariant
                0 <= j <= path@.len(),
                visit_state@.len() == count,
                forall|t: int| 0 <= t < path@.len() ==> #[trigger] path@[t] < count,
                forall|t: int| 0 <= t < j ==> #[trigger] visit_state@[path@[t] as int] == 2,
                forall|x: int|
                    0 <= x < count && !path@.contains(x as usize) ==> #[trigger] visit_state@[x]
                        == st1[x],
                forall|x: int| 0 <= x < count ==> #[trigger] visit_state@[x] == 2 || visit_state@[x] == st1[x],
            decreases path@.len() - j,
        {
            let p = path[j];
            visit_state.set(p, 2);
            j += 1;
        }
        proof {
            assert forall|x: int| 0 <= x < count && path@.contains(x as usize) implies #[trigger] visit_state@[x] == 2 by {
                let t = choose|t: int| 0 <= t < path@.len() && path@[t] == x as usize;
                assert(visit_state@[path@[t] as int] == 2);
            }
            assert forall|x: int| 0 <= x < count implies (#[trigger] visit_state@[x] == 2) == (
            st0[x] == 2 || path@.contains(x as usize)) by {
                if path@.contains(x as usize) {
                } else {
                    assert(st1[x] == st0[x]);
                }
            }
            // Every cell of the path is now done, with a rank below that of its predecessor.
            assert forall|d: int|
                0 <= d < count && #[trigger] visit_state@[d] == 2 implies {
                &&& new_rank[d] >= 0
                &&& (river_next@[d] < 0 || (river_next@[d] < count && visit_state@[
                    river_next@[d] as int] == 2 && new_rank[river_next@[d] as int] < new_rank[d]))
            } by {
                if path@.contains(d as usize) {
                    let t = choose|t: int| 0 <= t < path@.len() && path@[t] == d as usize;
                    assert(pos[d] == t);
                    assert(st1[d] == 1);
                    assert(st0[path@[t] as int] == 0);
                    assert(st0[d] == 0);
                    if t < last {
                        let e = path@[t + 1] as int;
                        assert(pos[e] == t + 1);
                        assert(st1[e] == 1);
                        assert(path@.contains(e as usize));
                        if exit == 2 && d == node as int {
                        } else {
                            assert(river_next@[d] == r0[d]);
                            assert(r0[d] == n1[d]);
                        }
                    } else {
                        if exit == 2 && d == node as int {
                        } else {
                            assert(river_next@[d] == r0[d]);
                            assert(r0[d] == n1[d]);
                            if exit == 2 {
                                let kk = choose|u: int|
                                    0 <= u < path@.len() && path@[u] == node as usize;
                                assert(pos[node as int] == kk);
                                assert(st1[node as int] == 1);
                            } else if exit == 1 {
                                assert(!path@.contains(node as usize));
                                assert(st1[node as int] == st0[node as int]);
                            }
                        }
                    }
                } else {
                    assert(st0[d] == 2);
                    assert(st1[d] == 2);
                    if exit == 2 {
                        assert(d != node as int);
                    }
                    assert(river_next@[d] == r0[d]);
                    if r0[d] >= 0 {
                        assert(st0[r0[d] as int] == 2);
                        assert(!path@.contains(r0[d] as usize));
                        assert(st1[r0[d] as int] == 2);
                    }
                }
            }
            rank = new_rank;
            if exit == 2 {
                assert forall|m: nat| #![trigger walk(n1, node as int, m)]
                    0 <= walk(n1, node as int, m) < count && visit_state@[walk(n1, node as int, m)] == 2
                    && (walk(n1, node as int, m) != node as int ==> river_next@[walk(n1, node as int, m)] == n1[walk(n1, node as int, m)]) by {
                    lemma_walk_cycle(n1, path@, k, m);
                    let t = choose|t: int| k <= t < path@.len() && walk(n1, path@[k] as int, m) == path@[t] as int;
                    let y = path@[t] as int;
                    assert(path@.contains(path@[t]));
                    assert(st0[y] == 0);
                    if y != node as int {
                        assert(river_next@[y] == r0[y]);
                    }
                }
            }
            assert forall|x: int, m: nat|
                0 <= x < count && river_next@[x] != n1[x] implies 0 <= #[trigger] walk(n1, x, m) < count
                    && visit_state@[walk(n1, x, m)] == 2 by {
                if exit == 2 && x == node as int {
                } else {
                    assert(river_next@[x] == r0[x]);
                }
            }
            assert forall|x: int, m: nat|
                0 <= x < count && river_next@[x] != n1[x] && #[trigger] walk(n1, x, m) != x
                    implies river_next@[walk(n1, x, m)] == n1[walk(n1, x, m)] by {
                if exit == 2 && x == node as int {
                } else {
                    assert(river_next@[x] == r0[x]);
                    let y = walk(n1, x, m);
                    assert(st0[y] == 2);
                    if exit == 2 {
                        assert(y != node as int);
                    }
                    assert(river_next@[y] == r0[y]);
                }
            }
            assert forall|x: int|
                0 <= x < count implies (#[trigger] river_next@[x] == n1[x] || (river_next@[x]
                    == -1 && on_cycle(n1, x))) by {
                if exit == 2 && x == node as int {
                } else {
                    assert(river_next@[x] == r0[x]);
                }
            }
            assert forall|x: int|
                0 <= x < count && #[trigger] visit_state@[x] != 2 implies river_next@[x]
                    == n1[x] by {
                assert(!path@.contains(x as usize));
                if exit == 2 {
                    assert(x != node as int);
                }
                assert(river_next@[x] == r0[x]);
            }
            assert forall|x: int| 0 <= x < count implies #[trigger] river_next@[x] < count by {
                if exit == 2 && x == node as int {
                } else {
                    assert(river_next@[x] == r0[x]);
                }
            }
            // The cells reached so far and the cells cut so far, one start further on.
            assert forall|t: int| 0 <= t < path@.len() implies !#[trigger] reached_before(
                n1,
                path@[0] as int,
                path@[t] as int,
            ) by {
                assert(st0[path@[t] as int] == 0);
            }
            if exit == 1 {
                assert(reached_before(n1, start as int, node as int));
            }
            lemma_start_step(n1, path@, node as int, exit);
            if exit == 2 {
                lemma_cycle_never_drains(n1, node as int, 1);
                assert(walk(n1, node as int, 1) == walk(n1, step_of(n1, node as int), 0));
            }
            assert forall|x: int| 0 <= x < count implies (#[trigger] visit_state@[x] == 2
                <==> reached_before(n1, start + 1, x)) by {
            }
            assert forall|x: int| 0 <= x < count implies (#[trigger] river_next@[x] != n1[x]
                <==> cut_by(n1, start + 1, x)) by {
                if exit == 2 && x == node as int {
                } else {
                    assert(river_next@[x] == r0[x]);
                }
            }
        }
        path.clear();
        start += 1;
    }
    proof {
        assert forall|x: int| 0 <= x < count implies #[trigger] reaches_outlet(river_next@, x) by {
            lemma_ranked_reaches(river_next@, visit_state@, rank, x);
        }
        if targets_in_range(old(river_next)@) && drains_everywhere(old(river_next)@) {
            lemma_draining_routing_is_fixed(old(river_next)@);
            assert forall|x: int| 0 <= x < count implies #[trigger] river_next@[x] == old(river_next)@[x] by {
                assert(!on_cycle(n1, x));
            }
            assert(river_next@ =~= old(river_next)@);
        }
    }
}

proof fn lemma_walk_from_outlet(s: Seq<i32>, v: int, j: nat)
    requires
        v < 0,
    ensures
        walk(s, v, j) < 0,
    decreases j,
{
    if j > 0 {
        lemma_walk_from_outlet(s, -1, (j - 1) as nat);
    }
}

proof fn lemma_walk_periodic(s: Seq<i32>, x: int, p: nat, m: nat)
    requires
        walk(s, x, p) == x,
    ensures
        walk(s, x, m * p) == x,
    decreases m,
{
    if m > 0 {
        lemma_walk_periodic(s, x, p, (m - 1) as nat);
        let q = ((m - 1) as nat * p) as nat;
        assert(m * p == q + p) by (nonlinear_arith)
            requires
                m > 0,
                q == (m - 1) as nat * p,
        ;
        lemma_walk_add(s, x, q, p);
    } else {
        assert(m * p == 0) by (nonlinear_arith)
            requires
                m == 0,
        ;
    }
}

/// A routing whose targets are in range and which already drains everywhere
/// is left as it is by the sanitizer: no target is clamped and no cell lies
/// on a cycle.
pub proof fn lemma_draining_routing_is_fixed(s: Seq<i32>)
    requires
        targets_in_range(s),
        drains_everywhere(s),
    ensures
        clamp_targets(s) == s,
        forall|x: int| 0 <= x < s.len() ==> !#[trigger] on_cycle(s, x),
{
    assert(clamp_targets(s) =~= s);
    assert forall|x: int| 0 <= x < s.len() implies !#[trigger] on_cycle(s, x) by {
        if on_cycle(s, x) {
            let k = choose|k: nat| #[trigger] walk(s, step_of(s, x), k) == x;
            let p = (k + 1) as nat;
            assert(walk(s, x, p) == walk(s, step_of(s, x), k));
            assert(reaches_outlet(s, x));
            let k0 = choose|k0: nat| #[trigger] walk(s, x, k0) < 0;
            lemma_walk_periodic(s, x, p, k0);
            assert(k0 * p >= k0) by (nonlinear_arith)
                requires
                    p >= 1,
            ;
            lemma_walk_add(s, x, k0, (k0 * p - k0) as nat);
            lemma_walk_from_outlet(s, walk(s, x, k0), (k0 * p - k0) as nat);
            assert((k0 + (k0 * p - k0) as nat) as nat == k0 * p);
        }
    }
}

} // verus!
