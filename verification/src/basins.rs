//! Drainage basins: where each land cell's downhill path ends, and the
//! sinks (closed basins) that these ends define.
//!
//! `downhill[c]` names the next cell down from `c`, or is negative when
//! `c` has no lower neighbour. A land cell whose path stops at a land cell
//! without a lower neighbour drains into that cell, the basin's root; a path
//! that reaches the sea (a cell that is not land) or leaves the mesh has no
//! root.
use vstd::prelude::*;

verus! {

/// The root of `x` when its downhill path ends within `k` further steps;
/// -1 when the path reaches the sea or leaves the mesh, -2 when `k` steps do
/// not reach the end.
pub open spec fn root_within(land: Seq<bool>, downhill: Seq<i32>, x: int, k: nat) -> int
    decreases k,
{
    if x < 0 || x >= downhill.len() || !land[x] {
        -1
    } else if downhill[x] < 0 {
        x
    } else if downhill[x] >= downhill.len() {
        -1
    } else if k == 0 {
        -2
    } else {
        root_within(land, downhill, downhill[x] as int, (k - 1) as nat)
    }
}

/// The downhill path from `x` comes to an end.
pub open spec fn path_ends(land: Seq<bool>, downhill: Seq<i32>, x: int) -> bool {
    exists|k: nat| #[trigger] root_within(land, downhill, x, k) != -2
}

/// Every downhill path comes to an end.
pub open spec fn paths_end(land: Seq<bool>, downhill: Seq<i32>) -> bool {
    forall|x: int| 0 <= x < downhill.len() ==> #[trigger] path_ends(land, downhill, x)
}

/// The root of `x`: the end of its downhill path (see `root_within`).
pub open spec fn root_of(land: Seq<bool>, downhill: Seq<i32>, x: int) -> int {
    root_within(land, downhill, x, choose|k: nat| #[trigger] root_within(land, downhill, x, k) != -2)
}

/// More steps do not change an end once it is reached.
proof fn lemma_root_within_stable(land: Seq<bool>, downhill: Seq<i32>, x: int, k: nat, m: nat)
    requires
        root_within(land, downhill, x, k) != -2,
        k <= m,
    ensures
        root_within(land, downhill, x, m) == root_within(land, downhill, x, k),
    decreases k,
{
    if 0 <= x < downhill.len() && land[x] && 0 <= downhill[x] < downhill.len() && k > 0 {
        lemma_root_within_stable(land, downhill, downhill[x] as int, (k - 1) as nat, (m - 1) as nat);
    }
}

proof fn lemma_root_within_bounds(land: Seq<bool>, downhill: Seq<i32>, x: int, k: nat)
    ensures
        -2 <= root_within(land, downhill, x, k) < downhill.len(),
    decreases k,
{
    if 0 <= x < downhill.len() && land[x] && 0 <= downhill[x] < downhill.len() && k > 0 {
        lemma_root_within_bounds(land, downhill, downhill[x] as int, (k - 1) as nat);
    }
}

/// Any number of steps that reaches the end gives the root.
proof fn lemma_root_of(land: Seq<bool>, downhill: Seq<i32>, x: int, k: nat)
    requires
        root_within(land, downhill, x, k) != -2,
    ensures
        root_of(land, downhill, x) == root_within(land, downhill, x, k),
        root_of(land, downhill, x) >= -1,
{
    let k2 = choose|k2: nat| #[trigger] root_within(land, downhill, x, k2) != -2;
    lemma_root_within_bounds(land, downhill, x, k);
    if k <= k2 {
        lemma_root_within_stable(land, downhill, x, k, k2);
    } else {
        lemma_root_within_stable(land, downhill, x, k2, k);
    }
}

/// The memo table holds, for every cell it has settled (entry `>= -1`),
/// that cell's root.
pub open spec fn memo_ok(land: Seq<bool>, downhill: Seq<i32>, memo: Seq<i32>) -> bool {
    forall|j: int| 0 <= j < memo.len() && #[trigger] memo[j] >= -1 ==> memo[j] as int == root_of(land, downhill, j)
}

/// Follows the downhill path from `i` to its end, settling every cell on
/// the way in `terminal`. A cell being followed is marked -3.
fn trace_terminal(i: usize, land: &[bool], downhill: &[i32], terminal: &mut Vec<i32>, Ghost(k): Ghost<nat>) -> (r: i32)
    requires
        land@.len() == downhill@.len(),
        old(terminal)@.len() == downhill@.len(),
        downhill@.len() <= i32::MAX,
        root_within(land@, downhill@, i as int, k) != -2,
        memo_ok(land@, downhill@, old(terminal)@),
    ensures
        r as int == root_of(land@, downhill@, i as int),
        final(terminal)@.len() == old(terminal)@.len(),
        memo_ok(land@, downhill@, final(terminal)@),
        forall|j: int| 0 <= j < old(terminal)@.len() && #[trigger] old(terminal)@[j] >= -1 ==> final(terminal)@[j] == old(terminal)@[j],
    decreases k,
{
    proof {
        lemma_root_of(land@, downhill@, i as int, k);
    }
    if i >= downhill.len() {
        return -1;
    }
    if !land[i] {
        terminal.set(i, -1);
        return -1;
    }
    if terminal[i] >= -1 {
        return terminal[i];
    }
    let ghost t0 = terminal@;
    terminal.set(i, -3);
    let ghost t1 = terminal@;
    let next = downhill[i];
    let out: i32 = if next < 0 {
        i as i32
    } else {
        let n = next as usize;
        if n >= downhill.len() {
            -1
        } else {
            proof {
                assert(root_within(land@, downhill@, n as int, (k - 1) as nat) != -2);
                lemma_root_of(land@, downhill@, n as int, (k - 1) as nat);
            }
            let traced = trace_terminal(n, land, downhill, terminal, Ghost((k - 1) as nat));
            if traced == -3 {
                i as i32
            } else {
                traced
            }
        }
    };
    let ghost t2 = terminal@;
    terminal.set(i, out);
    proof {
        assert forall|j: int| 0 <= j < t0.len() && #[trigger] t0[j] >= -1 implies terminal@[j] == t0[j] by {
            assert(j != i);
            assert(t1[j] == t0[j]);
        }
        assert forall|j: int| 0 <= j < terminal@.len() && #[trigger] terminal@[j] >= -1 implies terminal@[j] as int == root_of(land@, downhill@, j) by {
            if j != i {
                assert(terminal@[j] == t2[j]);
            }
        }
    }
    out
}

/// The root of every cell's downhill path: the cell where the path stops on
/// land, or -1 for cells whose path reaches the sea or leaves the mesh
/// (including every cell that is not land). A downhill path that loops on
/// land has no end (following it would never return), so every path is
/// asked to end.
pub fn trace_terminals(land: &[bool], downhill: &[i32]) -> (r: Vec<i32>)
    requires
        land@.len() == downhill@.len(),
        downhill@.len() <= i32::MAX,
        paths_end(land@, downhill@),
    ensures
        r@.len() == downhill@.len(),
        forall|x: int, k: nat|
            0 <= x < downhill@.len() && #[trigger] root_within(land@, downhill@, x, k) != -2 ==> r@[x] as int
                == root_within(land@, downhill@, x, k),
{
    let n = downhill.len();
    let mut terminal: Vec<i32> = vec![-2; n];
    let mut i: usize = 0;
    while i < n
        invariant
            0 <= i <= n,
            n == downhill@.len(),
            land@.len() == n,
            n <= i32::MAX,
            paths_end(land@, downhill@),
            terminal@.len() == n,
            memo_ok(land@, downhill@, terminal@),
            forall|j: int| 0 <= j < i ==> #[trigger] terminal@[j] as int == root_of(land@, downhill@, j),
        decreases n - i,
    {
        assert(path_ends(land@, downhill@, i as int));
        let ghost k = choose|k: nat| #[trigger] root_within(land@, downhill@, i as int, k) != -2;
        let ghost before = terminal@;
        let t = trace_terminal(i, land, downhill, &mut terminal, Ghost(k));
        terminal.set(i, t);
        proof {
            lemma_root_of(land@, downhill@, i as int, k);
            assert forall|j: int| 0 <= j < i implies #[trigger] terminal@[j] as int == root_of(land@, downhill@, j) by {
                assert(path_ends(land@, downhill@, j));
                lemma_root_of(land@, downhill@, j, choose|k: nat| #[trigger] root_within(land@, downhill@, j, k) != -2);
                assert(before[j] >= -1);
            }
        }
        i += 1;
    }
    proof {
        assert forall|x: int, k: nat|
            0 <= x < n && #[trigger] root_within(land@, downhill@, x, k) != -2 implies terminal@[x] as int
                == root_within(land@, downhill@, x, k) by {
            lemma_root_of(land@, downhill@, x, k);
        }
    }
    terminal
}

/// Cell `c` drains into a basin: its root is a land cell of the mesh.
pub open spec fn has_basin(land: Seq<bool>, terminal: Seq<i32>, c: int) -> bool {
    0 <= terminal[c] < land.len() && land[terminal[c] as int]
}

/// The basin roots of the first `n` cells, each once, in order of first
/// appearance.
pub open spec fn basin_roots(land: Seq<bool>, terminal: Seq<i32>, n: int) -> Seq<i32>
    decreases n,
{
    if n <= 0 {
        Seq::empty()
    } else {
        let prev = basin_roots(land, terminal, n - 1);
        if has_basin(land, terminal, n - 1) && !prev.contains(terminal[n - 1]) {
            prev.push(terminal[n - 1])
        } else {
            prev
        }
    }
}

/// The cells among the first `n` that drain into `root`, in order.
pub open spec fn basin_cells(land: Seq<bool>, terminal: Seq<i32>, root: i32, n: int) -> Seq<usize>
    decreases n,
{
    if n <= 0 {
        Seq::empty()
    } else {
        let prev = basin_cells(land, terminal, root, n - 1);
        if has_basin(land, terminal, n - 1) && terminal[n - 1] == root {
            prev.push((n - 1) as usize)
        } else {
            prev
        }
    }
}

proof fn lemma_basin_roots_grow(land: Seq<bool>, terminal: Seq<i32>, a: int, b: int)
    requires
        0 <= a <= b,
    ensures
        basin_roots(land, terminal, a).len() <= basin_roots(land, terminal, b).len(),
        forall|s: int| 0 <= s < basin_roots(land, terminal, a).len() ==> #[trigger] basin_roots(land, terminal, b)[s] == basin_roots(land, terminal, a)[s],
    decreases b - a,
{
    if a < b {
        lemma_basin_roots_grow(land, terminal, a, b - 1);
    }
}

proof fn lemma_basin_roots_facts(land: Seq<bool>, terminal: Seq<i32>, n: int)
    requires
        0 <= n <= terminal.len(),
    ensures
        basin_roots(land, terminal, n).no_duplicates(),
        basin_roots(land, terminal, n).len() <= n,
        forall|c: int| 0 <= c < n && has_basin(land, terminal, c) ==> basin_roots(land, terminal, n).contains(#[trigger] terminal[c]),
    decreases n,
{
    if n > 0 {
        lemma_basin_roots_facts(land, terminal, n - 1);
        let prev = basin_roots(land, terminal, n - 1);
        if has_basin(land, terminal, n - 1) && !prev.contains(terminal[n - 1]) {
            let cur = prev.push(terminal[n - 1]);
            assert forall|a: int, b: int| 0 <= a < b < cur.len() implies cur[a] != cur[b] by {
                if b == prev.len() {
                    assert(prev.contains(prev[a]));
                }
            }
            assert forall|c: int| 0 <= c < n && has_basin(land, terminal, c) implies cur.contains(#[trigger] terminal[c]) by {
                if c < n - 1 {
                    let w = choose|w: int| 0 <= w < prev.len() && prev[w] == terminal[c];
                    assert(cur[w] == terminal[c]);
                } else {
                    assert(cur[prev.len() as int] == terminal[c]);
                }
            }
        }
    }
}

proof fn lemma_basin_cells_of_new_root(land: Seq<bool>, terminal: Seq<i32>, root: i32, n: int)
    requires
        0 <= n <= terminal.len(),
        !basin_roots(land, terminal, n).contains(root),
    ensures
        basin_cells(land, terminal, root, n) == Seq::<usize>::empty(),
    decreases n,
{
    if n > 0 {
        let prev = basin_roots(land, terminal, n - 1);
        lemma_basin_roots_grow(land, terminal, n - 1, n);
        if prev.contains(root) {
            let w = choose|w: int| 0 <= w < prev.len() && prev[w] == root;
            assert(basin_roots(land, terminal, n)[w] == root);
        }
        lemma_basin_cells_of_new_root(land, terminal, root, n - 1);
        lemma_basin_roots_facts(land, terminal, n);
        if has_basin(land, terminal, n - 1) && terminal[n - 1] == root {
            assert(basin_roots(land, terminal, n).contains(terminal[n - 1]));
        }
    }
}

/// Groups the cells by basin. Basins are numbered in order of their first
/// cell; cell `c` that drains into a basin gets that basin's number in
/// `sink_id`, and the basin's cells are listed in increasing order. Cells
/// that drain into no basin keep their `sink_id`.
pub fn build_sink_members(land: &[bool], terminal: &[i32], sink_id: &mut [i32]) -> (r: Vec<Vec<usize>>)
    requires
        forall|c: int| 0 <= c < terminal@.len() && #[trigger] has_basin(land@, terminal@, c) ==> c < old(sink_id)@.len(),
        terminal@.len() <= i32::MAX,
    ensures
        final(sink_id)@.len() == old(sink_id)@.len(),
        r@.len() == basin_roots(land@, terminal@, terminal@.len() as int).len(),
        forall|s: int| 0 <= s < r@.len() ==> #[trigger] r@[s]@ == basin_cells(
            land@,
            terminal@,
            basin_roots(land@, terminal@, terminal@.len() as int)[s],
            terminal@.len() as int,
        ),
        forall|c: int| 0 <= c < terminal@.len() && #[trigger] has_basin(land@, terminal@, c) ==> {
            let s = final(sink_id)@[c];
            &&& 0 <= s < r@.len()
            &&& basin_roots(land@, terminal@, terminal@.len() as int)[s as int] == terminal@[c]
        },
        forall|c: int| 0 <= c < old(sink_id)@.len() && !(c < terminal@.len() && has_basin(land@, terminal@, c)) ==> #[trigger] final(sink_id)@[c] == old(sink_id)@[c],
{
    let n = terminal.len();
    let ghost l = land@;
    let ghost t = terminal@;
    let mut root_to_sink: Vec<i64> = vec![-1; land.len()];
    let mut sink_members: Vec<Vec<usize>> = Vec::new();
    let mut cell: usize = 0;
    while cell < n
        invariant
            0 <= cell <= n,
            n == t.len(),
            n <= i32::MAX,
            l == land@,
            t == terminal@,
            root_to_sink@.len() == l.len(),
            sink_id@.len() == old(sink_id)@.len(),
            forall|c: int| 0 <= c < n && #[trigger] has_basin(l, t, c) ==> c < old(sink_id)@.len(),
            sink_members@.len() == basin_roots(l, t, cell as int).len(),
            forall|x: int| 0 <= x < l.len() ==> {
                let v = #[trigger] root_to_sink@[x];
                &&& -1 <= v < sink_members@.len()
                &&& (v >= 0 ==> basin_roots(l, t, cell as int)[v as int] == x)
                &&& (v < 0 && x <= i32::MAX ==> !basin_roots(l, t, cell as int).contains(x as i32))
            },
            forall|s: int| 0 <= s < sink_members@.len() ==> #[trigger] sink_members@[s]@ == basin_cells(
                l,
                t,
                basin_roots(l, t, cell as int)[s],
                cell as int,
            ),
            forall|c: int| 0 <= c < cell && #[trigger] has_basin(l, t, c) ==> {
                let s = sink_id@[c];
                &&& 0 <= s < sink_members@.len()
                &&& basin_roots(l, t, cell as int)[s as int] == t[c]
            },
            forall|c: int| 0 <= c < sink_id@.len() && !(c < cell && has_basin(l, t, c)) ==> #[trigger] sink_id@[c] == old(sink_id)@[c],
        decreases n - cell,
    {
        let root = terminal[cell];
        let ghost roots0 = basin_roots(l, t, cell as int);
        let ghost members0 = sink_members@;
        let ghost ids0 = sink_id@;
        let ghost map0 = root_to_sink@;
        proof {
            lemma_basin_roots_facts(l, t, cell as int);
            assert(roots0.len() <= cell);
        }
        if root < 0 || (root as usize) >= land.len() || !land[root as usize] {
            proof {
                assert(!has_basin(l, t, cell as int));
                assert(basin_roots(l, t, cell + 1) == roots0);
                assert forall|s: int| 0 <= s < sink_members@.len() implies #[trigger] sink_members@[s]@ == basin_cells(
                    l, t, basin_roots(l, t, cell + 1)[s], cell + 1) by {
                }
            }
            cell += 1;
            continue;
        }
        let r = root as usize;
        let sid: usize;
        proof {
            assert(has_basin(l, t, cell as int));
            lemma_basin_roots_facts(l, t, cell + 1);
        }
        if root_to_sink[r] >= 0 {
            sid = root_to_sink[r] as usize;
            proof {
                assert(roots0.contains(root));
                assert(basin_roots(l, t, cell + 1) == roots0);
            }
        } else {
            sid = sink_members.len();
            sink_members.push(Vec::new());
            root_to_sink.set(r, sid as i64);
            proof {
                let roots1 = basin_roots(l, t, cell + 1);
                assert(!roots0.contains(root));
                assert(roots1 == roots0.push(root));
                lemma_basin_cells_of_new_root(l, t, root, cell as int);
                assert forall|x: int| 0 <= x < l.len() implies {
                    let v = #[trigger] root_to_sink@[x];
                    &&& -1 <= v < sink_members@.len()
                    &&& (v >= 0 ==> roots1[v as int] == x)
                    &&& (v < 0 && x <= i32::MAX ==> !roots1.contains(x as i32))
                } by {
                    if x != r {
                        let v = map0[x];
                        assert(root_to_sink@[x] == v);
                        if v >= 0 {
                            assert(roots1[v as int] == roots0[v as int]);
                        } else if x <= i32::MAX && roots1.contains(x as i32) {
                            let w = choose|w: int| 0 <= w < roots1.len() && #[trigger] roots1[w] == x as i32;
                            if w < roots0.len() {
                                assert(roots0[w] == x as i32);
                                assert(roots0.contains(x as i32));
                            } else {
                                assert(roots1[w] == root);
                            }
                        }
                    } else {
                        assert(roots1[sid as int] == root);
                    }
                }
            }
        }
        let ghost members1 = sink_members@;
        sink_id[cell] = sid as i32;
        sink_members.push(Vec::new());
        let mut list = sink_members.swap_remove(sid);
        list.push(cell);
        sink_members.set(sid, list);
        proof {
            let roots1 = basin_roots(l, t, cell + 1);
            assert(roots1[sid as int] == root);
            assert(sink_members@.len() == members1.len());
            assert forall|s: int| 0 <= s < sink_members@.len() implies #[trigger] sink_members@[s]@ == basin_cells(
                l, t, roots1[s], cell + 1) by {
                if s != sid {
                    assert(sink_members@[s] == members1[s]);
                    assert(s < members0.len());
                    assert(roots1[s] == roots0[s]);
                    assert(roots1[s] != root);
                } else {
                    if sid < members0.len() {
                        assert(members1[s] == members0[s]);
                    }
                }
            }
            assert forall|c: int| 0 <= c < cell + 1 && #[trigger] has_basin(l, t, c) implies {
                let s = sink_id@[c];
                &&& 0 <= s < sink_members@.len()
                &&& roots1[s as int] == t[c]
            } by {
                if c < cell {
                    assert(sink_id@[c] == ids0[c]);
                    assert(roots1[ids0[c] as int] == roots0[ids0[c] as int]);
                }
            }
            assert forall|x: int| 0 <= x < l.len() implies {
                let v = #[trigger] root_to_sink@[x];
                &&& -1 <= v < sink_members@.len()
                &&& (v >= 0 ==> roots1[v as int] == x)
                &&& (v < 0 && x <= i32::MAX ==> !roots1.contains(x as i32))
            } by {
            }
        }
        cell += 1;
    }
    sink_members
}

} // verus!
