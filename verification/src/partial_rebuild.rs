//! Planning a partial rebuild of the sinks after some cells changed: which
//! sinks lie next to a change, and which cells belong to each of them.
use vstd::prelude::*;
use crate::active_queue::neighbor_range_ok;

verus! {

/// Change `j` touches cell `c`: the changed cell is a cell of the mesh and
/// `c` is that cell or one of its neighbours.
pub open spec fn touched_by(changed: Seq<u32>, offsets: Seq<u32>, nbrs: Seq<u32>, n: int, j: int, c: int) -> bool {
    let v = changed[j] as int;
    &&& v < n
    &&& (c == v || exists|s: int| offsets[v] <= s < offsets[v + 1] && #[trigger] nbrs[s] as int == c)
}

/// One of the changes touches cell `c`.
pub open spec fn touched(changed: Seq<u32>, offsets: Seq<u32>, nbrs: Seq<u32>, n: int, c: int) -> bool {
    exists|j: int| 0 <= j < changed.len() && #[trigger] touched_by(changed, offsets, nbrs, n, j, c)
}

/// Sink `sid` owns a cell that a change touches.
pub open spec fn sink_touched(changed: Seq<u32>, offsets: Seq<u32>, nbrs: Seq<u32>, sink_id: Seq<i32>, sid: int) -> bool {
    exists|c: int| 0 <= c < sink_id.len() && #[trigger] touched(changed, offsets, nbrs, sink_id.len() as int, c) && sink_id[c] == sid
}

/// The cells among the first `n` that belong to sink `sid`, in order.
pub open spec fn cells_of_sink(sink_id: Seq<i32>, sid: int, n: int) -> Seq<usize>
    decreases n,
{
    if n <= 0 {
        Seq::empty()
    } else if sink_id[n - 1] == sid {
        cells_of_sink(sink_id, sid, n - 1).push((n - 1) as usize)
    } else {
        cells_of_sink(sink_id, sid, n - 1)
    }
}

/// Marks every cell that a change touches.
fn mark_touched(changed: &[u32], nbr_offsets: &[u32], nbrs: &[u32], n: usize) -> (mark: Vec<bool>)
    requires
        forall|v: int| 0 <= v < n ==> #[trigger] neighbor_range_ok(nbr_offsets@, nbrs@, v),
    ensures
        mark@.len() == n,
        forall|c: int| 0 <= c < n ==> (#[trigger] mark@[c] <==> touched(changed@, nbr_offsets@, nbrs@, n as int, c)),
        // every changed cell of the mesh is marked itself
        forall|j: int| 0 <= j < changed@.len() && (changed@[j] as int) < n ==> #[trigger] mark@[changed@[j] as int],
{
    let ghost ch = changed@;
    let ghost offs = nbr_offsets@;
    let ghost nb = nbrs@;
    let mut mark: Vec<bool> = vec![false; n];
    let mut j: usize = 0;
    while j < changed.len()
        invariant
            0 <= j <= ch.len(),
            ch == changed@,
            offs == nbr_offsets@,
            nb == nbrs@,
            mark@.len() == n,
            forall|v: int| 0 <= v < n ==> #[trigger] neighbor_range_ok(offs, nb, v),
            forall|c: int| 0 <= c < n ==> (#[trigger] mark@[c] <==> exists|i: int| 0 <= i < j && #[trigger] touched_by(ch, offs, nb, n as int, i, c)),
        decreases ch.len() - j,
    {
        let v = changed[j] as usize;
        if v < n {
            assert(neighbor_range_ok(offs, nb, v as int));
            mark.set(v, true);
            let start = nbr_offsets[v] as usize;
            let end = nbr_offsets[v + 1] as usize;
            let mut s = start;
            while s < end
                invariant
                    start <= s <= end,
                    v < n,
                    v == ch[j as int],
                    j < ch.len(),
                    start == offs[v as int],
                    end == offs[v + 1],
                    end <= nb.len(),
                    nb == nbrs@,
                    mark@.len() == n,
                    forall|c: int| 0 <= c < n ==> (#[trigger] mark@[c] <==> ((exists|i: int| 0 <= i < j && #[trigger] touched_by(ch, offs, nb, n as int, i, c))
                        || c == v || exists|t: int| start <= t < s && #[trigger] nb[t] as int == c)),
                decreases end - s,
            {
                let c = nbrs[s] as usize;
                if c < n {
                    mark.set(c, true);
                }
                proof {
                    assert forall|x: int| 0 <= x < n implies (#[trigger] mark@[x] <==> ((exists|i: int| 0 <= i < j && #[trigger] touched_by(ch, offs, nb, n as int, i, x))
                        || x == v || exists|t: int| start <= t < s + 1 && #[trigger] nb[t] as int == x)) by {
                        if x == c {
                            assert(nb[s as int] as int == x);
                        }
                    }
                }
                s += 1;
            }
            proof {
                assert forall|c: int| 0 <= c < n implies (#[trigger] mark@[c] <==> exists|i: int| 0 <= i < j + 1 && #[trigger] touched_by(ch, offs, nb, n as int, i, c)) by {
                    if mark@[c] && !(exists|i: int| 0 <= i < j && #[trigger] touched_by(ch, offs, nb, n as int, i, c)) {
                        assert(touched_by(ch, offs, nb, n as int, j as int, c));
                    }
                    if exists|i: int| 0 <= i < j + 1 && #[trigger] touched_by(ch, offs, nb, n as int, i, c) {
                        let i = choose|i: int| 0 <= i < j + 1 && #[trigger] touched_by(ch, offs, nb, n as int, i, c);
                        if i == j && c != v {
                            let t = choose|t: int| offs[v as int] <= t < offs[v + 1] && #[trigger] nb[t] as int == c;
                        }
                    }
                }
            }
        } else {
            proof {
                assert forall|c: int| 0 <= c < n implies (#[trigger] mark@[c] <==> exists|i: int| 0 <= i < j + 1 && #[trigger] touched_by(ch, offs, nb, n as int, i, c)) by {
                    if exists|i: int| 0 <= i < j + 1 && #[trigger] touched_by(ch, offs, nb, n as int, i, c) {
                        let i = choose|i: int| 0 <= i < j + 1 && #[trigger] touched_by(ch, offs, nb, n as int, i, c);
                        assert(i != j);
                    }
                }
            }
        }
        j += 1;
    }
    proof {
        assert forall|i: int| 0 <= i < ch.len() && (ch[i] as int) < n implies #[trigger] mark@[ch[i] as int] by {
            assert(touched_by(ch, offs, nb, n as int, i, ch[i] as int));
        }
    }
    mark
}

/// The sinks next to the changed cells, in increasing order, and the cells
/// of each of them in increasing order. The sink that owns a changed cell is
/// always among them, as is every sink that owns a neighbour of one. A sink counts when it owns a changed
/// cell or a neighbour of one; ids outside `0..sink_count` are ignored.
pub fn plan_partial_sink_rebuild(
    changed: &[u32],
    nbr_offsets: &[u32],
    nbrs: &[u32],
    sink_id: &[i32],
    sink_count: usize,
) -> (r: (Vec<usize>, Vec<Vec<usize>>))
    requires
        forall|v: int| 0 <= v < sink_id@.len() ==> #[trigger] neighbor_range_ok(nbr_offsets@, nbrs@, v),
        sink_count <= i32::MAX,
    ensures
        forall|a: int, b: int| 0 <= a < b < r.0@.len() ==> #[trigger] r.0@[a] < #[trigger] r.0@[b],
        forall|sid: usize| #[trigger] r.0@.contains(sid) <==> (sid < sink_count && sink_touched(changed@, nbr_offsets@, nbrs@, sink_id@, sid as int)),
        r.1@.len() == r.0@.len(),
        forall|k: int| 0 <= k < r.1@.len() ==> #[trigger] r.1@[k]@ == cells_of_sink(sink_id@, r.0@[k] as int, sink_id@.len() as int),
        // the sink of every changed cell is rebuilt
        forall|j: int|
            0 <= j < changed@.len() && (changed@[j] as int) < sink_id@.len() && 0 <= sink_id@[changed@[j] as int] < sink_count
                ==> r.0@.contains(#[trigger] sink_id@[changed@[j] as int] as usize),
        // and so is the sink of every neighbour of a changed cell
        forall|j: int, s: int| #![trigger changed@[j], nbrs@[s]]
            0 <= j < changed@.len() && (changed@[j] as int) < sink_id@.len() && nbr_offsets@[changed@[j] as int] <= s
                < nbr_offsets@[changed@[j] + 1] && (nbrs@[s] as int) < sink_id@.len() && 0 <= sink_id@[nbrs@[s] as int]
                < sink_count ==> r.0@.contains(sink_id@[nbrs@[s] as int] as usize),
        // every sink of the plan owns a changed cell or a neighbour of one
        forall|sid: usize|
            #[trigger] r.0@.contains(sid) ==> exists|c: int, j: int|
                0 <= c < sink_id@.len() && sink_id@[c] == sid as int && 0 <= j < changed@.len() && (changed@[j] as int)
                    < sink_id@.len() && (c == changed@[j] as int || exists|s: int|
                    nbr_offsets@[changed@[j] as int] <= s < nbr_offsets@[changed@[j] + 1] && #[trigger] nbrs@[s] as int == c),
{
    let n = sink_id.len();
    let ghost sids = sink_id@;
    let ghost ch = changed@;
    let ghost offs = nbr_offsets@;
    let ghost nb = nbrs@;
    let mark = mark_touched(changed, nbr_offsets, nbrs, n);
    // which sinks are touched
    let mut seen: Vec<bool> = vec![false; sink_count];
    let mut c: usize = 0;
    while c < n
        invariant
            0 <= c <= n,
            n == sids.len(),
            sids == sink_id@,
            mark@.len() == n,
            forall|x: int| 0 <= x < n ==> (#[trigger] mark@[x] <==> touched(ch, offs, nb, n as int, x)),
            seen@.len() == sink_count,
            forall|s: int| 0 <= s < sink_count ==> (#[trigger] seen@[s] <==> exists|x: int| 0 <= x < c && #[trigger] touched(ch, offs, nb, n as int, x) && sids[x] == s),
        decreases n - c,
    {
        let sid = sink_id[c];
        if mark[c] && sid >= 0 && (sid as usize) < sink_count {
            seen.set(sid as usize, true);
        }
        proof {
            assert forall|s: int| 0 <= s < sink_count implies (#[trigger] seen@[s] <==> exists|x: int| 0 <= x < c + 1 && #[trigger] touched(ch, offs, nb, n as int, x) && sids[x] == s) by {
                if exists|x: int| 0 <= x < c + 1 && #[trigger] touched(ch, offs, nb, n as int, x) && sids[x] == s {
                    let x = choose|x: int| 0 <= x < c + 1 && #[trigger] touched(ch, offs, nb, n as int, x) && sids[x] == s;
                    if x == c {
                        assert(mark@[x]);
                    }
                }
            }
        }
        c += 1;
    }
    // the touched sinks in increasing order, and each one's position
    let mut affected: Vec<usize> = Vec::new();
    let mut position: Vec<usize> = vec![0; sink_count];
    let mut s: usize = 0;
    while s < sink_count
        invariant
            0 <= s <= sink_count,
            seen@.len() == sink_count,
            position@.len() == sink_count,
            affected@.len() <= s,
            forall|a: int, b: int| 0 <= a < b < affected@.len() ==> #[trigger] affected@[a] < #[trigger] affected@[b],
            forall|k: int| 0 <= k < affected@.len() ==> #[trigger] affected@[k] < s,
            forall|x: usize| x < s ==> (#[trigger] affected@.contains(x) <==> seen@[x as int]),
            forall|x: int| 0 <= x < s && seen@[x] ==> #[trigger] position@[x] < affected@.len() && affected@[position@[x] as int] == x,
        decreases sink_count - s,
    {
        if seen[s] {
            let ghost before = affected@;
            position.set(s, affected.len());
            affected.push(s);
            proof {
                assert forall|x: usize| x < s + 1 implies (#[trigger] affected@.contains(x) <==> seen@[x as int]) by {
                    if x < s {
                        if affected@.contains(x) {
                            let k = choose|k: int| 0 <= k < affected@.len() && affected@[k] == x;
                            if k < before.len() {
                                assert(before.contains(x));
                            }
                        }
                        if before.contains(x) {
                            let k = choose|k: int| 0 <= k < before.len() && before[k] == x;
                            assert(affected@[k] == x);
                        }
                    } else {
                        assert(affected@[before.len() as int] == x);
                    }
                }
                assert forall|x: int| 0 <= x < s + 1 && seen@[x] implies #[trigger] position@[x] < affected@.len() && affected@[position@[x] as int] == x by {
                    if x < s {
                        assert(affected@[position@[x] as int] == before[position@[x] as int]);
                    }
                }
            }
        } else {
            proof {
                assert forall|x: usize| x < s + 1 implies (#[trigger] affected@.contains(x) <==> seen@[x as int]) by {
                    if x == s && affected@.contains(x) {
                        let k = choose|k: int| 0 <= k < affected@.len() && affected@[k] == x;
                    }
                }
            }
        }
        s += 1;
    }
    // the cells of each touched sink
    let mut members: Vec<Vec<usize>> = Vec::new();
    let mut k: usize = 0;
    while k < affected.len()
        invariant
            0 <= k <= affected@.len(),
            members@.len() == k,
            forall|q: int| 0 <= q < k ==> (#[trigger] members@[q])@.len() == 0,
            forall|a: int, b: int| 0 <= a < b < affected@.len() ==> #[trigger] affected@[a] < #[trigger] affected@[b],
        decreases affected@.len() - k,
    {
        members.push(Vec::new());
        k += 1;
    }
    let mut cell: usize = 0;
    while cell < n
        invariant
            0 <= cell <= n,
            n == sids.len(),
            sids == sink_id@,
            sink_count <= i32::MAX,
            seen@.len() == sink_count,
            position@.len() == sink_count,
            members@.len() == affected@.len(),
            forall|x: usize| x < sink_count ==> (#[trigger] affected@.contains(x) <==> seen@[x as int]),
            forall|x: int| 0 <= x < sink_count && seen@[x] ==> #[trigger] position@[x] < affected@.len() && affected@[position@[x] as int] == x,
            forall|q: int| 0 <= q < affected@.len() ==> (#[trigger] affected@[q]) < sink_count,
            forall|a: int, b: int| 0 <= a < b < affected@.len() ==> #[trigger] affected@[a] < #[trigger] affected@[b],
            forall|q: int| 0 <= q < members@.len() ==> #[trigger] members@[q]@ == cells_of_sink(sids, affected@[q] as int, cell as int),
        decreases n - cell,
    {
        let sid = sink_id[cell];
        let ghost before = members@;
        if sid >= 0 && (sid as usize) < sink_count && seen[sid as usize] {
            let p = position[sid as usize];
            members.push(Vec::new());
            let mut list = members.swap_remove(p);
            list.push(cell);
            members.set(p, list);
            proof {
                assert(affected@[p as int] == sid as usize);
                assert forall|q: int| 0 <= q < members@.len() implies #[trigger] members@[q]@ == cells_of_sink(sids, affected@[q] as int, cell + 1) by {
                    if q != p {
                        assert(members@[q] == before[q]);
                        assert(affected@[q] != affected@[p as int]);
                    } else {
                        assert(members@[q]@ == before[q]@.push(cell));
                    }
                }
            }
        } else {
            proof {
                assert forall|q: int| 0 <= q < members@.len() implies #[trigger] members@[q]@ == cells_of_sink(sids, affected@[q] as int, cell + 1) by {
                    if affected@[q] as int == sid as int {
                        assert(affected@.contains(affected@[q]));
                        assert(affected@[q] == sid as usize);
                        assert(seen@[sid as usize as int]);
                        assert(false);
                    }
                    assert(members@[q] == before[q]);
                    assert(before[q]@ == cells_of_sink(sids, affected@[q] as int, cell as int));
                    assert(sids[cell as int] as int != affected@[q] as int);
                    assert(cells_of_sink(sids, affected@[q] as int, cell + 1) == cells_of_sink(sids, affected@[q] as int, cell as int));
                }
            }
        }
        cell += 1;
    }
    proof {
        assert forall|sid: usize| #[trigger] affected@.contains(sid) implies sid < sink_count by {
            let q = choose|q: int| 0 <= q < affected@.len() && affected@[q] == sid;
        }
        assert forall|sid: usize| #[trigger] affected@.contains(sid) <==> (sid < sink_count && sink_touched(ch, offs, nb, sids, sid as int)) by {
            if sid < sink_count && sink_touched(ch, offs, nb, sids, sid as int) {
                let x = choose|x: int| 0 <= x < sids.len() && #[trigger] touched(ch, offs, nb, sids.len() as int, x) && sids[x] == sid as int;
                assert(seen@[sid as int]);
            }
            if affected@.contains(sid) {
                assert(seen@[sid as int]);
                let x = choose|x: int| 0 <= x < n && #[trigger] touched(ch, offs, nb, n as int, x) && sids[x] == sid as int;
            }
        }
        assert forall|j: int|
            0 <= j < ch.len() && (ch[j] as int) < sids.len() && 0 <= sids[ch[j] as int] < sink_count
                implies affected@.contains(#[trigger] sids[ch[j] as int] as usize) by {
            let c = ch[j] as int;
            assert(touched_by(ch, offs, nb, n as int, j, c));
            assert(touched(ch, offs, nb, n as int, c));
            assert(sink_touched(ch, offs, nb, sids, sids[c] as usize as int));
        }
        assert forall|j: int, s: int| #![trigger ch[j], nb[s]]
            0 <= j < ch.len() && (ch[j] as int) < sids.len() && offs[ch[j] as int] <= s < offs[ch[j] + 1]
                && (nb[s] as int) < sids.len() && 0 <= sids[nb[s] as int] < sink_count
                implies affected@.contains(sids[nb[s] as int] as usize) by {
            let c = nb[s] as int;
            assert(touched_by(ch, offs, nb, n as int, j, c));
            assert(touched(ch, offs, nb, n as int, c));
            assert(sink_touched(ch, offs, nb, sids, sids[c] as usize as int));
        }
        assert forall|sid: usize| #[trigger] affected@.contains(sid) implies exists|c: int, j: int|
            0 <= c < sids.len() && sids[c] == sid as int && 0 <= j < ch.len() && (ch[j] as int) < sids.len() && (c == ch[j] as int
                || exists|s: int| offs[ch[j] as int] <= s < offs[ch[j] + 1] && #[trigger] nb[s] as int == c) by {
            let c = choose|c: int| 0 <= c < sids.len() && #[trigger] touched(ch, offs, nb, sids.len() as int, c) && sids[c] == sid as int;
            let j = choose|j: int| 0 <= j < ch.len() && #[trigger] touched_by(ch, offs, nb, n as int, j, c);
        }
    }
    (affected, members)
}

/// A changed cell of the mesh is touched by its own change, so its sink is
/// rebuilt too.
pub proof fn lemma_changed_cell_is_touched(changed: Seq<u32>, offsets: Seq<u32>, nbrs: Seq<u32>, n: int, j: int)
    requires
        0 <= j < changed.len(),
        (changed[j] as int) < n,
    ensures
        touched(changed, offsets, nbrs, n, changed[j] as int),
{
    assert(touched_by(changed, offsets, nbrs, n, j, changed[j] as int));
}

} // verus!
