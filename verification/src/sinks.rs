//! Topology of closed depressions ("sinks") for the fill-and-spill model.
//!
//! Every land cell may belong to a sink (`sink_id[c] >= 0`). A sink drains
//! over its spill edge `spill_cell -> spill_to`; inside the sink water is
//! routed along `sink_route_next` towards the spill cell. Sink membership is
//! also kept in compressed form (`sink_member_offsets`, `sink_member_cells`).
use vstd::prelude::*;

verus! {

/// The integer part of the fill-and-spill state.
pub struct SinkTopology {
    pub sink_id: Vec<i32>,
    pub sink_route_next: Vec<i32>,
    pub sink_member_offsets: Vec<u32>,
    pub sink_member_cells: Vec<u32>,
    pub sink_spill_cell: Vec<i32>,
    pub sink_spill_to: Vec<i32>,
    pub sink_overflow_active: Vec<u8>,
}

/// Lengths of the per-sink quantities that are kept next to the topology.
#[derive(Clone, Copy, Debug, PartialEq, Eq, Structural)]
pub struct SinkFieldLens {
    pub spill_level: usize,
    pub capacity_total: usize,
    pub capacity_remaining: usize,
    pub storage_water: usize,
    pub storage_sediment: usize,
}

/// All per-cell arrays cover `cell_count` cells, the membership offsets end
/// at the number of member cells, and all per-sink arrays agree in length.
pub open spec fn buffers_ready_spec(t: SinkTopology, lens: SinkFieldLens, cell_count: int) -> bool {
    let k = t.sink_spill_cell@.len();
    &&& t.sink_id@.len() == cell_count
    &&& t.sink_route_next@.len() == cell_count
    &&& (if t.sink_member_offsets@.len() == 0 { 0 } else { t.sink_member_offsets@.last() as int })
        == t.sink_member_cells@.len()
    &&& t.sink_spill_to@.len() == k
    &&& lens.spill_level == k
    &&& lens.capacity_total == k
    &&& lens.capacity_remaining == k
    &&& lens.storage_water == k
    &&& lens.storage_sediment == k
    &&& t.sink_overflow_active@.len() == k
}

/// Whether all fill-and-spill buffers are sized for `cell_count` cells.
pub fn fill_spill_buffers_ready(t: &SinkTopology, lens: &SinkFieldLens, cell_count: usize) -> (r: bool)
    ensures
        r == buffers_ready_spec(*t, *lens, cell_count as int),
        r ==> t.sink_id@.len() == cell_count && t.sink_route_next@.len() == cell_count,
        t.sink_id@.len() != cell_count || t.sink_route_next@.len() != cell_count ==> !r,
{
    let last: usize = if t.sink_member_offsets.len() == 0 {
        0
    } else {
        t.sink_member_offsets[t.sink_member_offsets.len() - 1] as usize
    };
    let k = t.sink_spill_cell.len();
    t.sink_id.len() == cell_count && t.sink_route_next.len() == cell_count && last
        == t.sink_member_cells.len() && t.sink_spill_to.len() == k && lens.spill_level == k
        && lens.capacity_total == k && lens.capacity_remaining == k && lens.storage_water == k
        && lens.storage_sediment == k && t.sink_overflow_active.len() == k
}

/// Sink ids and in-sink routes are all `-1` or in range.
pub open spec fn topology_valid_spec(t: SinkTopology, lens: SinkFieldLens, cell_count: int) -> bool {
    &&& buffers_ready_spec(t, lens, cell_count)
    &&& forall|c: int|
        0 <= c < t.sink_id@.len() ==> -1 <= #[trigger] t.sink_id@[c] && t.sink_id@[c]
            < t.sink_spill_cell@.len()
    &&& forall|c: int|
        0 <= c < t.sink_route_next@.len() ==> -1 <= #[trigger] t.sink_route_next@[c]
            && t.sink_route_next@[c] < cell_count
}

/// Checks the buffers and that every sink id and in-sink route is `-1` or in range.
/// A valid topology is always sized for the mesh of `cell_count` cells.
pub fn validate_fill_spill_topology(t: &SinkTopology, lens: &SinkFieldLens, cell_count: usize) -> (r: bool)
    ensures
        r == topology_valid_spec(*t, *lens, cell_count as int),
        // a valid topology is sized for the mesh and its sinks
        r ==> t.sink_id@.len() == cell_count && t.sink_route_next@.len() == cell_count,
        r ==> t.sink_spill_to@.len() == t.sink_spill_cell@.len() && t.sink_overflow_active@.len()
            == t.sink_spill_cell@.len() && lens.spill_level == t.sink_spill_cell@.len() && lens.capacity_total
            == t.sink_spill_cell@.len() && lens.capacity_remaining == t.sink_spill_cell@.len() && lens.storage_water
            == t.sink_spill_cell@.len() && lens.storage_sediment == t.sink_spill_cell@.len(),
        // and every sink id and in-sink route is -1 or in range
        r ==> forall|c: int| 0 <= c < cell_count ==> -1 <= #[trigger] t.sink_id@[c] < t.sink_spill_cell@.len()
            && -1 <= t.sink_route_next@[c] < cell_count,
        t.sink_id@.len() != cell_count || t.sink_route_next@.len() != cell_count ==> !r,
{
    if !fill_spill_buffers_ready(t, lens, cell_count) {
        return false;
    }
    let mut i: usize = 0;
    while i < t.sink_id.len()
        invariant
            0 <= i <= t.sink_id@.len(),
            forall|c: int|
                0 <= c < i ==> -1 <= #[trigger] t.sink_id@[c] && t.sink_id@[c]
                    < t.sink_spill_cell@.len(),
        decreases t.sink_id@.len() - i,
    {
        let sid = t.sink_id[i];
        if sid < -1 {
            return false;
        }
        if sid >= 0 && (sid as usize) >= t.sink_spill_cell.len() {
            return false;
        }
        i += 1;
    }
    let mut j: usize = 0;
    while j < t.sink_route_next.len()
        invariant
            0 <= j <= t.sink_route_next@.len(),
            forall|c: int|
                0 <= c < j ==> -1 <= #[trigger] t.sink_route_next@[c] && t.sink_route_next@[c]
                    < cell_count,
        decreases t.sink_route_next@.len() - j,
    {
        let next = t.sink_route_next[j];
        if next < -1 {
            return false;
        }
        if next >= 0 && (next as usize) >= cell_count {
            return false;
        }
        j += 1;
    }
    true
}

/// Clears the topology to "no sinks" over `cell_count` cells.
pub fn reset_fill_spill(t: &mut SinkTopology, cell_count: usize)
    ensures
        final(t).sink_id@ == Seq::new(cell_count as nat, |i: int| -1i32),
        final(t).sink_route_next@ == Seq::new(cell_count as nat, |i: int| -1i32),
        final(t).sink_member_offsets@ == seq![0u32],
        final(t).sink_member_cells@.len() == 0,
        final(t).sink_spill_cell@.len() == 0,
        final(t).sink_spill_to@.len() == 0,
        final(t).sink_overflow_active@.len() == 0,
        topology_valid_spec(
            *final(t),
            (SinkFieldLens {
                spill_level: 0,
                capacity_total: 0,
                capacity_remaining: 0,
                storage_water: 0,
                storage_sediment: 0,
            }),
            cell_count as int,
        ),
{
    t.sink_id = vec![-1; cell_count];
    t.sink_route_next = vec![-1; cell_count];
    t.sink_member_offsets = vec![0];
    t.sink_member_cells.clear();
    t.sink_spill_cell.clear();
    t.sink_spill_to.clear();
    t.sink_overflow_active.clear();
}

/// Sizes the per-sink arrays for `sink_count` sinks with no spill edge and
/// overflow off.
pub fn resize_sink_state_arrays(t: &mut SinkTopology, sink_count: usize)
    ensures
        final(t).sink_spill_cell@ == Seq::new(sink_count as nat, |i: int| -1i32),
        final(t).sink_spill_to@ == Seq::new(sink_count as nat, |i: int| -1i32),
        final(t).sink_overflow_active@ == Seq::new(sink_count as nat, |i: int| 0u8),
        final(t).sink_id == old(t).sink_id,
        final(t).sink_route_next == old(t).sink_route_next,
        final(t).sink_member_offsets == old(t).sink_member_offsets,
        final(t).sink_member_cells == old(t).sink_member_cells,
{
    t.sink_spill_cell = vec![-1; sink_count];
    t.sink_spill_to = vec![-1; sink_count];
    t.sink_overflow_active = vec![0; sink_count];
}

/// The member lists written one after another, each cell as `u32`.
pub open spec fn flatten_members(m: Seq<Seq<usize>>) -> Seq<u32>
    decreases m.len(),
{
    if m.len() == 0 {
        Seq::empty()
    } else {
        flatten_members(m.drop_last()) + m.last().map_values(|c: usize| c as u32)
    }
}

/// The views of the member lists.
pub open spec fn members_view(m: Seq<Vec<usize>>) -> Seq<Seq<usize>> {
    m.map_values(|v: Vec<usize>| v@)
}

/// Rewrites the compressed membership from per-sink member lists: the cells
/// are the lists concatenated, and `offsets[s]` is where list `s` starts.
pub fn rebuild_membership_csr(t: &mut SinkTopology, sink_members: &[Vec<usize>])
    ensures
        final(t).sink_member_cells@ == flatten_members(members_view(sink_members@)),
        final(t).sink_member_offsets@.len() == sink_members@.len() + 1,
        forall|s: int|
            0 <= s <= sink_members@.len() ==> #[trigger] final(t).sink_member_offsets@[s]
                == flatten_members(members_view(sink_members@).take(s)).len() as u32,
        final(t).sink_id == old(t).sink_id,
        final(t).sink_route_next == old(t).sink_route_next,
        final(t).sink_spill_cell == old(t).sink_spill_cell,
        final(t).sink_spill_to == old(t).sink_spill_to,
        final(t).sink_overflow_active == old(t).sink_overflow_active,
        members_fit(members_view(sink_members@)) ==> forall|sid: int|
            0 <= sid < sink_members@.len() ==> #[trigger] members_of_spec(*final(t), sid)
                == sink_members@[sid]@,
{
    let ghost mv = members_view(sink_members@);
    t.sink_member_offsets.clear();
    t.sink_member_cells.clear();
    t.sink_member_offsets.push(0);
    proof {
        assert(mv.take(0) =~= Seq::<Seq<usize>>::empty());
        assert(flatten_members(mv.take(0)) =~= Seq::<u32>::empty());
    }
    let mut s: usize = 0;
    while s < sink_members.len()
        invariant
            0 <= s <= sink_members@.len(),
            mv == members_view(sink_members@),
            mv.len() == sink_members@.len(),
            t.sink_member_cells@ == flatten_members(mv.take(s as int)),
            t.sink_member_offsets@.len() == s + 1,
            forall|q: int|
                0 <= q <= s ==> #[trigger] t.sink_member_offsets@[q] == flatten_members(
                    mv.take(q),
                ).len() as u32,
            t.sink_id == old(t).sink_id,
            t.sink_route_next == old(t).sink_route_next,
            t.sink_spill_cell == old(t).sink_spill_cell,
            t.sink_spill_to == old(t).sink_spill_to,
            t.sink_overflow_active == old(t).sink_overflow_active,
        decreases sink_members@.len() - s,
    {
        let members = &sink_members[s];
        let ghost before = t.sink_member_cells@;
        let ghost offs_before = t.sink_member_offsets@;
        let mut j: usize = 0;
        while j < members.len()
            invariant
                0 <= j <= members@.len(),
                t.sink_member_offsets@ == offs_before,
                t.sink_id == old(t).sink_id,
                t.sink_route_next == old(t).sink_route_next,
                t.sink_spill_cell == old(t).sink_spill_cell,
                t.sink_spill_to == old(t).sink_spill_to,
                t.sink_overflow_active == old(t).sink_overflow_active,
                t.sink_member_cells@ == before + members@.take(j as int).map_values(
                    |c: usize| c as u32,
                ),
            decreases members@.len() - j,
        {
            t.sink_member_cells.push(members[j] as u32);
            proof {
                assert(members@.take(j + 1).map_values(|c: usize| c as u32) =~= members@.take(
                    j as int,
                ).map_values(|c: usize| c as u32).push(members[j as int] as u32));
            }
            j += 1;
        }
        proof {
            assert(members@.take(members@.len() as int) =~= members@);
            assert(mv.take(s + 1).drop_last() =~= mv.take(s as int));
            assert(mv[s as int] == members@);
        }
        t.sink_member_offsets.push(t.sink_member_cells.len() as u32);
        s += 1;
    }
    proof {
        assert(mv.take(sink_members@.len() as int) =~= mv);
        if members_fit(mv) {
            assert forall|sid: int| 0 <= sid < sink_members@.len() implies #[trigger] members_of_spec(*t, sid)
                == sink_members@[sid]@ by {
                lemma_members_round_trip(*t, mv, sid);
            }
        }
    }
}

/// Every member cell, and the total number of members, fits in a `u32`.
pub open spec fn members_fit(m: Seq<Seq<usize>>) -> bool {
    &&& flatten_members(m).len() <= u32::MAX
    &&& forall|s: int, k: int| 0 <= s < m.len() && 0 <= k < m[s].len() ==> #[trigger] m[s][k] <= u32::MAX
}

proof fn lemma_flatten_prefix(m: Seq<Seq<usize>>, a: int, b: int)
    requires
        0 <= a <= b <= m.len(),
    ensures
        flatten_members(m.take(a)).len() <= flatten_members(m.take(b)).len(),
        flatten_members(m.take(b)).take(flatten_members(m.take(a)).len() as int) == flatten_members(m.take(a)),
    decreases b - a,
{
    if a < b {
        lemma_flatten_prefix(m, a, b - 1);
        assert(m.take(b).drop_last() =~= m.take(b - 1));
        let fa = flatten_members(m.take(a));
        let fb1 = flatten_members(m.take(b - 1));
        let fb = flatten_members(m.take(b));
        assert(fb.take(fa.len() as int) =~= fb1.take(fa.len() as int));
    } else {
        assert(flatten_members(m.take(b)).take(flatten_members(m.take(a)).len() as int) =~= flatten_members(m.take(a)));
    }
}

/// Reading back the compressed membership gives the member list of each sink.
proof fn lemma_members_round_trip(t: SinkTopology, m: Seq<Seq<usize>>, sid: int)
    requires
        members_fit(m),
        0 <= sid < m.len(),
        t.sink_member_cells@ == flatten_members(m),
        t.sink_member_offsets@.len() == m.len() + 1,
        forall|s: int| 0 <= s <= m.len() ==> #[trigger] t.sink_member_offsets@[s] == flatten_members(m.take(s)).len() as u32,
    ensures
        members_of_spec(t, sid) == m[sid],
{
    lemma_flatten_prefix(m, sid, sid + 1);
    lemma_flatten_prefix(m, sid + 1, m.len() as int);
    assert(m.take(m.len() as int) =~= m);
    assert(m.take(sid + 1).drop_last() =~= m.take(sid));
    let f0 = flatten_members(m.take(sid));
    let f1 = flatten_members(m.take(sid + 1));
    let all = flatten_members(m);
    let piece = m[sid].map_values(|c: usize| c as u32);
    assert(f1 == f0 + piece);
    assert(t.sink_member_offsets@[sid] == f0.len());
    assert(t.sink_member_offsets@[sid + 1] == f1.len());
    if m[sid].len() == 0 {
        assert(m[sid] =~= Seq::<usize>::empty());
    } else {
        let got = all.subrange(f0.len() as int, f1.len() as int);
        assert(got =~= piece) by {
            assert forall|k: int| 0 <= k < piece.len() implies got[k] == piece[k] by {
                assert(all.take(f1.len() as int)[f0.len() + k] == f1[f0.len() + k]);
            }
        }
        assert(got.map_values(|c: u32| c as usize) =~= m[sid]) by {
            assert forall|k: int| 0 <= k < m[sid].len() implies got.map_values(|c: u32| c as usize)[k] == m[sid][k] by {
                assert(m[sid][k] <= u32::MAX);
            }
        }
    }
}

/// The member cells of sink `sid` read from the compressed membership, or an
/// empty list when the offsets do not describe a non-empty range of cells.
pub open spec fn members_of_spec(t: SinkTopology, sid: int) -> Seq<usize> {
    let offs = t.sink_member_offsets@;
    if sid + 1 >= offs.len() {
        Seq::empty()
    } else {
        let begin = offs[sid] as int;
        let end = offs[sid + 1] as int;
        if begin >= end || end > t.sink_member_cells@.len() {
            Seq::empty()
        } else {
            t.sink_member_cells@.subrange(begin, end).map_values(|c: u32| c as usize)
        }
    }
}

/// The member cells of sink `sid`.
pub fn sink_members_for_sid(t: &SinkTopology, sid: usize) -> (r: Vec<usize>)
    ensures
        r@ == members_of_spec(*t, sid as int),
{
    if sid >= t.sink_member_offsets.len() || sid + 1 >= t.sink_member_offsets.len() {
        return Vec::new();
    }
    let begin = t.sink_member_offsets[sid] as usize;
    let end = t.sink_member_offsets[sid + 1] as usize;
    if begin >= end || end > t.sink_member_cells.len() {
        return Vec::new();
    }
    let mut members: Vec<usize> = Vec::with_capacity(end - begin);
    let mut k: usize = begin;
    while k < end
        invariant
            begin <= k <= end,
            end <= t.sink_member_cells@.len(),
            members@ == t.sink_member_cells@.subrange(begin as int, k as int).map_values(
                |c: u32| c as usize,
            ),
        decreases end - k,
    {
        members.push(t.sink_member_cells[k] as usize);
        proof {
            assert(t.sink_member_cells@.subrange(begin as int, k + 1).map_values(|c: u32| c as usize)
                =~= t.sink_member_cells@.subrange(begin as int, k as int).map_values(
                |c: u32| c as usize,
            ).push(t.sink_member_cells@[k as int] as usize));
        }
        k += 1;
    }
    members
}

/// Where an overflowing sink sends cell `i` (currently routed to `cur`): its
/// spill cell drains over the spill edge, other members follow the in-sink
/// route; cells outside overflowing sinks keep `cur`.
pub open spec fn overflow_target(t: SinkTopology, i: int, cur: i32) -> i32 {
    let sid = t.sink_id@[i];
    if sid < 0 || sid >= t.sink_overflow_active@.len() || t.sink_overflow_active@[sid as int] == 0 {
        cur
    } else {
        let from = if sid < t.sink_spill_cell@.len() { t.sink_spill_cell@[sid as int] } else { -1i32 };
        let to = if sid < t.sink_spill_to@.len() { t.sink_spill_to@[sid as int] } else { -1i32 };
        let route = if i < t.sink_route_next@.len() { t.sink_route_next@[i] } else { -1i32 };
        if from == i as i32 && to >= 0 {
            to
        } else if route >= 0 {
            route
        } else {
            cur
        }
    }
}

/// Redirects the routing of cells in overflowing sinks (see `overflow_target`).
/// Nothing changes when the sink ids do not cover the routing or no sink
/// state exists.
pub fn enforce_sink_overflow_routes(t: &SinkTopology, river_next: &mut [i32])
    ensures
        final(river_next)@.len() == old(river_next)@.len(),
        (t.sink_id@.len() != old(river_next)@.len() || t.sink_overflow_active@.len() == 0)
            ==> final(river_next)@ == old(river_next)@,
        !(t.sink_id@.len() != old(river_next)@.len() || t.sink_overflow_active@.len() == 0)
            ==> forall|i: int|
            0 <= i < old(river_next)@.len() ==> #[trigger] final(river_next)@[i] == overflow_target(
                *t,
                i,
                old(river_next)@[i],
            ),
        // a cell outside every overflowing sink keeps its routing
        forall|i: int|
            0 <= i < old(river_next)@.len() && !(i < t.sink_id@.len() && 0 <= t.sink_id@[i] < t.sink_overflow_active@.len()
                && t.sink_overflow_active@[t.sink_id@[i] as int] != 0) ==> #[trigger] final(river_next)@[i] == old(river_next)@[i],
        // in an overflowing sink, the spill cell drains over the spill edge and
        // the other cells follow the in-sink route where there is one
        t.sink_id@.len() == old(river_next)@.len() ==> forall|i: int|
            0 <= i < old(river_next)@.len() && i <= i32::MAX && 0 <= t.sink_id@[i] < t.sink_overflow_active@.len()
                && t.sink_overflow_active@[t.sink_id@[i] as int] != 0 ==> {
                let sid = t.sink_id@[i] as int;
                let spill_here = sid < t.sink_spill_cell@.len() && t.sink_spill_cell@[sid] as int == i && sid
                    < t.sink_spill_to@.len() && t.sink_spill_to@[sid] >= 0;
                let route = if i < t.sink_route_next@.len() { t.sink_route_next@[i] } else { -1i32 };
                &&& spill_here ==> #[trigger] final(river_next)@[i] == t.sink_spill_to@[sid]
                &&& !spill_here && route >= 0 ==> final(river_next)@[i] == route
                &&& !spill_here && route < 0 ==> final(river_next)@[i] == old(river_next)@[i]
            },
{
    let v_count = river_next.len();
    if t.sink_id.len() != v_count || t.sink_overflow_active.len() == 0 {
        return;
    }
    let mut i: usize = 0;
    while i < v_count
        invariant
            0 <= i <= v_count,
            v_count == river_next@.len(),
            v_count == old(river_next)@.len(),
            t.sink_id@.len() == v_count,
            forall|x: int| 0 <= x < i ==> #[trigger] river_next@[x] == overflow_target(*t, x, old(river_next)@[x]),
            forall|x: int| i <= x < v_count ==> #[trigger] river_next@[x] == old(river_next)@[x],
        decreases v_count - i,
    {
        let sid_raw = t.sink_id[i];
        if sid_raw >= 0 {
            let sid = sid_raw as usize;
            if sid < t.sink_overflow_active.len() && t.sink_overflow_active[sid] != 0 {
                let spill_from = if sid < t.sink_spill_cell.len() { t.sink_spill_cell[sid] } else { -1 };
                let spill_to = if sid < t.sink_spill_to.len() { t.sink_spill_to[sid] } else { -1 };
                if spill_from == i as i32 && spill_to >= 0 {
                    river_next[i] = spill_to;
                } else {
                    let route = if i < t.sink_route_next.len() { t.sink_route_next[i] } else { -1 };
                    if route >= 0 {
                        river_next[i] = route;
                    }
                }
            }
        }
        i += 1;
    }
    proof {
        assert forall|x: int| 0 <= x < v_count implies #[trigger] river_next@[x] == overflow_target(*t, x, old(river_next)@[x]) by {}
    }
}

/// The distinct sinks of the marked cells among the first `n` cells, in the
/// order of their first marked member; ids outside `0..sink_count` are ignored.
pub open spec fn affected_sinks_spec(mask: Seq<u8>, sink_id: Seq<i32>, sink_count: int, n: int) -> Seq<usize>
    decreases n,
{
    if n <= 0 {
        Seq::empty()
    } else {
        let prev = affected_sinks_spec(mask, sink_id, sink_count, n - 1);
        let c = n - 1;
        if mask[c] != 0 && c < sink_id.len() && sink_id[c] >= 0 && sink_id[c] < sink_count
            && !prev.contains(sink_id[c] as usize) {
            prev.push(sink_id[c] as usize)
        } else {
            prev
        }
    }
}

/// The sinks touched by the marked cells, each once, in order of first touch.
pub fn collect_affected_sinks(mask: &[u8], sink_id: &[i32], sink_count: usize) -> (r: Vec<usize>)
    ensures
        r@ == affected_sinks_spec(mask@, sink_id@, sink_count as int, mask@.len() as int),
{
    let mut seen: Vec<u8> = vec![0; sink_count];
    let mut out: Vec<usize> = Vec::new();
    let mut c: usize = 0;
    while c < mask.len()
        invariant
            0 <= c <= mask@.len(),
            seen@.len() == sink_count,
            out@ == affected_sinks_spec(mask@, sink_id@, sink_count as int, c as int),
            forall|s: int| 0 <= s < sink_count ==> (#[trigger] seen@[s] != 0 <==> out@.contains(s as usize)),
        decreases mask@.len() - c,
    {
        if mask[c] != 0 {
            let sid_raw: i32 = if c < sink_id.len() { sink_id[c] } else { -1 };
            if sid_raw >= 0 && (sid_raw as usize) < sink_count {
                let sid = sid_raw as usize;
                if seen[sid] == 0 {
                    let ghost prev = out@;
                    seen.set(sid, 1);
                    out.push(sid);
                    proof {
                        assert forall|s: int| 0 <= s < sink_count implies (#[trigger] seen@[s] != 0 <==> out@.contains(s as usize)) by {
                            if s == sid as int {
                                assert(out@[out@.len() - 1] == sid);
                            } else {
                                if out@.contains(s as usize) {
                                    let k = choose|k: int| 0 <= k < out@.len() && out@[k] == s as usize;
                                    assert(prev[k] == s as usize);
                                }
                                if prev.contains(s as usize) {
                                    let k = choose|k: int| 0 <= k < prev.len() && prev[k] == s as usize;
                                    assert(out@[k] == s as usize);
                                }
                            }
                        }
                    }
                }
            }
        }
        c += 1;
    }
    out
}

/// A cell whose sink does not overflow (or that has no sink) keeps its
/// routing.
pub proof fn lemma_quiet_sink_keeps_routing(t: SinkTopology, i: int, cur: i32)
    requires
        t.sink_id@[i] < 0 || t.sink_id@[i] >= t.sink_overflow_active@.len() || t.sink_overflow_active@[t.sink_id@[i] as int] == 0,
    ensures
        overflow_target(t, i, cur) == cur,
{
}

/// A topology that passes the checks is sized for the mesh it is checked
/// against: one sink id and one in-sink route per cell.
pub proof fn lemma_valid_topology_is_sized(t: SinkTopology, lens: SinkFieldLens, cell_count: int)
    requires
        topology_valid_spec(t, lens, cell_count),
    ensures
        t.sink_id@.len() == cell_count,
        t.sink_route_next@.len() == cell_count,
{
}

} // verus!
