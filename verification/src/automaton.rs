//! Scheduling decisions of the asynchronous erosion automaton: its sink
//! buffers, when to rebuild sinks in full, how much work a step does, and
//! the queue bookkeeping after a cell update.
use vstd::prelude::*;
use crate::active_queue::{
    enqueue_all_spec, enqueue_spec, mark_all_spec, mark_changed_vertex, mark_neighbors_changed,
    mark_spec, neighbor_range_ok, neighbors_of, ActiveQueue,
};

verus! {

/// Ticks after which the sinks are rebuilt in full regardless of changes.
pub const FULL_REBUILD_INTERVAL_TICKS: u64 = 8;

/// The integer sink arrays the automaton keeps.
pub struct ErosionSinkBuffers {
    pub sink_id: Vec<i32>,
    pub sink_route_next: Vec<i32>,
    pub sink_dirty: Vec<u8>,
    pub sink_spill_cell: Vec<i32>,
    pub sink_spill_to: Vec<i32>,
    pub sink_overflow_active: Vec<u8>,
}

/// Lengths of the automaton's per-sink quantities.
#[derive(Clone, Copy, Debug, PartialEq, Eq, Structural)]
pub struct ErosionSinkLens {
    pub spill_level: usize,
    pub capacity_total: usize,
    pub capacity_remaining: usize,
    pub storage_sediment: usize,
}

/// Per-cell sink arrays cover `v_count` cells and all per-sink arrays agree.
pub open spec fn sink_buffers_ready_spec(b: ErosionSinkBuffers, lens: ErosionSinkLens, v_count: int) -> bool {
    let k = b.sink_spill_cell@.len();
    &&& b.sink_id@.len() == v_count
    &&& b.sink_route_next@.len() == v_count
    &&& b.sink_dirty@.len() == v_count
    &&& b.sink_spill_to@.len() == k
    &&& lens.spill_level == k
    &&& lens.capacity_total == k
    &&& lens.capacity_remaining == k
    &&& lens.storage_sediment == k
    &&& b.sink_overflow_active@.len() == k
}

/// Whether the asynchronous erosion automaton's sink buffers are sized for
/// `v_count` cells.
pub fn sink_buffers_ready(b: &ErosionSinkBuffers, lens: &ErosionSinkLens, v_count: usize) -> (r: bool)
    ensures
        r == sink_buffers_ready_spec(*b, *lens, v_count as int),
{
    let k = b.sink_spill_cell.len();
    b.sink_id.len() == v_count && b.sink_route_next.len() == v_count && b.sink_dirty.len()
        == v_count && b.sink_spill_to.len() == k && lens.spill_level == k && lens.capacity_total
        == k && lens.capacity_remaining == k && lens.storage_sediment == k
        && b.sink_overflow_active.len() == k
}

/// Sets every cell to "no sink, no route, clean" over `v_count` cells.
pub fn reset_sink_buffers(b: &mut ErosionSinkBuffers, v_count: usize)
    ensures
        final(b).sink_id@ == Seq::new(v_count as nat, |i: int| -1i32),
        final(b).sink_route_next@ == Seq::new(v_count as nat, |i: int| -1i32),
        final(b).sink_dirty@ == Seq::new(v_count as nat, |i: int| 0u8),
        final(b).sink_spill_cell == old(b).sink_spill_cell,
        final(b).sink_spill_to == old(b).sink_spill_to,
        final(b).sink_overflow_active == old(b).sink_overflow_active,
{
    b.sink_id = vec![-1; v_count];
    b.sink_route_next = vec![-1; v_count];
    b.sink_dirty = vec![0; v_count];
}

/// A step rebuilds the sinks in full on its first tick, when the buffers are
/// not ready, when at least 2% of the cells changed, or when the last full
/// rebuild is `FULL_REBUILD_INTERVAL_TICKS` ticks old. This is the rule of
/// the asynchronous erosion automaton's step. The 2% share is compared
/// exactly, in integers (`changed_count * 50 >= v_count`); a comparison of
/// the ratio in single-precision floating point agrees with it as long as
/// the cell count stays below about 2^25.
pub fn force_full_sink_rebuild(
    tick: u64,
    buffers_ready: bool,
    changed_count: usize,
    v_count: usize,
    last_full_rebuild_tick: u64,
) -> (r: bool)
    ensures
        r == (tick <= 1 || !buffers_ready || (v_count > 0 && changed_count * 50 >= v_count) || (
        if tick >= last_full_rebuild_tick {
            tick - last_full_rebuild_tick
        } else {
            0
        }) >= FULL_REBUILD_INTERVAL_TICKS),
{
    let ratio_hit = v_count > 0 && (changed_count as u128) * 50 >= v_count as u128;
    tick <= 1 || !buffers_ready || ratio_hit || tick.saturating_sub(last_full_rebuild_tick)
        >= FULL_REBUILD_INTERVAL_TICKS
}

/// Counts of the kinds of sink rebuild one step performed.
#[derive(Clone, Copy, Debug, PartialEq, Eq, Structural)]
pub struct SinkRebuildStats {
    pub full_count: u32,
    pub partial_count: u32,
    pub skipped_count: u32,
    pub fallback_full_count: u32,
}

/// The first decision of a sink rebuild.
#[derive(Clone, Copy, Debug, PartialEq, Eq, Structural)]
pub enum SinkRebuildStep {
    Full,
    Skip,
    Partial,
}

/// A forced rebuild is full; otherwise nothing changed means skip, else the
/// affected sinks are rebuilt one by one.
pub fn plan_sink_rebuild(force_full: bool, changed_count: usize) -> (r: SinkRebuildStep)
    ensures
        r == (if force_full {
            SinkRebuildStep::Full
        } else if changed_count == 0 {
            SinkRebuildStep::Skip
        } else {
            SinkRebuildStep::Partial
        }),
{
    if force_full {
        SinkRebuildStep::Full
    } else if changed_count == 0 {
        SinkRebuildStep::Skip
    } else {
        SinkRebuildStep::Partial
    }
}

/// The statistics of a full rebuild.
pub fn full_rebuild_stats() -> (r: SinkRebuildStats)
    ensures
        r == (SinkRebuildStats { full_count: 1, partial_count: 0, skipped_count: 0, fallback_full_count: 0 }),
{
    SinkRebuildStats { full_count: 1, partial_count: 0, skipped_count: 0, fallback_full_count: 0 }
}

/// The statistics of a skipped rebuild.
pub fn skipped_rebuild_stats() -> (r: SinkRebuildStats)
    ensures
        r == (SinkRebuildStats { full_count: 0, partial_count: 0, skipped_count: 1, fallback_full_count: 0 }),
{
    SinkRebuildStats { full_count: 0, partial_count: 0, skipped_count: 1, fallback_full_count: 0 }
}

/// After a partial rebuild touched `affected` sinks of which `invalid` lost
/// their spill edge: none touched counts as skipped; more than 20% invalid
/// falls back to a full rebuild (`true`); otherwise it was a partial rebuild.
pub fn after_partial_rebuild(affected: usize, invalid: usize) -> (r: (SinkRebuildStats, bool))
    ensures
        affected == 0 ==> r == (SinkRebuildStats { full_count: 0, partial_count: 0, skipped_count: 1, fallback_full_count: 0 }, false),
        affected > 0 && invalid * 5 > affected ==> r == (SinkRebuildStats { full_count: 1, partial_count: 1, skipped_count: 0, fallback_full_count: 1 }, true),
        affected > 0 && invalid * 5 <= affected ==> r == (SinkRebuildStats { full_count: 0, partial_count: 1, skipped_count: 0, fallback_full_count: 0 }, false),
{
    if affected == 0 {
        return (skipped_rebuild_stats(), false);
    }
    if (invalid as u128) * 5 > affected as u128 {
        (SinkRebuildStats { full_count: 1, partial_count: 1, skipped_count: 0, fallback_full_count: 1 }, true)
    } else {
        (SinkRebuildStats { full_count: 0, partial_count: 1, skipped_count: 0, fallback_full_count: 0 }, false)
    }
}

/// `x` limited to `lo..=hi` (for `lo <= hi`).
pub open spec fn clamp_int(x: int, lo: int, hi: int) -> int {
    if x < lo {
        lo
    } else if x > hi {
        hi
    } else {
        x
    }
}

/// Cells that receive rain in one step: half the budget, kept within
/// 16..=256, and no more than the mesh has.
pub fn rain_inject_count(budget: usize, v_count: usize) -> (r: usize)
    ensures
        r == vstd::math::min(clamp_int(budget as int / 2, 16, 256), v_count as int),
{
    let half = budget / 2;
    let clamped = if half < 16 {
        16
    } else if half > 256 {
        256
    } else {
        half
    };
    if clamped < v_count {
        clamped
    } else {
        v_count
    }
}

/// Cells one automaton step may process: a twelfth of `cell_count * budget`
/// (saturating, at least 1 before dividing), and never fewer than 32.
pub fn automaton_budget_cells(cell_count: u32, budget: u32) -> (r: u32)
    ensures
        ({
            let prod = if cell_count * budget > u32::MAX { u32::MAX as int } else { cell_count * budget };
            let at_least_one = if prod < 1 { 1 } else { prod };
            r == vstd::math::max(at_least_one / 12, 32)
        }),
{
    assert((cell_count as u64) * (budget as u64) <= u32::MAX as u64 * u32::MAX as u64) by (nonlinear_arith)
        requires cell_count <= u32::MAX, budget <= u32::MAX;
    let wide = (cell_count as u64) * (budget as u64);
    let prod: u32 = if wide > u32::MAX as u64 { u32::MAX } else { wide as u32 };
    let at_least_one = if prod < 1 { 1 } else { prod };
    let per = at_least_one / 12;
    if per < 32 {
        32
    } else {
        per
    }
}

/// What updating one cell did.
#[derive(Clone, Copy, Debug, PartialEq, Eq, Structural)]
pub struct AsyncCellUpdateResult {
    pub changed: bool,
    pub deposited_here: bool,
    pub downstream: Option<usize>,
}

/// The queue and change log after the updates that follow a cell update.
pub open spec fn record_spec(
    q: Seq<u32>,
    inq: Seq<u8>,
    mark: Seq<u8>,
    log: Seq<u32>,
    offsets: Seq<u32>,
    nbrs: Seq<u32>,
    v: int,
    res: AsyncCellUpdateResult,
) -> (Seq<u32>, Seq<u8>, Seq<u8>, Seq<u32>) {
    // 1. a changed cell is recorded
    let (m1, l1) = if res.changed { mark_spec(mark, log, v) } else { (mark, log) };
    // 2. a deposit wakes up and records the neighbours
    let (q2, i2) = if res.deposited_here {
        enqueue_all_spec(q, inq, neighbors_of(offsets, nbrs, v))
    } else {
        (q, inq)
    };
    let (m2, l2) = if res.deposited_here {
        mark_all_spec(m1, l1, neighbors_of(offsets, nbrs, v))
    } else {
        (m1, l1)
    };
    // 3. the downstream cell is woken up, and recorded when this cell changed
    let (q3, i3) = match res.downstream {
        Some(n) => enqueue_spec(q2, i2, n as int),
        None => (q2, i2),
    };
    let (m3, l3) = match res.downstream {
        Some(n) => if res.changed { mark_spec(m2, l2, n as int) } else { (m2, l2) },
        None => (m2, l2),
    };
    // 4. a changed cell is queued again
    let (q4, i4) = if res.changed { enqueue_spec(q3, i3, v) } else { (q3, i3) };
    (q4, i4, m3, l3)
}

/// Queue and change-log bookkeeping after cell `v` was updated, as the
/// asynchronous erosion automaton's step does it: a changed cell is
/// recorded, and so is its downstream cell when the cell changed. (A step
/// that records a cell only when its topography changed, and never its
/// downstream cell, follows another rule, which this function does not
/// cover.)
pub fn record_cell_update(
    queue: &mut ActiveQueue,
    changed_mark: &mut [u8],
    recent_changed: &mut Vec<u32>,
    nbr_offsets: &[u32],
    nbrs: &[u32],
    v: usize,
    result: AsyncCellUpdateResult,
)
    requires
        result.deposited_here ==> neighbor_range_ok(nbr_offsets@, nbrs@, v as int),
    ensures
        (final(queue).active_queue@, final(queue).in_queue@, final(changed_mark)@,
            final(recent_changed)@) == record_spec(
            old(queue).active_queue@,
            old(queue).in_queue@,
            old(changed_mark)@,
            old(recent_changed)@,
            nbr_offsets@,
            nbrs@,
            v as int,
            result,
        ),
        final(queue).active_head == old(queue).active_head,
        final(queue).in_queue@.len() == old(queue).in_queue@.len(),
        final(changed_mark)@.len() == old(changed_mark)@.len(),
        old(queue).wf() ==> final(queue).wf(),
        // a changed cell waits in the queue again, whether or not it deposited
        result.changed && v < old(queue).in_queue@.len() ==> final(queue).in_queue@[v as int] != 0,
        result.changed && v < old(queue).in_queue@.len() && old(queue).wf() ==> exists|p: int|
            final(queue).active_head <= p < final(queue).active_queue@.len() && #[trigger] final(queue).active_queue@[p] as int
                == v,
        // the downstream cell is woken up
        forall|n: usize| result.downstream == Some(n) && n < old(queue).in_queue@.len() ==> #[trigger] final(queue).in_queue@[n as int] != 0,
        // a changed cell is recorded, and so is its downstream cell
        result.changed && v < old(changed_mark)@.len() ==> final(changed_mark)@[v as int] != 0,
        forall|n: usize| result.changed && result.downstream == Some(n) && n < old(changed_mark)@.len() ==> #[trigger] final(changed_mark)@[n as int] != 0,
        // an update that changed nothing and woke nothing leaves everything as it was
        !result.changed && !result.deposited_here && result.downstream is None ==> *final(queue) == *old(queue)
            && final(changed_mark)@ == old(changed_mark)@ && final(recent_changed)@ == old(recent_changed)@,
{
    let ghost mark0 = changed_mark@;
    if result.changed {
        mark_changed_vertex(v, changed_mark, recent_changed);
    }
    let ghost mark1 = changed_mark@;
    let ghost inq1 = queue.in_queue@;
    let ghost q1 = queue.active_queue@;
    let ghost log1 = recent_changed@;
    if result.deposited_here {
        queue.enqueue_neighbors(v, nbr_offsets, nbrs);
        mark_neighbors_changed(nbr_offsets, nbrs, v, changed_mark, recent_changed);
        proof {
            lemma_enqueue_all_keeps(inq1, neighbors_of(nbr_offsets@, nbrs@, v as int), q1);
            lemma_mark_all_keeps(mark1, log1, neighbors_of(nbr_offsets@, nbrs@, v as int));
        }
    }
    let ghost mark2 = changed_mark@;
    if let Some(n) = result.downstream {
        queue.enqueue_active_vertex(n);
        if result.changed {
            mark_changed_vertex(n, changed_mark, recent_changed);
        }
    }
    let ghost mark3 = changed_mark@;
    let ghost inq3 = queue.in_queue@;
    if result.changed {
        queue.enqueue_active_vertex(v);
    }
    proof {
        assert(mark2.len() == mark0.len());
        if result.changed && v < mark0.len() {
            assert(mark1[v as int] != 0);
            assert(mark2[v as int] != 0);
            assert(mark3[v as int] != 0);
        }
        if result.changed && v < old(queue).in_queue@.len() && old(queue).wf() {
            assert(queue.in_queue@[v as int] != 0);
            assert(queue.wf());
        }
    }
}

/// Enqueuing a list of cells keeps the length of the waiting marks and
/// never clears a mark.
proof fn lemma_enqueue_all_keeps(inq: Seq<u8>, list: Seq<u32>, q: Seq<u32>)
    ensures
        enqueue_all_spec(q, inq, list).1.len() == inq.len(),
        forall|x: int| 0 <= x < inq.len() && inq[x] != 0 ==> #[trigger] enqueue_all_spec(q, inq, list).1[x] != 0,
    decreases list.len(),
{
    if list.len() > 0 {
        lemma_enqueue_all_keeps(inq, list.drop_last(), q);
    }
}

/// Recording a list of cells keeps the length of the change marks and
/// never clears a mark.
proof fn lemma_mark_all_keeps(mark: Seq<u8>, log: Seq<u32>, list: Seq<u32>)
    ensures
        mark_all_spec(mark, log, list).0.len() == mark.len(),
        forall|x: int| 0 <= x < mark.len() && mark[x] != 0 ==> #[trigger] mark_all_spec(mark, log, list).0[x] != 0,
    decreases list.len(),
{
    if list.len() > 0 {
        lemma_mark_all_keeps(mark, log, list.drop_last());
    }
}


/// Whether the automaton's per-cell arrays (given by their lengths) match
/// the world's: heights, river fluxes and river targets.
pub fn erosion_state_matches_world(
    height_len: usize,
    flux_len: usize,
    next_len: usize,
    expected_height: usize,
    expected_flux: usize,
    expected_next: usize,
) -> (r: bool)
    ensures
        r == (height_len == expected_height && flux_len == expected_flux && next_len == expected_next),
{
    height_len == expected_height && flux_len == expected_flux && next_len == expected_next
}

/// After the bookkeeping of an update, a changed cell of the mesh waits in
/// the queue again, whether or not it deposited, and it is recorded as
/// changed.
pub proof fn lemma_changed_cell_waits_again(
    q: Seq<u32>,
    inq: Seq<u8>,
    mark: Seq<u8>,
    log: Seq<u32>,
    offsets: Seq<u32>,
    nbrs: Seq<u32>,
    v: int,
    res: AsyncCellUpdateResult,
)
    requires
        res.changed,
        0 <= v < inq.len(),
        v < mark.len(),
    ensures
        record_spec(q, inq, mark, log, offsets, nbrs, v, res).1[v] != 0,
        record_spec(q, inq, mark, log, offsets, nbrs, v, res).2[v] != 0,
{
    let (m1, l1) = mark_spec(mark, log, v);
    let (q2, i2) = if res.deposited_here {
        enqueue_all_spec(q, inq, neighbors_of(offsets, nbrs, v))
    } else {
        (q, inq)
    };
    if res.deposited_here {
        lemma_enqueue_all_keeps(inq, neighbors_of(offsets, nbrs, v), q);
        lemma_mark_all_keeps(m1, l1, neighbors_of(offsets, nbrs, v));
    }
}

} // verus!
