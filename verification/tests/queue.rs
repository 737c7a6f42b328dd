use frey::active_queue::{mark_changed_vertex, mark_neighbors_changed, ActiveQueue};
use frey::automaton::{record_cell_update, AsyncCellUpdateResult};
use frey::neighborhood::{enqueue_sink_local_area, mark_neighbors_within_hops};
use frey::partial_rebuild::plan_partial_sink_rebuild;

// A path of six cells: 0 - 1 - 2 - 3 - 4 - 5.
fn path_offsets() -> Vec<u32> {
    vec![0, 1, 3, 5, 7, 9, 10]
}

fn path_nbrs() -> Vec<u32> {
    vec![1, 0, 2, 1, 3, 2, 4, 3, 5, 4]
}

fn empty_queue(n: usize) -> ActiveQueue {
    ActiveQueue { active_queue: Vec::new(), active_head: 0, in_queue: vec![0; n] }
}

#[test]
fn queued_cells_come_out_first_in_first_out() {
    let mut q = empty_queue(4);
    q.enqueue_active_vertex(2);
    q.enqueue_active_vertex(0);
    q.enqueue_active_vertex(2);
    q.enqueue_active_vertex(9);
    assert_eq!(q.active_queue, vec![2, 0]);
    assert_eq!(q.in_queue, vec![1, 0, 1, 0]);
    assert_eq!(q.pop_active_vertex(), Some(2));
    assert_eq!(q.in_queue, vec![1, 0, 0, 0]);
    assert_eq!(q.pop_active_vertex(), Some(0));
    assert_eq!(q.pop_active_vertex(), None);
    assert_eq!(q.active_head, 2);
}

#[test]
fn popping_skips_stale_entries() {
    let mut q = ActiveQueue { active_queue: vec![1, 7, 3], active_head: 0, in_queue: vec![0, 0, 0, 1] };
    assert_eq!(q.pop_active_vertex(), Some(3));
    assert_eq!(q.active_head, 3);
    assert_eq!(q.in_queue, vec![0, 0, 0, 0]);
}

#[test]
fn a_popped_cell_can_be_queued_again() {
    let mut q = empty_queue(3);
    q.enqueue_active_vertex(1);
    assert_eq!(q.pop_active_vertex(), Some(1));
    q.enqueue_active_vertex(1);
    assert_eq!(q.pop_active_vertex(), Some(1));
}

#[test]
fn compaction_keeps_the_waiting_entries() {
    let mut q = ActiveQueue { active_queue: vec![5, 6, 7], active_head: 2, in_queue: vec![0; 8] };
    q.compact_active_queue();
    assert_eq!(q.active_queue, vec![7]);
    assert_eq!(q.active_head, 0);
    let mut q = ActiveQueue { active_queue: vec![5, 6, 7], active_head: 1, in_queue: vec![0; 8] };
    q.compact_active_queue();
    assert_eq!(q.active_queue, vec![5, 6, 7]);
    assert_eq!(q.active_head, 1);
    let mut q = ActiveQueue { active_queue: vec![5, 6], active_head: 2, in_queue: vec![0; 8] };
    q.compact_active_queue();
    assert!(q.active_queue.is_empty());
    assert_eq!(q.active_head, 0);
}

#[test]
fn neighbours_are_queued_in_neighbour_order() {
    let mut q = empty_queue(6);
    q.enqueue_active_vertex(3);
    q.enqueue_neighbors(2, &path_offsets(), &path_nbrs());
    assert_eq!(q.active_queue, vec![3, 1]);
    assert_eq!(q.in_queue, vec![0, 1, 0, 1, 0, 0]);
}

#[test]
fn changes_are_logged_once() {
    let mut mark = vec![0u8; 4];
    let mut log = Vec::new();
    mark_changed_vertex(2, &mut mark, &mut log);
    mark_changed_vertex(2, &mut mark, &mut log);
    mark_changed_vertex(7, &mut mark, &mut log);
    assert_eq!(mark, vec![0, 0, 1, 0]);
    assert_eq!(log, vec![2]);
    let mut mark = vec![0u8; 6];
    let mut log = vec![];
    mark_neighbors_changed(&path_offsets(), &path_nbrs(), 3, &mut mark, &mut log);
    mark_neighbors_changed(&path_offsets(), &path_nbrs(), 1, &mut mark, &mut log);
    assert_eq!(log, vec![2, 4, 0]);
    assert_eq!(mark, vec![1, 0, 1, 0, 1, 0]);
}

#[test]
fn a_changed_deposit_wakes_its_neighbourhood() {
    let mut q = empty_queue(6);
    let mut mark = vec![0u8; 6];
    let mut log = Vec::new();
    let result = AsyncCellUpdateResult { changed: true, deposited_here: true, downstream: Some(5) };
    record_cell_update(&mut q, &mut mark, &mut log, &path_offsets(), &path_nbrs(), 2, result);
    assert_eq!(q.active_queue, vec![1, 3, 5, 2]);
    assert_eq!(log, vec![2, 1, 3, 5]);
    assert_eq!(mark, vec![0, 1, 1, 1, 0, 1]);
}

#[test]
fn an_unchanged_cell_only_wakes_downstream() {
    let mut q = empty_queue(6);
    let mut mark = vec![0u8; 6];
    let mut log = Vec::new();
    let result = AsyncCellUpdateResult { changed: false, deposited_here: false, downstream: Some(4) };
    record_cell_update(&mut q, &mut mark, &mut log, &path_offsets(), &path_nbrs(), 2, result);
    assert_eq!(q.active_queue, vec![4]);
    assert!(log.is_empty());
}

#[test]
fn marking_within_hops_spreads_from_the_start() {
    let mut mark = vec![0u8; 6];
    mark_neighbors_within_hops(2, 1, &path_offsets(), &path_nbrs(), &mut mark);
    assert_eq!(mark, vec![0, 1, 1, 1, 0, 0]);
    let mut mark = vec![0u8; 6];
    mark_neighbors_within_hops(2, 0, &path_offsets(), &path_nbrs(), &mut mark);
    assert_eq!(mark, vec![0, 0, 1, 0, 0, 0]);
    let mut mark = vec![0u8; 6];
    mark_neighbors_within_hops(0, 50, &path_offsets(), &path_nbrs(), &mut mark);
    assert_eq!(mark, vec![1; 6]);
}

#[test]
fn marked_cells_stop_the_spread() {
    let mut mark = vec![0, 0, 0, 7, 0, 0];
    mark_neighbors_within_hops(2, 2, &path_offsets(), &path_nbrs(), &mut mark);
    assert_eq!(mark, vec![1, 1, 1, 7, 0, 0]);
    let mut mark = vec![0, 0, 3, 0, 0, 0];
    mark_neighbors_within_hops(2, 1, &path_offsets(), &path_nbrs(), &mut mark);
    assert_eq!(mark, vec![0, 1, 3, 1, 0, 0]);
    let mut mark = vec![0u8; 6];
    mark_neighbors_within_hops(6, 3, &path_offsets(), &path_nbrs(), &mut mark);
    assert_eq!(mark, vec![0u8; 6]);
}

#[test]
fn marking_reads_a_short_neighbour_table_leniently() {
    // Cell 2 has no offsets of its own, and cell 0 lists a cell 9 that does not exist.
    let mut mark = vec![0u8; 4];
    mark_neighbors_within_hops(0, 3, &[0, 2, 3], &[1, 9, 2], &mut mark);
    assert_eq!(mark, vec![1, 1, 1, 0]);
    // An offset past the end of the table is cut down to it.
    let mut mark = vec![0u8; 3];
    mark_neighbors_within_hops(0, 1, &[0, 5], &[1, 2], &mut mark);
    assert_eq!(mark, vec![1, 1, 1]);
}

#[test]
fn sink_neighbourhood_is_queued_nearest_first() {
    let mut q = empty_queue(6);
    enqueue_sink_local_area(&mut q, &[2], 0, 0, &path_offsets(), &path_nbrs(), 6);
    assert_eq!(q.active_queue, vec![2, 1, 3]);
    let mut q = empty_queue(6);
    enqueue_sink_local_area(&mut q, &[2], 0, 2, &path_offsets(), &path_nbrs(), 6);
    assert_eq!(q.active_queue, vec![2, 1, 3, 0, 4]);
}

#[test]
fn sink_neighbourhood_follows_the_neighbour_lists_breadth_first() {
    // 0 lists 3 before 1; 3 reaches 4 and 1 reaches 2 one step further.
    let offsets = vec![0, 2, 4, 5, 7, 8];
    let nbrs = vec![3, 1, 0, 2, 1, 0, 4, 3];
    let mut q = empty_queue(5);
    enqueue_sink_local_area(&mut q, &[0], 0, 2, &offsets, &nbrs, 5);
    assert_eq!(q.active_queue, vec![0, 3, 1, 4, 2]);
}

#[test]
fn sink_without_spill_cell_queues_nothing() {
    let mut q = empty_queue(6);
    enqueue_sink_local_area(&mut q, &[-1, 4], 0, 3, &path_offsets(), &path_nbrs(), 6);
    assert!(q.active_queue.is_empty());
    enqueue_sink_local_area(&mut q, &[-1, 4], 5, 3, &path_offsets(), &path_nbrs(), 6);
    assert!(q.active_queue.is_empty());
}

#[test]
fn partial_rebuild_plans_the_sinks_next_to_changes() {
    let sink_id = [0, 0, 1, -1, 2, 2];
    let (affected, members) = plan_partial_sink_rebuild(&[3], &path_offsets(), &path_nbrs(), &sink_id, 3);
    assert_eq!(affected, vec![1, 2]);
    assert_eq!(members, vec![vec![2], vec![4, 5]]);
    let (affected, members) = plan_partial_sink_rebuild(&[3, 0], &path_offsets(), &path_nbrs(), &sink_id, 3);
    assert_eq!(affected, vec![0, 1, 2]);
    assert_eq!(members, vec![vec![0, 1], vec![2], vec![4, 5]]);
    let (affected, members) = plan_partial_sink_rebuild(&[3], &path_offsets(), &path_nbrs(), &sink_id, 2);
    assert_eq!(affected, vec![1]);
    assert_eq!(members, vec![vec![2]]);
    let (affected, members) = plan_partial_sink_rebuild(&[9], &path_offsets(), &path_nbrs(), &sink_id, 3);
    assert!(affected.is_empty() && members.is_empty());
}
