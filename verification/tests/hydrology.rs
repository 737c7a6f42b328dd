use frey::basins::{build_sink_members, trace_terminals};
use frey::downstream::downstream_from_csr;
use frey::flow::sanitize_primary_next_no_cycle;
use frey::sinks::{
    collect_affected_sinks, enforce_sink_overflow_routes, fill_spill_buffers_ready, rebuild_membership_csr,
    reset_fill_spill, resize_sink_state_arrays, sink_members_for_sid, validate_fill_spill_topology, SinkFieldLens,
    SinkTopology,
};

#[test]
fn sanitize_primary_next_breaks_cycle_into_sink() {
    let mut river_next = vec![1, 2, 0, -1];

    sanitize_primary_next_no_cycle(&mut river_next);

    assert_eq!(river_next, vec![-1, 2, 0, -1]);
}

#[test]
fn sanitize_turns_out_of_range_targets_into_outlets() {
    let mut river_next = vec![7, -1, 4];
    sanitize_primary_next_no_cycle(&mut river_next);
    assert_eq!(river_next, vec![-1, -1, -1]);
}

#[test]
fn sanitize_breaks_a_self_loop() {
    let mut river_next = vec![0, 0];
    sanitize_primary_next_no_cycle(&mut river_next);
    assert_eq!(river_next, vec![-1, 0]);
}

#[test]
fn sanitize_leaves_draining_routing_unchanged() {
    let draining = vec![1, 2, -1, 2, 3];
    let mut river_next = draining.clone();
    sanitize_primary_next_no_cycle(&mut river_next);
    assert_eq!(river_next, draining);
}

#[test]
fn sanitize_is_idempotent() {
    let mut river_next = vec![3, 0, 1, 2, 9, 4];
    sanitize_primary_next_no_cycle(&mut river_next);
    let once = river_next.clone();
    sanitize_primary_next_no_cycle(&mut river_next);
    assert_eq!(river_next, once);
}

#[test]
fn sanitize_cuts_the_cycle_where_the_first_walk_enters_it() {
    let mut river_next = vec![1, 2, 3, 1];
    sanitize_primary_next_no_cycle(&mut river_next);
    assert_eq!(river_next, vec![1, -1, 3, 1]);
}

#[test]
fn sanitize_cuts_each_cycle_once() {
    let mut river_next = vec![1, 0, 3, 2];
    sanitize_primary_next_no_cycle(&mut river_next);
    assert_eq!(river_next, vec![-1, 0, -1, 2]);
}

#[test]
fn sanitize_handles_empty_routing() {
    let mut river_next: Vec<i32> = Vec::new();
    sanitize_primary_next_no_cycle(&mut river_next);
    assert!(river_next.is_empty());
}

fn empty_topology() -> SinkTopology {
    SinkTopology {
        sink_id: Vec::new(),
        sink_route_next: Vec::new(),
        sink_member_offsets: Vec::new(),
        sink_member_cells: Vec::new(),
        sink_spill_cell: Vec::new(),
        sink_spill_to: Vec::new(),
        sink_overflow_active: Vec::new(),
    }
}

fn lens(k: usize) -> SinkFieldLens {
    SinkFieldLens { spill_level: k, capacity_total: k, capacity_remaining: k, storage_water: k, storage_sediment: k }
}

#[test]
fn membership_round_trips_through_the_compressed_form() {
    let mut t = empty_topology();
    let members = vec![vec![4, 2], vec![], vec![0, 1, 3]];
    rebuild_membership_csr(&mut t, &members);
    assert_eq!(t.sink_member_offsets, vec![0, 2, 2, 5]);
    assert_eq!(t.sink_member_cells, vec![4, 2, 0, 1, 3]);
    assert_eq!(sink_members_for_sid(&t, 0), vec![4, 2]);
    assert_eq!(sink_members_for_sid(&t, 1), Vec::<usize>::new());
    assert_eq!(sink_members_for_sid(&t, 2), vec![0, 1, 3]);
    assert_eq!(sink_members_for_sid(&t, 3), Vec::<usize>::new());
}

#[test]
fn reset_topology_is_valid_and_ready() {
    let mut t = empty_topology();
    reset_fill_spill(&mut t, 5);
    assert_eq!(t.sink_id, vec![-1; 5]);
    assert_eq!(t.sink_route_next, vec![-1; 5]);
    assert_eq!(t.sink_member_offsets, vec![0]);
    assert!(fill_spill_buffers_ready(&t, &lens(0), 5));
    assert!(validate_fill_spill_topology(&t, &lens(0), 5));
    assert!(!fill_spill_buffers_ready(&t, &lens(0), 4));
}

#[test]
fn validation_rejects_out_of_range_sink_ids_and_routes() {
    let mut t = empty_topology();
    reset_fill_spill(&mut t, 3);
    resize_sink_state_arrays(&mut t, 1);
    assert_eq!(t.sink_spill_cell, vec![-1]);
    assert_eq!(t.sink_spill_to, vec![-1]);
    assert_eq!(t.sink_overflow_active, vec![0]);
    assert!(validate_fill_spill_topology(&t, &lens(1), 3));
    t.sink_id[1] = 1;
    assert!(!validate_fill_spill_topology(&t, &lens(1), 3));
    t.sink_id[1] = 0;
    t.sink_route_next[2] = 3;
    assert!(!validate_fill_spill_topology(&t, &lens(1), 3));
    t.sink_route_next[2] = -2;
    assert!(!validate_fill_spill_topology(&t, &lens(1), 3));
}

#[test]
fn overflowing_sink_routes_over_its_spill_edge() {
    let t = SinkTopology {
        sink_id: vec![0, 0, -1, 1],
        sink_route_next: vec![1, -1, -1, -1],
        sink_member_offsets: vec![0],
        sink_member_cells: Vec::new(),
        sink_spill_cell: vec![1, 3],
        sink_spill_to: vec![2, 2],
        sink_overflow_active: vec![1, 0],
    };
    let mut river_next = vec![-1, -1, -1, -1];
    enforce_sink_overflow_routes(&t, &mut river_next);
    assert_eq!(river_next, vec![1, 2, -1, -1]);
}

#[test]
fn overflow_routes_need_matching_sink_ids() {
    let mut t = empty_topology();
    t.sink_id = vec![0];
    t.sink_overflow_active = vec![1];
    t.sink_spill_cell = vec![0];
    t.sink_spill_to = vec![1];
    let mut river_next = vec![-1, -1];
    enforce_sink_overflow_routes(&t, &mut river_next);
    assert_eq!(river_next, vec![-1, -1]);
}

#[test]
fn affected_sinks_are_listed_once_in_cell_order() {
    let mask = vec![1, 1, 0, 1, 1];
    let sink_id = vec![2, -1, 0, 2, 1];
    assert_eq!(collect_affected_sinks(&mask, &sink_id, 3), vec![2, 1]);
    assert_eq!(collect_affected_sinks(&mask, &sink_id, 2), vec![1]);
}

#[test]
fn downhill_paths_end_at_their_basin_root() {
    let land = [true, true, true, false, true];
    let downhill = [1, 2, -1, -1, 3];
    assert_eq!(trace_terminals(&land, &downhill), vec![2, 2, 2, -1, -1]);
    assert_eq!(trace_terminals(&[true], &[5]), vec![-1]);
    assert_eq!(trace_terminals(&[true, true], &[-1, -1]), vec![0, 1]);
}

#[test]
fn basins_are_numbered_by_their_first_cell() {
    let land = [true, true, true, false, true, true];
    let terminal = [2, 5, 2, -1, 5, 5];
    let mut sink_id = vec![-7; 6];
    let members = build_sink_members(&land, &terminal, &mut sink_id);
    assert_eq!(members, vec![vec![0, 2], vec![1, 4, 5]]);
    assert_eq!(sink_id, vec![0, 1, 0, -7, 1, 1]);
}

#[test]
fn cells_draining_to_the_sea_form_no_basin() {
    let land = [true, false, true, true];
    let downhill = [1, -1, 3, -1];
    let terminal = trace_terminals(&land, &downhill);
    assert_eq!(terminal, vec![-1, -1, 3, 3]);
    let mut sink_id = vec![-1; 4];
    let members = build_sink_members(&land, &terminal, &mut sink_id);
    assert_eq!(members, vec![vec![2, 3]]);
    assert_eq!(sink_id, vec![-1, -1, 0, 0]);
    let mut sink_id = vec![-1; 4];
    assert!(build_sink_members(&land, &[1, 1, 1, 1], &mut sink_id).is_empty());
}

#[test]
fn downstream_links_are_read_from_the_table() {
    let r = downstream_from_csr(3, &[0, 2, 2, 3], &[5, 6, 7], 3);
    assert_eq!(r.len(), 3);
    assert_eq!(r[0].to_vec(), vec![(5, 0), (6, 1)]);
    assert_eq!(r[1].to_vec(), Vec::<(u32, usize)>::new());
    assert_eq!(r[2].to_vec(), vec![(7, 2)]);
}

#[test]
fn malformed_downstream_tables_give_no_links() {
    let r = downstream_from_csr(3, &[0, 2, 2, 3], &[5, 6, 7], 2);
    assert!(r.iter().all(|l| l.to_vec().is_empty()));
    let r = downstream_from_csr(3, &[0, 2, 3], &[5, 6, 7], 3);
    assert!(r.iter().all(|l| l.to_vec().is_empty()));
    let r = downstream_from_csr(3, &[0, 2, 9, 9], &[5, 6, 7], 3);
    assert_eq!(r[0].to_vec(), vec![(5, 0), (6, 1)]);
    assert!(r[1].to_vec().is_empty() && r[2].to_vec().is_empty());
}
