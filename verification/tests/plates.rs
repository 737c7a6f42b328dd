use frey::components::{component_counts_by_plate, remove_tiny_boundary_islands, validate_plate_partition};
use frey::boundary_vertices::BoundaryVertices;
use frey::donor::is_simple_donor_cell;
use frey::geology_types::{PlateEmergenceFallbackKind, PlateId, TectonicRegime};
use frey::plates::{
    assigned_plate_count, compact_existing_plate_ids, count_unique_plates, damage_chunk_steps, damage_step_budgets,
    fallback_kind_for_regime,
    min_promoted_region_size, plate_cell_counts_local, proto_plate_count_for_regime, prune_boundary_spurs,
    UNASSIGNED_PLATE,
};

// A path of six cells: 0 - 1 - 2 - 3 - 4 - 5.
fn path_offsets() -> Vec<u32> {
    vec![0, 1, 3, 5, 7, 9, 10]
}

fn path_nbrs() -> Vec<u32> {
    vec![1, 0, 2, 1, 3, 2, 4, 3, 5, 4]
}

fn ids(raw: &[u32]) -> Vec<PlateId> {
    raw.iter().map(|&p| PlateId(p)).collect()
}

#[test]
fn plate_pieces_are_counted_per_plate() {
    let counts = component_counts_by_plate(&path_offsets(), &path_nbrs(), &ids(&[0, 0, 1, 0, 1, 1]), 2);
    assert_eq!(counts, vec![2, 2]);
    let counts = component_counts_by_plate(&path_offsets(), &path_nbrs(), &ids(&[0, 0, 0, 1, 1, 1]), 3);
    assert_eq!(counts, vec![1, 1, 0]);
}

#[test]
fn partition_without_plates_is_refused() {
    let r = validate_plate_partition(&path_offsets(), &path_nbrs(), &ids(&[0, 0, 0, 1, 1, 1]), 0);
    assert_eq!(r, Err("plate_count is zero".to_string()));
}

#[test]
fn partition_with_out_of_range_id_names_the_first_cell() {
    let r = validate_plate_partition(&path_offsets(), &path_nbrs(), &ids(&[0, 0, 5, 1, 7, 1]), 2);
    assert_eq!(r, Err("cell 2 has invalid plate_id 5; plate_count=2".to_string()));
}

#[test]
fn partition_with_an_empty_plate_is_refused() {
    let r = validate_plate_partition(&path_offsets(), &path_nbrs(), &ids(&[0, 0, 0, 0, 0, 0]), 2);
    assert_eq!(r, Err("plate 1 is empty".to_string()));
}

#[test]
fn partition_with_a_split_plate_is_refused() {
    let r = validate_plate_partition(&path_offsets(), &path_nbrs(), &ids(&[0, 0, 1, 0, 1, 1]), 2);
    assert_eq!(r, Err("plate 0 has 2 disconnected components".to_string()));
}

#[test]
fn connected_partition_is_accepted() {
    let r = validate_plate_partition(&path_offsets(), &path_nbrs(), &ids(&[0, 0, 0, 1, 1, 1]), 2);
    assert_eq!(r, Ok(()));
}

#[test]
fn tiny_boundary_islands_are_removed() {
    let mut mask = vec![true, true, false, true, false, true];
    remove_tiny_boundary_islands(&path_offsets(), &path_nbrs(), &mut mask, 2);
    assert_eq!(mask, vec![true, true, false, false, false, false]);
    let mut mask = vec![true, true, false, true, false, true];
    remove_tiny_boundary_islands(&path_offsets(), &path_nbrs(), &mut mask, 1);
    assert_eq!(mask, vec![true, true, false, true, false, true]);
}

#[test]
fn boundary_spurs_are_pruned_round_by_round() {
    let mut mask = vec![true; 6];
    prune_boundary_spurs(&path_offsets(), &path_nbrs(), &mut mask, 1, 2);
    assert_eq!(mask, vec![false, true, true, true, true, false]);
    let mut mask = vec![true; 6];
    prune_boundary_spurs(&path_offsets(), &path_nbrs(), &mut mask, 2, 2);
    assert_eq!(mask, vec![false, false, true, true, false, false]);
    let mut mask = vec![true; 6];
    prune_boundary_spurs(&path_offsets(), &path_nbrs(), &mut mask, 10, 2);
    assert_eq!(mask, vec![false; 6]);
    let mut mask = vec![true; 6];
    prune_boundary_spurs(&path_offsets(), &path_nbrs(), &mut mask, 0, 2);
    assert_eq!(mask, vec![true; 6]);
}

#[test]
fn unique_plates_count_unassigned_as_an_id() {
    assert_eq!(count_unique_plates(&ids(&[3, 3, UNASSIGNED_PLATE, 1])), 3);
    assert_eq!(count_unique_plates(&[]), 0);
}

#[test]
fn compaction_renumbers_in_order_and_sends_unassigned_to_zero() {
    let out = compact_existing_plate_ids(ids(&[7, 3, UNASSIGNED_PLATE, 7, 10]));
    assert_eq!(out, ids(&[1, 0, 0, 1, 2]));
}

#[test]
fn compaction_keeps_which_cells_share_a_plate() {
    let before = ids(&[40, 12, 40, 99, 12, 5]);
    let after = compact_existing_plate_ids(before.clone());
    for i in 0..before.len() {
        for j in 0..before.len() {
            assert_eq!(before[i] == before[j], after[i] == after[j]);
            assert_eq!(before[i].0 < before[j].0, after[i].0 < after[j].0);
        }
    }
    assert!(after.iter().all(|p| p.0 < 4));
}

#[test]
fn assigned_plate_count_is_one_past_the_largest_id() {
    assert_eq!(assigned_plate_count(&ids(&[7, 3, UNASSIGNED_PLATE])), 8);
    assert_eq!(assigned_plate_count(&ids(&[UNASSIGNED_PLATE, UNASSIGNED_PLATE])), 0);
    assert_eq!(assigned_plate_count(&[]), 0);
}

#[test]
fn plate_cell_counts_cover_every_plate_up_to_the_largest() {
    assert_eq!(plate_cell_counts_local(&ids(&[2, 0, 2, UNASSIGNED_PLATE])), vec![1, 0, 2]);
}

#[test]
fn promoted_region_size_is_clamped() {
    assert_eq!(min_promoted_region_size(0), 4);
    assert_eq!(min_promoted_region_size(2400), 10);
    assert_eq!(min_promoted_region_size(2639), 10);
    assert_eq!(min_promoted_region_size(240 * 200), 96);
}

#[test]
fn fallback_depends_on_regime() {
    assert_eq!(fallback_kind_for_regime(TectonicRegime::StagnantLid), PlateEmergenceFallbackKind::StagnantLidProtoPlates);
    assert_eq!(fallback_kind_for_regime(TectonicRegime::MobileLid), PlateEmergenceFallbackKind::NoFallback);
    assert_eq!(fallback_kind_for_regime(TectonicRegime::ShatteredLid), PlateEmergenceFallbackKind::ShatteredLidProtoBlocks);
}

#[test]
fn proto_plate_count_follows_regime_and_mesh_size() {
    assert_eq!(proto_plate_count_for_regime(0, 0, TectonicRegime::StagnantLid, 10), 1);
    assert_eq!(proto_plate_count_for_regime(4, 12, TectonicRegime::MobileLid, 100), 8);
    assert_eq!(proto_plate_count_for_regime(4, 12, TectonicRegime::ShatteredLid, 5), 5);
    assert_eq!(proto_plate_count_for_regime(6, 2, TectonicRegime::ShatteredLid, 100), 6);
    assert_eq!(proto_plate_count_for_regime(4, 12, TectonicRegime::StagnantLid, 0), 1);
}

#[test]
fn plate_id_converts_to_integers() {
    let p = PlateId(42);
    assert_eq!(p.as_u32(), 42);
    assert_eq!(p.as_usize(), 42usize);
    assert_eq!(PlateId::default(), PlateId(0));
}

// Cell 0 touches 1, 2 and 3; cells 1 and 2 also touch each other.
fn star_offsets() -> Vec<u32> {
    vec![0, 3, 5, 7, 8]
}

fn star_nbrs() -> Vec<u32> {
    vec![1, 2, 3, 0, 2, 0, 1, 0]
}

#[test]
fn donor_cell_with_linked_donor_neighbours_is_simple() {
    let labels = vec![None, Some(PlateId(5)), Some(PlateId(5)), Some(PlateId(7))];
    assert!(is_simple_donor_cell(0, PlateId(5), &labels, &star_offsets(), &star_nbrs()));
}

#[test]
fn donor_cell_that_would_split_the_donor_is_not_simple() {
    let labels = vec![None, Some(PlateId(5)), Some(PlateId(5)), Some(PlateId(5))];
    assert!(!is_simple_donor_cell(0, PlateId(5), &labels, &star_offsets(), &star_nbrs()));
}

#[test]
fn donor_cell_with_at_most_one_donor_neighbour_is_simple() {
    let labels = vec![None, Some(PlateId(5)), None, Some(PlateId(7))];
    assert!(is_simple_donor_cell(0, PlateId(5), &labels, &star_offsets(), &star_nbrs()));
    assert!(is_simple_donor_cell(0, PlateId(9), &labels, &star_offsets(), &star_nbrs()));
    assert!(is_simple_donor_cell(9, PlateId(5), &labels, &star_offsets(), &star_nbrs()));
}

#[test]
fn boundary_vertices_remember_insertion_order_once() {
    let mut b = BoundaryVertices::new(5);
    assert_eq!(b.mask, vec![false; 5]);
    b.insert(3);
    b.insert(1);
    b.insert(3);
    assert_eq!(b.indices, vec![3, 1]);
    assert_eq!(b.mask, vec![false, true, false, true, false]);
}

#[test]
fn damage_step_budgets_clamp_the_pre_plate_steps() {
    assert_eq!(damage_step_budgets(0), (1, 2));
    assert_eq!(damage_step_budgets(50), (50, 100));
    assert_eq!(damage_step_budgets(100), (100, 160));
    assert_eq!(damage_step_budgets(500), (160, 160));
}

#[test]
fn damage_chunks_stop_at_the_base_budget_and_the_largest_budget() {
    assert_eq!(damage_chunk_steps(20, 40, 0), 8);
    assert_eq!(damage_chunk_steps(20, 40, 16), 4);
    assert_eq!(damage_chunk_steps(20, 40, 36), 4);
    assert_eq!(damage_chunk_steps(20, 40, 24), 8);
}

#[test]
fn prune_without_rounds_ignores_the_neighbour_table() {
    let mut mask = vec![true, false, true];
    prune_boundary_spurs(&[], &[], &mut mask, 0, 2);
    assert_eq!(mask, vec![true, false, true]);
    let mut empty: Vec<bool> = Vec::new();
    prune_boundary_spurs(&[], &[], &mut empty, 3, 2);
    assert!(empty.is_empty());
}

#[test]
fn partition_errors_before_the_pieces_need_no_neighbour_table() {
    let r = validate_plate_partition(&[], &[], &ids(&[0, 1]), 0);
    assert_eq!(r, Err("plate_count is zero".to_string()));
    let r = validate_plate_partition(&[], &[], &ids(&[0, 4]), 2);
    assert_eq!(r, Err("cell 1 has invalid plate_id 4; plate_count=2".to_string()));
    let r = validate_plate_partition(&[], &[], &ids(&[0, 0]), 2);
    assert_eq!(r, Err("plate 1 is empty".to_string()));
}

#[test]
fn path_with_two_plates_reports_the_split_plate() {
    // Path 0 - 1 - 2 with ids [0, 1, 0].
    let r = validate_plate_partition(&[0, 1, 3, 4], &[1, 0, 2, 1], &ids(&[0, 1, 0]), 2);
    assert_eq!(r, Err("plate 0 has 2 disconnected components".to_string()));
}

#[test]
fn only_the_ranges_that_are_read_must_be_valid() {
    // Cell 2 has no plate below plate_count and is never expanded; its range runs backwards.
    let counts = component_counts_by_plate(&[0, 1, 2, 1], &[1, 0, 9], &ids(&[0, 0, 7]), 1);
    assert_eq!(counts, vec![1]);
    // Cell 1 is not on the boundary, so its range is never read.
    let mut mask = vec![true, false];
    remove_tiny_boundary_islands(&[0, 0, 5], &[], &mut mask, 2);
    assert_eq!(mask, vec![false, false]);
    let mut mask = vec![false, true];
    prune_boundary_spurs(&[9, 0, 0], &[], &mut mask, 1, 0);
    assert_eq!(mask, vec![false, true]);
}
