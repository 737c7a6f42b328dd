use frey::geology_types::PlateId;
use frey::surface_material::{
    boundary_cell_mask, boundary_type_counts, convergent_regime_counts, count_u32, planned_reaction_counts,
    reaction_kind_for_cell, remap_diagnostics, scoped_occupancy, subducting_plate_for_edge, valid_boundary_endpoint,
    validate_remap, BoundaryType, ConvergentRegime, DualCellRemapDiagnostics, SurfaceBoundaryReaction,
    SurfaceBoundaryReactionKind,
};

#[test]
fn counts_saturate_at_u32_max() {
    assert_eq!(count_u32(7), 7);
    assert_eq!(count_u32(u32::MAX as usize), u32::MAX);
    assert_eq!(count_u32(usize::MAX), u32::MAX);
}

#[test]
fn boundary_types_are_tallied() {
    let c = boundary_type_counts(&[
        BoundaryType::Ridge,
        BoundaryType::Subduction,
        BoundaryType::Ridge,
        BoundaryType::PassiveMargin,
        BoundaryType::Transform,
    ]);
    assert_eq!((c.ridge, c.rift, c.subduction, c.collision, c.transform, c.passive), (2, 0, 1, 0, 1, 1));
}

#[test]
fn convergent_regimes_are_tallied() {
    let c = convergent_regime_counts(&[
        ConvergentRegime::NotConvergent,
        ConvergentRegime::Obduction,
        ConvergentRegime::Subduction,
        ConvergentRegime::Subduction,
        ConvergentRegime::ContinentalCollision,
    ]);
    assert_eq!((c.continental_collision, c.incipient_subduction, c.subduction, c.obduction), (1, 0, 2, 1));
}

#[test]
fn planned_reactions_are_tallied() {
    let reactions = [
        SurfaceBoundaryReaction { cell: 0, kind: SurfaceBoundaryReactionKind::Transform },
        SurfaceBoundaryReaction { cell: 1, kind: SurfaceBoundaryReactionKind::Divergent { accreting_plate: PlateId(2) } },
        SurfaceBoundaryReaction { cell: 2, kind: SurfaceBoundaryReactionKind::Transform },
    ];
    let c = planned_reaction_counts(&reactions);
    assert_eq!((c.divergent, c.subduction, c.transform), (1, 0, 2));
}

#[test]
fn boundary_mask_marks_both_edge_ends() {
    let mask = boundary_cell_mask(5, &[[0, 3], [3, 9]]);
    assert_eq!(mask, vec![true, false, false, true, false]);
}

#[test]
fn occupancy_splits_boundary_and_interior() {
    let deposits = vec![vec![], vec![1, 2], vec![3], vec![], vec![4, 5, 6]];
    let o = scoped_occupancy(&deposits, &[true, true, false]);
    assert_eq!((o.boundary_empty, o.interior_empty, o.boundary_overlap, o.interior_overlap), (1, 1, 1, 1));
}

#[test]
fn remap_diagnostics_summarise_counts() {
    let d = remap_diagnostics(vec![0, 1, 3, 2, 0]);
    assert_eq!(d.cell_parcel_counts, vec![0, 1, 3, 2, 0]);
    assert_eq!(d.empty_cell_count, 2);
    assert_eq!(d.overlap_cell_count, 2);
    assert_eq!(d.excess_parcel_count, 3);
    assert_eq!(d.max_parcels_per_cell, 3);
    let d = remap_diagnostics(Vec::new());
    assert_eq!((d.empty_cell_count, d.max_parcels_per_cell), (0, 0));
}

#[test]
fn boundary_endpoint_must_fit_every_array() {
    assert!(valid_boundary_endpoint(3, 4, 5, 6));
    assert!(!valid_boundary_endpoint(4, 4, 5, 6));
    assert!(!valid_boundary_endpoint(3, 4, 3, 6));
    assert!(!valid_boundary_endpoint(3, 9, 9, 3));
}

#[test]
fn the_oceanic_or_denser_plate_subducts() {
    let (a, b) = (PlateId(1), PlateId(2));
    assert_eq!(subducting_plate_for_edge(true, false, false, a, b), Some(a));
    assert_eq!(subducting_plate_for_edge(false, true, true, a, b), Some(b));
    assert_eq!(subducting_plate_for_edge(true, true, true, a, b), Some(a));
    assert_eq!(subducting_plate_for_edge(true, true, false, a, b), Some(b));
    assert_eq!(subducting_plate_for_edge(false, false, true, a, b), None);
}

#[test]
fn reactions_follow_boundary_type_and_deposits() {
    let plates = [PlateId(4), PlateId(5), PlateId(6)];
    let deposits = vec![vec![], vec![0, 1], vec![7]];
    assert_eq!(
        reaction_kind_for_cell(0, BoundaryType::Rift, None, &plates, 2, &deposits),
        Some(SurfaceBoundaryReactionKind::Divergent { accreting_plate: PlateId(4) })
    );
    assert_eq!(
        reaction_kind_for_cell(1, BoundaryType::Subduction, Some(PlateId(9)), &plates, 2, &deposits),
        Some(SurfaceBoundaryReactionKind::Subduction { subducting_plate: PlateId(9) })
    );
    assert_eq!(reaction_kind_for_cell(1, BoundaryType::Subduction, Some(PlateId(9)), &plates, 1, &deposits), None);
    assert_eq!(reaction_kind_for_cell(1, BoundaryType::Subduction, None, &plates, 2, &deposits), None);
    assert_eq!(
        reaction_kind_for_cell(0, BoundaryType::Transform, None, &plates, 2, &deposits),
        Some(SurfaceBoundaryReactionKind::Transform)
    );
    assert_eq!(reaction_kind_for_cell(2, BoundaryType::Transform, None, &plates, 2, &deposits), None);
    assert_eq!(reaction_kind_for_cell(1, BoundaryType::Ridge, None, &plates, 2, &deposits), None);
    assert_eq!(reaction_kind_for_cell(0, BoundaryType::Collision, None, &plates, 2, &deposits), None);
    assert_eq!(reaction_kind_for_cell(3, BoundaryType::Rift, None, &plates, 2, &deposits), None);
}

#[test]
fn remap_validation_reports_both_counts() {
    let ok = DualCellRemapDiagnostics {
        source_cell_count: 10,
        deposited_source_cell_count: 10,
        unassigned_source_cell_count: 0,
        invalid_source_cell_count: 0,
        tested_candidate_count: 40,
    };
    assert_eq!(validate_remap(&ok), Ok(()));
    let bad = DualCellRemapDiagnostics { unassigned_source_cell_count: 3, invalid_source_cell_count: 0, ..ok };
    assert_eq!(validate_remap(&bad), Err("dual-cell remap failed: unassigned=3, invalid=0".to_string()));
    let bad = DualCellRemapDiagnostics { unassigned_source_cell_count: 0, invalid_source_cell_count: 12, ..ok };
    assert_eq!(validate_remap(&bad), Err("dual-cell remap failed: unassigned=0, invalid=12".to_string()));
}
