use frey::geology_types::{CrustType, PlateEmergenceFallbackKind, SubductionPolarity, TectonicRegime};
use frey::mesh::{cell_neighbors, cell_neighbors_or_empty, cells_are_neighbors};
use frey::polity::{
    active_polity_ids, assign_polity_cells, keep_polity_relation, polity_relation_pairs, GroupKind, PolityGroup,
};
use frey::era::EraKind;
use frey::snapshot::{
    alpha_stage_boundaries, canonical_cache_dir, mirror_dir, parse_stage, stage_filename, stage_view_filename, AlphaSnapshotStage,
    SNAPSHOT_FORMAT_VERSION,
};

const STAGES: [AlphaSnapshotStage; 4] = [
    AlphaSnapshotStage::Environment,
    AlphaSnapshotStage::Life,
    AlphaSnapshotStage::Civilization,
    AlphaSnapshotStage::History,
];

#[test]
fn stages_have_names_ticks_and_files() {
    assert_eq!(AlphaSnapshotStage::Environment.as_str(), "environment");
    assert_eq!(AlphaSnapshotStage::History.as_str(), "history");
    assert_eq!(AlphaSnapshotStage::Environment.target_tick(), 800);
    assert_eq!(AlphaSnapshotStage::Life.target_tick(), 1300);
    assert_eq!(AlphaSnapshotStage::Civilization.target_tick(), 1395);
    assert_eq!(AlphaSnapshotStage::History.target_tick(), 1445);
    assert_eq!(stage_filename(AlphaSnapshotStage::Life), "life.bin");
    assert_eq!(stage_view_filename(AlphaSnapshotStage::Civilization), "civilization.json");
    assert_eq!(canonical_cache_dir(), ".cache/frey/alpha-snapshots");
    assert_eq!(mirror_dir(), "web/public/.dev-precomputed/alpha");
    assert_eq!(SNAPSHOT_FORMAT_VERSION, 1);
}

#[test]
fn stage_names_parse_back_to_their_stage() {
    for stage in STAGES {
        assert_eq!(parse_stage(stage.as_str()), Ok(stage));
        assert_eq!(stage.as_str().parse::<AlphaSnapshotStage>(), Ok(stage));
    }
}

#[test]
fn unknown_stage_names_are_refused() {
    assert_eq!(parse_stage("Life"), Err("unsupported snapshot stage: Life".to_string()));
    assert_eq!(parse_stage(""), Err("unsupported snapshot stage: ".to_string()));
}

#[test]
fn settled_cells_found_their_own_polities() {
    let cells = assign_polity_cells(&[true, false, true, true]);
    assert_eq!(cells.polity_id, vec![Some(1), None, Some(3), Some(4)]);
    assert_eq!(cells.territory_status, vec![1, 0, 1, 1]);
    assert_eq!(cells.language_group, vec![1, 0, 3, 4]);
    let many = assign_polity_cells(&[true; 10]);
    assert_eq!(many.language_group[8], 1);
    assert_eq!(many.language_group[9], 2);
}

#[test]
fn polity_relations_pair_every_two_active_polities() {
    let ids = active_polity_ids(&[false, true, false, true, true]);
    assert_eq!(ids, vec![2, 4, 5]);
    let pairs = polity_relation_pairs(&ids);
    assert_eq!(pairs, vec![(2, 4), (2, 5), (4, 2), (4, 5), (5, 2), (5, 4)]);
    assert!(keep_polity_relation(2, 5, &ids));
    assert!(!keep_polity_relation(2, 2, &ids));
    assert!(!keep_polity_relation(2, 3, &ids));
}

#[test]
fn defaults_of_the_plain_types() {
    assert_eq!(GroupKind::default(), GroupKind::CulturalSphere);
    let g = PolityGroup::default();
    assert_eq!((g.id, g.kind, g.members.len(), g.leader), (0, GroupKind::CulturalSphere, 0, None));
    assert_eq!(CrustType::default(), CrustType::Continental);
    assert_eq!(TectonicRegime::default(), TectonicRegime::MobileLid);
    assert_eq!(PlateEmergenceFallbackKind::default(), PlateEmergenceFallbackKind::NoFallback);
    assert_eq!(SubductionPolarity::default(), SubductionPolarity::NoSubduction);
}

#[test]
fn neighbour_lists_are_read_from_the_offsets() {
    let offsets = vec![0, 2, 3, 3];
    let nbrs = vec![1, 2, 0];
    assert_eq!(cell_neighbors(0, &offsets, &nbrs), Some(&[1u32, 2][..]));
    assert_eq!(cell_neighbors(2, &offsets, &nbrs), Some(&[][..]));
    assert_eq!(cell_neighbors(3, &offsets, &nbrs), None);
    assert_eq!(cell_neighbors_or_empty(3, &offsets, &nbrs), &[] as &[u32]);
    assert!(cells_are_neighbors(0, 2, &offsets, &nbrs));
    assert!(!cells_are_neighbors(1, 2, &offsets, &nbrs));
    assert!(!cells_are_neighbors(5, 0, &offsets, &nbrs));
    let broken = vec![0, 5];
    assert_eq!(cell_neighbors(0, &broken, &nbrs), None);
}

#[test]
fn stage_boundaries_list_name_tick_and_era_in_order() {
    assert_eq!(
        alpha_stage_boundaries(),
        vec![
            ("environment", 800, EraKind::Environment),
            ("life", 1300, EraKind::Life),
            ("civilization", 1395, EraKind::Civilization),
            ("history", 1445, EraKind::History),
        ]
    );
}
