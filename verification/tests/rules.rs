use frey::automaton::{
    after_partial_rebuild, automaton_budget_cells, erosion_state_matches_world, force_full_sink_rebuild, full_rebuild_stats, plan_sink_rebuild,
    rain_inject_count, reset_sink_buffers, sink_buffers_ready, skipped_rebuild_stats, ErosionSinkBuffers,
    ErosionSinkLens, SinkRebuildStats, SinkRebuildStep, FULL_REBUILD_INTERVAL_TICKS,
};
use frey::era::{era_transition_step, geology_river_budget, ticks_in_era, EraKind, EraSignals};

fn quiet() -> EraSignals {
    EraSignals {
        crust_settled: false,
        environment_ready: false,
        life_ready: false,
        settled_cells: 0,
        population_large: false,
        state_cells: 0,
    }
}

#[test]
fn river_budget_scales_with_era() {
    assert_eq!(geology_river_budget(EraKind::Crust, 3), 3);
    assert_eq!(geology_river_budget(EraKind::Environment, 3), 12);
    assert_eq!(geology_river_budget(EraKind::Life, 3), 9);
    assert_eq!(geology_river_budget(EraKind::Civilization, 3), 6);
    assert_eq!(geology_river_budget(EraKind::History, 3), 3);
    assert_eq!(geology_river_budget(EraKind::History, 0), 1);
    assert_eq!(geology_river_budget(EraKind::Environment, u32::MAX), u32::MAX);
}

#[test]
fn ticks_in_era_never_goes_negative() {
    assert_eq!(ticks_in_era(10, 4), 6);
    assert_eq!(ticks_in_era(4, 10), 0);
}

#[test]
fn eras_wait_for_their_minimum_length() {
    let mut s = quiet();
    s.crust_settled = true;
    assert_eq!(era_transition_step(EraKind::Crust, 7, 5, s), (5, None));
    assert_eq!(era_transition_step(EraKind::Crust, 8, 5, s), (6, Some(EraKind::Environment)));
    assert_eq!(era_transition_step(EraKind::Crust, 8, 4, s), (5, None));
}

#[test]
fn an_unfavourable_tick_resets_the_counter() {
    assert_eq!(era_transition_step(EraKind::Environment, 30, 7, quiet()), (0, None));
}

#[test]
fn each_era_advances_to_the_next() {
    let mut s = quiet();
    s.environment_ready = true;
    assert_eq!(era_transition_step(EraKind::Environment, 24, 7, s), (8, Some(EraKind::Life)));
    let mut s = quiet();
    s.life_ready = true;
    assert_eq!(era_transition_step(EraKind::Life, 24, 9, s), (10, Some(EraKind::Civilization)));
    let mut s = quiet();
    s.settled_cells = 3;
    s.state_cells = 1;
    assert_eq!(era_transition_step(EraKind::Civilization, 32, 11, s), (12, Some(EraKind::History)));
    let mut s = quiet();
    s.settled_cells = 3;
    assert_eq!(era_transition_step(EraKind::Civilization, 32, 11, s), (0, None));
}

#[test]
fn history_never_ends() {
    let mut s = quiet();
    s.settled_cells = 1;
    s.population_large = true;
    s.state_cells = 1;
    assert_eq!(era_transition_step(EraKind::History, 1000, 99, s), (99, None));
}

#[test]
fn stable_counter_saturates() {
    let mut s = quiet();
    s.crust_settled = true;
    assert_eq!(era_transition_step(EraKind::Crust, 100, u32::MAX, s), (u32::MAX, Some(EraKind::Environment)));
}

fn buffers(v: usize, k: usize) -> ErosionSinkBuffers {
    ErosionSinkBuffers {
        sink_id: vec![0; v],
        sink_route_next: vec![0; v],
        sink_dirty: vec![1; v],
        sink_spill_cell: vec![0; k],
        sink_spill_to: vec![0; k],
        sink_overflow_active: vec![0; k],
    }
}

#[test]
fn sink_buffers_must_agree_in_length() {
    let lens = ErosionSinkLens { spill_level: 2, capacity_total: 2, capacity_remaining: 2, storage_sediment: 2 };
    assert!(sink_buffers_ready(&buffers(4, 2), &lens, 4));
    assert!(!sink_buffers_ready(&buffers(4, 2), &lens, 5));
    assert!(!sink_buffers_ready(&buffers(4, 3), &lens, 4));
}

#[test]
fn reset_clears_every_cell() {
    let mut b = buffers(2, 1);
    reset_sink_buffers(&mut b, 3);
    assert_eq!(b.sink_id, vec![-1; 3]);
    assert_eq!(b.sink_route_next, vec![-1; 3]);
    assert_eq!(b.sink_dirty, vec![0; 3]);
    assert_eq!(b.sink_spill_cell, vec![0]);
}

#[test]
fn full_rebuilds_are_forced_when_needed() {
    assert!(force_full_sink_rebuild(1, true, 0, 100, 0));
    assert!(force_full_sink_rebuild(5, false, 0, 100, 4));
    assert!(force_full_sink_rebuild(5, true, 2, 100, 4));
    assert!(!force_full_sink_rebuild(5, true, 1, 100, 4));
    assert!(force_full_sink_rebuild(4 + FULL_REBUILD_INTERVAL_TICKS, true, 1, 100, 4));
    assert!(!force_full_sink_rebuild(3, true, 0, 0, 10));
}

#[test]
fn rebuild_plan_and_statistics() {
    assert_eq!(plan_sink_rebuild(true, 0), SinkRebuildStep::Full);
    assert_eq!(plan_sink_rebuild(false, 0), SinkRebuildStep::Skip);
    assert_eq!(plan_sink_rebuild(false, 3), SinkRebuildStep::Partial);
    assert_eq!(full_rebuild_stats(), SinkRebuildStats { full_count: 1, partial_count: 0, skipped_count: 0, fallback_full_count: 0 });
    assert_eq!(skipped_rebuild_stats(), SinkRebuildStats { full_count: 0, partial_count: 0, skipped_count: 1, fallback_full_count: 0 });
    assert_eq!(after_partial_rebuild(0, 0), (skipped_rebuild_stats(), false));
    assert_eq!(
        after_partial_rebuild(10, 3),
        (SinkRebuildStats { full_count: 1, partial_count: 1, skipped_count: 0, fallback_full_count: 1 }, true)
    );
    assert_eq!(
        after_partial_rebuild(10, 2),
        (SinkRebuildStats { full_count: 0, partial_count: 1, skipped_count: 0, fallback_full_count: 0 }, false)
    );
}

#[test]
fn rain_and_step_budgets() {
    assert_eq!(rain_inject_count(10, 1000), 16);
    assert_eq!(rain_inject_count(200, 1000), 100);
    assert_eq!(rain_inject_count(10_000, 1000), 256);
    assert_eq!(rain_inject_count(200, 40), 40);
    assert_eq!(automaton_budget_cells(0, 5), 32);
    assert_eq!(automaton_budget_cells(1200, 1), 100);
    assert_eq!(automaton_budget_cells(u32::MAX, 2), u32::MAX / 12);
}

#[test]
fn erosion_state_must_match_the_world_in_every_length() {
    assert!(erosion_state_matches_world(10, 10, 10, 10, 10, 10));
    assert!(!erosion_state_matches_world(10, 9, 10, 10, 10, 10));
    assert!(!erosion_state_matches_world(10, 10, 10, 10, 10, 11));
}
