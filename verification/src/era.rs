//! Eras of a world's history and the rules for moving from one to the next.
use vstd::prelude::*;

verus! {

/// The eras a world passes through, in order.
#[derive(Debug, Clone, Copy, PartialEq, Eq, Structural)]
pub enum EraKind {
    Crust,
    Environment,
    Life,
    Civilization,
    History,
}

/// Position of an era in the sequence of eras.
pub open spec fn era_index(era: EraKind) -> int {
    match era {
        EraKind::Crust => 0,
        EraKind::Environment => 1,
        EraKind::Life => 2,
        EraKind::Civilization => 3,
        EraKind::History => 4,
    }
}

/// How many river-routing passes one unit of geology budget buys in an era.
pub open spec fn river_budget_scale(era: EraKind) -> int {
    match era {
        EraKind::Crust => 1,
        EraKind::Environment => 4,
        EraKind::Life => 3,
        EraKind::Civilization => 2,
        EraKind::History => 1,
    }
}

/// River budget of a step: the geology budget times the era's scale
/// (saturating at `u32::MAX`), and at least 1.
pub fn geology_river_budget(era: EraKind, geology_budget: u32) -> (r: u32)
    ensures
        ({
            let prod = geology_budget * river_budget_scale(era);
            let sat = if prod > u32::MAX { u32::MAX as int } else { prod };
            r == if sat < 1 { 1 } else { sat }
        }),
{
    let scale: u64 = match era {
        EraKind::Crust => 1,
        EraKind::Environment => 4,
        EraKind::Life => 3,
        EraKind::Civilization => 2,
        EraKind::History => 1,
    };
    let wide = (geology_budget as u64) * scale;
    let sat: u32 = if wide > u32::MAX as u64 { u32::MAX } else { wide as u32 };
    if sat < 1 {
        1
    } else {
        sat
    }
}

/// Ticks spent in the current era (0 if the entry tick lies in the future).
pub fn ticks_in_era(tick: u64, era_enter_tick: u64) -> (r: u64)
    ensures
        r == if tick >= era_enter_tick { tick - era_enter_tick } else { 0 },
{
    if tick >= era_enter_tick {
        tick - era_enter_tick
    } else {
        0
    }
}

/// What the world looked like at the end of a step, as far as the era
/// rules need it.
#[derive(Debug, Clone, Copy, PartialEq, Eq, Structural)]
pub struct EraSignals {
    /// Crust era: land area stable and geology quiet.
    pub crust_settled: bool,
    /// Environment era: enough rivers and an active climate.
    pub environment_ready: bool,
    /// Life era: enough habitable land.
    pub life_ready: bool,
    /// Civilization era: number of cells with a settled population.
    pub settled_cells: usize,
    /// Civilization era: the total population exceeds 50.
    pub population_large: bool,
    /// Civilization era: number of cells that belong to a state.
    pub state_cells: usize,
}

/// Minimum number of ticks in an era before it may end.
pub open spec fn min_ticks_in_era(era: EraKind) -> int {
    match era {
        EraKind::Crust => 8,
        EraKind::Environment => 24,
        EraKind::Life => 24,
        EraKind::Civilization => 32,
        EraKind::History => 0,
    }
}

/// Consecutive favourable ticks needed to end an era.
pub open spec fn stable_ticks_needed(era: EraKind) -> int {
    match era {
        EraKind::Crust => 6,
        EraKind::Environment => 8,
        EraKind::Life => 10,
        EraKind::Civilization => 12,
        EraKind::History => 0,
    }
}

/// The era that follows.
pub open spec fn next_era_spec(era: EraKind) -> EraKind {
    match era {
        EraKind::Crust => EraKind::Environment,
        EraKind::Environment => EraKind::Life,
        EraKind::Life => EraKind::Civilization,
        EraKind::Civilization => EraKind::History,
        EraKind::History => EraKind::History,
    }
}

/// Whether this tick counts towards leaving the era.
pub open spec fn favourable(era: EraKind, s: EraSignals) -> bool {
    match era {
        EraKind::Crust => s.crust_settled,
        EraKind::Environment => s.environment_ready,
        EraKind::Life => s.life_ready,
        EraKind::Civilization => (if s.settled_cells > 0 { 1int } else { 0 }) + (if s.population_large {
            1int
        } else {
            0
        }) + (if s.state_cells > 0 { 1int } else { 0 }) >= 2,
        EraKind::History => false,
    }
}

/// The era decision of one step. History never ends. Before an era's
/// minimum length nothing changes. Afterwards a favourable tick adds one to
/// the stable-tick counter (saturating) and an unfavourable one resets it;
/// once the counter reaches the era's threshold the next era begins.
/// Returns the new counter and the era to enter, if any.
pub fn era_transition_step(era: EraKind, ticks_in_era: u64, stable_ticks: u32, signals: EraSignals) -> (r: (u32, Option<EraKind>))
    ensures
        era == EraKind::History || ticks_in_era < min_ticks_in_era(era) ==> r == (stable_ticks, None::<EraKind>),
        era != EraKind::History && ticks_in_era >= min_ticks_in_era(era) ==> {
            let counter: int = if favourable(era, signals) {
                if stable_ticks == u32::MAX { u32::MAX as int } else { stable_ticks + 1 }
            } else {
                0
            };
            &&& r.0 == counter
            &&& r.1 == if counter >= stable_ticks_needed(era) { Some(next_era_spec(era)) } else { None }
        },
        r.1 matches Some(e) ==> era_index(e) == era_index(era) + 1,
        // In the civilization era a tick counts when at least two of the three
        // signals hold: settled cells, a large population, cells in a state.
        era == EraKind::Civilization && ticks_in_era >= 32 ==> {
            let two_of_three = (signals.settled_cells > 0 && signals.population_large) || (signals.settled_cells > 0
                && signals.state_cells > 0) || (signals.population_large && signals.state_cells > 0);
            &&& two_of_three ==> r.0 as int == (if stable_ticks == u32::MAX { stable_ticks as int } else { stable_ticks + 1 })
            &&& !two_of_three ==> r.0 == 0
            &&& r.1 == (if r.0 >= 12 { Some(EraKind::History) } else { None::<EraKind> })
        },
        era == EraKind::Crust && ticks_in_era >= 8 ==> {
            &&& signals.crust_settled ==> r.0 as int == (if stable_ticks == u32::MAX { stable_ticks as int } else { stable_ticks + 1 })
            &&& !signals.crust_settled ==> r.0 == 0
            &&& r.1 == (if r.0 >= 6 { Some(EraKind::Environment) } else { None::<EraKind> })
        },
        era == EraKind::Environment && ticks_in_era >= 24 ==> {
            &&& signals.environment_ready ==> r.0 as int == (if stable_ticks == u32::MAX { stable_ticks as int } else { stable_ticks + 1 })
            &&& !signals.environment_ready ==> r.0 == 0
            &&& r.1 == (if r.0 >= 8 { Some(EraKind::Life) } else { None::<EraKind> })
        },
        era == EraKind::Life && ticks_in_era >= 24 ==> {
            &&& signals.life_ready ==> r.0 as int == (if stable_ticks == u32::MAX { stable_ticks as int } else { stable_ticks + 1 })
            &&& !signals.life_ready ==> r.0 == 0
            &&& r.1 == (if r.0 >= 10 { Some(EraKind::Civilization) } else { None::<EraKind> })
        },
{
    let (min_ticks, needed, next): (u64, u32, EraKind) = match era {
        EraKind::Crust => (8, 6, EraKind::Environment),
        EraKind::Environment => (24, 8, EraKind::Life),
        EraKind::Life => (24, 10, EraKind::Civilization),
        EraKind::Civilization => (32, 12, EraKind::History),
        EraKind::History => {
            return (stable_ticks, None);
        },
    };
    if ticks_in_era < min_ticks {
        return (stable_ticks, None);
    }
    let good = match era {
        EraKind::Crust => signals.crust_settled,
        EraKind::Environment => signals.environment_ready,
        EraKind::Life => signals.life_ready,
        _ => {
            let count: u32 = (if signals.settled_cells > 0 { 1 } else { 0 }) + (if signals.population_large {
                1
            } else {
                0
            }) + (if signals.state_cells > 0 { 1 } else { 0 });
            count >= 2
        },
    };
    let counter: u32 = if good {
        if stable_ticks == u32::MAX {
            u32::MAX
        } else {
            stable_ticks + 1
        }
    } else {
        0
    };
    if counter >= needed {
        (counter, Some(next))
    } else {
        (counter, None)
    }
}

/// In the civilization era a tick is favourable exactly when at least two
/// of the three signals hold: some settled cells, a population over 50,
/// some cells in a state.
pub proof fn lemma_civilization_needs_two_signals(s: EraSignals)
    ensures
        favourable(EraKind::Civilization, s) <==> ((s.settled_cells > 0 && s.population_large) || (s.settled_cells > 0
            && s.state_cells > 0) || (s.population_large && s.state_cells > 0)),
{
}

} // verus!
