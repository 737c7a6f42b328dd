//! Plate partitions of the mesh: id bookkeeping, per-plate counts and the
//! cleanup of boundary masks.
use vstd::prelude::*;
use crate::geology_types::{PlateEmergenceFallbackKind, PlateId, TectonicRegime};
use crate::mesh::readable_range;

verus! {

/// The plate id that marks a cell as not (yet) assigned to any plate.
pub const UNASSIGNED_PLATE: u32 = 0xFFFF_FFFF;

/// The raw ids of a partition.
pub open spec fn raw_ids(s: Seq<PlateId>) -> Seq<u32> {
    s.map_values(|p: PlateId| p.0)
}

/// The distinct ids that are actually assigned to cells.
pub open spec fn assigned_id_set(s: Seq<PlateId>) -> Set<u32> {
    raw_ids(s).to_set().filter(|x: u32| x != UNASSIGNED_PLATE)
}

/// Number of assigned ids below `x`: the position of `x` among the sorted
/// distinct assigned ids.
pub open spec fn id_rank(s: Seq<PlateId>, x: u32) -> nat {
    assigned_id_set(s).filter(|d: u32| d < x).len()
}

/// Number of cells among the first `n` whose id is `p`.
pub open spec fn count_id(s: Seq<PlateId>, p: int, n: int) -> nat
    decreases n,
{
    if n <= 0 {
        0
    } else {
        count_id(s, p, n - 1) + if s[n - 1].0 as int == p { 1nat } else { 0nat }
    }
}

/// The largest assigned id among the first `n` cells, or -1 when there is none.
pub open spec fn max_assigned(s: Seq<PlateId>, n: int) -> int
    decreases n,
{
    if n <= 0 {
        -1
    } else {
        let prev = max_assigned(s, n - 1);
        let x = s[n - 1].0;
        if x != UNASSIGNED_PLATE && x > prev {
            x as int
        } else {
            prev
        }
    }
}

proof fn lemma_max_assigned_bounds(s: Seq<PlateId>, n: int)
    ensures
        -1 <= max_assigned(s, n) < UNASSIGNED_PLATE,
    decreases n,
{
    if n > 0 {
        lemma_max_assigned_bounds(s, n - 1);
    }
}

proof fn lemma_no_dup_filter<A>(s: Seq<A>, pred: spec_fn(A) -> bool)
    requires
        s.no_duplicates(),
    ensures
        s.filter(pred).no_duplicates(),
        s.filter(pred).to_set() == s.to_set().filter(pred),
        s.filter(pred).len() == s.to_set().filter(pred).len(),
    decreases s.len(),
{
    reveal(Seq::filter);
    if s.len() > 0 {
        let t = s.drop_last();
        assert(t.no_duplicates());
        lemma_no_dup_filter(t, pred);
        assert(s == t.push(s.last()));
        assert(!t.contains(s.last()));
        assert(s.filter(pred) == if pred(s.last()) { t.filter(pred).push(s.last()) } else { t.filter(pred) });
        if pred(s.last()) {
            assert(!t.filter(pred).contains(s.last())) by {
                if t.filter(pred).contains(s.last()) {
                    t.lemma_filter_contains_rev(pred, s.last());
                }
            }
        }
        assert(s.filter(pred).to_set() =~= s.to_set().filter(pred)) by {
            assert forall|x: A| s.filter(pred).to_set().contains(x) <==> s.to_set().filter(pred).contains(x) by {
                if s.filter(pred).to_set().contains(x) {
                    s.lemma_filter_contains_rev(pred, x);
                }
                if s.to_set().filter(pred).contains(x) {
                    let i = choose|i: int| 0 <= i < s.len() && s[i] == x;
                    s.lemma_filter_contains(pred, i);
                }
            }
        }
    }
    s.filter(pred).unique_seq_to_set();
}

/// The distinct raw ids of `plate_id` in order of first occurrence,
/// optionally leaving out unassigned cells.
fn distinct_ids(plate_id: &[PlateId], skip_unassigned: bool) -> (r: Vec<u32>)
    ensures
        r@.no_duplicates(),
        skip_unassigned ==> r@.to_set() == assigned_id_set(plate_id@),
        !skip_unassigned ==> r@.to_set() == raw_ids(plate_id@).to_set(),
{
    let mut ids: Vec<u32> = Vec::new();
    let mut i: usize = 0;
    while i < plate_id.len()
        invariant
            0 <= i <= plate_id@.len(),
            ids@.no_duplicates(),
            forall|x: u32| ids@.contains(x) <==> (exists|j: int| 0 <= j < i && #[trigger] plate_id@[j].0 == x
                && (skip_unassigned ==> x != UNASSIGNED_PLATE)),
        decreases plate_id@.len() - i,
    {
        let x = plate_id[i].0;
        let ghost ids_before = ids@;
        if !(skip_unassigned && x == UNASSIGNED_PLATE) {
            let mut found = false;
            let mut k: usize = 0;
            while k < ids.len()
                invariant
                    0 <= k <= ids@.len(),
                    found == exists|t: int| 0 <= t < k && ids@[t] == x,
                decreases ids@.len() - k,
            {
                if ids[k] == x {
                    found = true;
                }
                k += 1;
            }
            if found {
                assert(ids@.contains(x));
            }
            if !found {
                let ghost prev = ids@;
                ids.push(x);
                proof {
                    assert forall|y: u32| ids@.contains(y) implies prev.contains(y) || y == x by {
                        let t = choose|t: int| 0 <= t < ids@.len() && ids@[t] == y;
                        if t < prev.len() {
                            assert(prev[t] == y);
                        }
                    }
                    assert forall|y: u32| prev.contains(y) implies ids@.contains(y) by {
                        let t = choose|t: int| 0 <= t < prev.len() && prev[t] == y;
                        assert(ids@[t] == y);
                    }
                    assert(ids@[ids@.len() - 1] == x);
                }
            }
        }
        proof {
            assert forall|y: u32| ids@.contains(y) <==> (exists|j: int| 0 <= j < i + 1 && #[trigger] plate_id@[j].0 == y
                && (skip_unassigned ==> y != UNASSIGNED_PLATE)) by {
                if exists|j: int| 0 <= j < i + 1 && #[trigger] plate_id@[j].0 == y && (skip_unassigned ==> y != UNASSIGNED_PLATE) {
                    let j = choose|j: int| 0 <= j < i + 1 && #[trigger] plate_id@[j].0 == y && (skip_unassigned ==> y != UNASSIGNED_PLATE);
                    if j < i {
                        assert(ids_before.contains(y));
                    } else {
                        assert(y == x);
                    }
                }
                if ids@.contains(y) && y != x {
                    assert(ids_before.contains(y));
                }
                if ids@.contains(y) && y == x {
                    assert(plate_id@[i as int].0 == y);
                }
            }
        }
        i += 1;
    }
    proof {
        let raw = raw_ids(plate_id@);
        if skip_unassigned {
            assert(ids@.to_set() =~= assigned_id_set(plate_id@)) by {
                assert forall|y: u32| ids@.to_set().contains(y) <==> assigned_id_set(plate_id@).contains(y) by {
                    if assigned_id_set(plate_id@).contains(y) {
                        let j = choose|j: int| 0 <= j < raw.len() && raw[j] == y;
                        assert(plate_id@[j].0 == y);
                    }
                    if ids@.contains(y) {
                        let j = choose|j: int| 0 <= j < plate_id@.len() && #[trigger] plate_id@[j].0 == y && (skip_unassigned ==> y != UNASSIGNED_PLATE);
                        assert(raw[j] == y);
                    }
                }
            }
        } else {
            assert(ids@.to_set() =~= raw.to_set()) by {
                assert forall|y: u32| ids@.to_set().contains(y) <==> raw.to_set().contains(y) by {
                    if raw.to_set().contains(y) {
                        let j = choose|j: int| 0 <= j < raw.len() && raw[j] == y;
                        assert(plate_id@[j].0 == y);
                    }
                    if ids@.contains(y) {
                        let j = choose|j: int| 0 <= j < plate_id@.len() && #[trigger] plate_id@[j].0 == y && (skip_unassigned ==> y != UNASSIGNED_PLATE);
                        assert(raw[j] == y);
                    }
                }
            }
        }
    }
    ids
}

/// Number of distinct ids in the partition (unassigned counts as an id).
pub fn count_unique_plates(plate_id: &[PlateId]) -> (r: usize)
    ensures
        r == raw_ids(plate_id@).to_set().len(),
{
    let ids = distinct_ids(plate_id, false);
    proof {
        ids@.unique_seq_to_set();
    }
    ids.len()
}

/// Renumbers the assigned ids to `0..k` keeping their order; unassigned
/// cells get id 0.
pub fn compact_existing_plate_ids(plate_id: Vec<PlateId>) -> (r: Vec<PlateId>)
    ensures
        r@.len() == plate_id@.len(),
        forall|i: int|
            0 <= i < plate_id@.len() ==> #[trigger] r@[i] == PlateId(
                if plate_id@[i].0 == UNASSIGNED_PLATE {
                    0
                } else {
                    id_rank(plate_id@, plate_id@[i].0) as u32
                },
            ),
{
    let ids = distinct_ids(&plate_id, true);
    let ghost orig = plate_id@;
    let mut out = plate_id;
    let mut i: usize = 0;
    while i < out.len()
        invariant
            0 <= i <= out@.len(),
            out@.len() == orig.len(),
            ids@.no_duplicates(),
            ids@.to_set() == assigned_id_set(orig),
            forall|j: int| i <= j < out@.len() ==> #[trigger] out@[j] == orig[j],
            forall|j: int|
                0 <= j < i ==> #[trigger] out@[j] == PlateId(
                    if orig[j].0 == UNASSIGNED_PLATE {
                        0
                    } else {
                        id_rank(orig, orig[j].0) as u32
                    },
                ),
        decreases out@.len() - i,
    {
        let old = out[i].0;
        let mut rank: usize = 0;
        let mut k: usize = 0;
        while k < ids.len()
            invariant
                0 <= k <= ids@.len(),
                rank == ids@.take(k as int).filter(|d: u32| d < old).len(),
                rank <= k,
            decreases ids@.len() - k,
        {
            proof {
                ids@.take(k as int).lemma_filter_len_push(|d: u32| d < old, ids@[k as int]);
                assert(ids@.take(k + 1) == ids@.take(k as int).push(ids@[k as int]));
            }
            if ids[k] < old {
                rank += 1;
            }
            k += 1;
        }
        proof {
            assert(ids@.take(ids@.len() as int) == ids@);
            lemma_no_dup_filter(ids@, |d: u32| d < old);
            assert(id_rank(orig, old) == rank);
            assert(rank <= ids@.len());
            ids@.unique_seq_to_set();
        }
        let new_id: u32 = if old == UNASSIGNED_PLATE {
            0
        } else {
            proof {
                lemma_rank_bound(orig, old);
            }
            rank as u32
        };
        out.set(i, PlateId(new_id));
        i += 1;
    }
    out
}

/// Compaction keeps the plate structure of the assigned cells: two of them
/// share a new id exactly when they shared an old one, smaller old ids get
/// smaller new ids, and the new ids lie in `0..k` for `k` distinct
/// assigned ids.
pub proof fn lemma_compaction_keeps_plates(s: Seq<PlateId>, x: u32, y: u32)
    requires
        assigned_id_set(s).contains(x),
        assigned_id_set(s).contains(y),
    ensures
        x < y ==> id_rank(s, x) < id_rank(s, y),
        id_rank(s, x) == id_rank(s, y) <==> x == y,
        id_rank(s, x) < assigned_id_set(s).len(),
{
    let a = assigned_id_set(s);
    raw_ids(s).to_set().lemma_len_filter(|v: u32| v != UNASSIGNED_PLATE);
    raw_ids(s).lemma_cardinality_of_set();
    assert(a.finite());
    let fx = a.filter(|d: u32| d < x);
    let fy = a.filter(|d: u32| d < y);
    assert(fx.subset_of(a.remove(x)));
    vstd::set_lib::lemma_len_subset(fx, a.remove(x));
    if x < y {
        assert(fx.subset_of(fy.remove(x)));
        assert(fy.contains(x));
        vstd::set_lib::lemma_len_subset(fx, fy.remove(x));
    }
    if y < x {
        assert(fy.subset_of(fx.remove(y)));
        assert(fx.contains(y));
        vstd::set_lib::lemma_len_subset(fy, fx.remove(y));
    }
}

proof fn lemma_rank_bound(s: Seq<PlateId>, x: u32)
    ensures
        id_rank(s, x) <= x,
{
    let below = Set::new(|d: u32| d < x);
    let f = assigned_id_set(s).filter(|d: u32| d < x);
    assert(f.subset_of(below));
    lemma_below_len(x);
    raw_ids(s).to_set().lemma_len_filter(|y: u32| y != UNASSIGNED_PLATE);
    raw_ids(s).lemma_cardinality_of_set();
    vstd::set_lib::lemma_len_subset(f, below);
}

proof fn lemma_below_len(x: u32)
    ensures
        Set::new(|d: u32| d < x).finite(),
        Set::new(|d: u32| d < x).len() == x,
    decreases x,
{
    if x == 0 {
        assert(Set::new(|d: u32| d < x) =~= Set::<u32>::empty());
    } else {
        let y = (x - 1) as u32;
        lemma_below_len(y);
        assert(Set::new(|d: u32| d < x) =~= Set::new(|d: u32| d < y).insert(y));
    }
}

/// One more than the largest assigned id, or 0 when no cell is assigned.
pub fn assigned_plate_count(plate_id: &[PlateId]) -> (r: usize)
    ensures
        r == max_assigned(plate_id@, plate_id@.len() as int) + 1,
{
    let mut best: Option<u32> = None;
    let mut i: usize = 0;
    while i < plate_id.len()
        invariant
            0 <= i <= plate_id@.len(),
            match best {
                Some(b) => b as int == max_assigned(plate_id@, i as int) && b != UNASSIGNED_PLATE,
                None => max_assigned(plate_id@, i as int) == -1,
            },
        decreases plate_id@.len() - i,
    {
        proof {
            lemma_max_assigned_bounds(plate_id@, i as int);
        }
        let x = plate_id[i].0;
        if x != UNASSIGNED_PLATE {
            match best {
                Some(b) => {
                    if x > b {
                        best = Some(x);
                    }
                },
                None => {
                    best = Some(x);
                },
            }
        }
        i += 1;
    }
    match best {
        Some(b) => b as usize + 1,
        None => 0,
    }
}

/// Number of cells of each plate `0..assigned_plate_count`.
pub fn plate_cell_counts_local(plate_id: &[PlateId]) -> (r: Vec<usize>)
    ensures
        r@.len() == max_assigned(plate_id@, plate_id@.len() as int) + 1,
        forall|p: int| 0 <= p < r@.len() ==> #[trigger] r@[p] == count_id(plate_id@, p, plate_id@.len() as int),
{
    let plate_count = assigned_plate_count(plate_id);
    proof {
        lemma_max_assigned_bounds(plate_id@, plate_id@.len() as int);
    }
    let mut counts: Vec<usize> = vec![0; plate_count];
    let mut i: usize = 0;
    while i < plate_id.len()
        invariant
            0 <= i <= plate_id@.len(),
            counts@.len() == plate_count,
            plate_count <= UNASSIGNED_PLATE,
            forall|p: int| 0 <= p < plate_count ==> #[trigger] counts@[p] == count_id(plate_id@, p, i as int) && counts@[p] <= i,
        decreases plate_id@.len() - i,
    {
        let plate = plate_id[i].as_usize();
        if plate < plate_count {
            counts.set(plate, counts[plate] + 1);
        }
        i += 1;
    }
    counts
}

/// Smallest region promoted to a plate: one cell in 240, kept within 4..=96.
pub fn min_promoted_region_size(cell_count: usize) -> (r: usize)
    ensures
        r == (if cell_count / 240 < 4 {
            4
        } else if cell_count / 240 > 96 {
            96
        } else {
            cell_count / 240
        }),
{
    let q = cell_count / 240;
    if q < 4 {
        4
    } else if q > 96 {
        96
    } else {
        q
    }
}

/// Steps between two evaluations of the evolving damage field.
pub const DAMAGE_EVOLUTION_EVAL_INTERVAL: u32 = 8;

/// How many base budgets damage evolution may spend at most.
pub const DAMAGE_EVOLUTION_MAX_STEP_MULTIPLIER: u32 = 2;

/// Step budgets of damage evolution before plates emerge: the base budget
/// is `pre_plate_steps` kept within 1..=160; the largest budget is twice the
/// base, kept within base..=160.
pub fn damage_step_budgets(pre_plate_steps: u32) -> (r: (u32, u32))
    ensures
        r.0 == (if pre_plate_steps < 1 {
            1
        } else if pre_plate_steps > 160 {
            160
        } else {
            pre_plate_steps
        }),
        r.1 == (if r.0 * DAMAGE_EVOLUTION_MAX_STEP_MULTIPLIER > 160 {
            160
        } else {
            r.0 * DAMAGE_EVOLUTION_MAX_STEP_MULTIPLIER
        }),
{
    let base: u32 = if pre_plate_steps < 1 {
        1
    } else if pre_plate_steps > 160 {
        160
    } else {
        pre_plate_steps
    };
    let doubled: u32 = base * DAMAGE_EVOLUTION_MAX_STEP_MULTIPLIER;
    let max: u32 = if doubled < base {
        base
    } else if doubled > 160 {
        160
    } else {
        doubled
    };
    (base, max)
}

/// Steps of the next chunk of damage evolution, after `total_steps` of at
/// most `max_step_budget`: what is left of the base budget when that is
/// under one evaluation interval, else one interval, or what is left of the
/// largest budget when that is shorter.
pub fn damage_chunk_steps(base_step_budget: u32, max_step_budget: u32, total_steps: u32) -> (r: u32)
    requires
        total_steps < max_step_budget,
    ensures
        r == (if total_steps < base_step_budget && base_step_budget - total_steps
            < DAMAGE_EVOLUTION_EVAL_INTERVAL {
            base_step_budget - total_steps
        } else if max_step_budget - total_steps < DAMAGE_EVOLUTION_EVAL_INTERVAL {
            max_step_budget - total_steps
        } else {
            DAMAGE_EVOLUTION_EVAL_INTERVAL as int
        }),
        0 < r <= DAMAGE_EVOLUTION_EVAL_INTERVAL,
{
    let remaining = max_step_budget - total_steps;
    let until_base: u32 = if total_steps < base_step_budget { base_step_budget - total_steps } else { 0 };
    if until_base > 0 && until_base < DAMAGE_EVOLUTION_EVAL_INTERVAL {
        until_base
    } else if remaining < DAMAGE_EVOLUTION_EVAL_INTERVAL {
        remaining
    } else {
        DAMAGE_EVOLUTION_EVAL_INTERVAL
    }
}

/// The fallback partition used for a regime whose plates did not emerge.
pub fn fallback_kind_for_regime(regime: TectonicRegime) -> (r: PlateEmergenceFallbackKind)
    ensures
        r == (match regime {
            TectonicRegime::StagnantLid => PlateEmergenceFallbackKind::StagnantLidProtoPlates,
            TectonicRegime::MobileLid => PlateEmergenceFallbackKind::NoFallback,
            TectonicRegime::ShatteredLid => PlateEmergenceFallbackKind::ShatteredLidProtoBlocks,
        }),
{
    match regime {
        TectonicRegime::StagnantLid => PlateEmergenceFallbackKind::StagnantLidProtoPlates,
        TectonicRegime::MobileLid => PlateEmergenceFallbackKind::NoFallback,
        TectonicRegime::ShatteredLid => PlateEmergenceFallbackKind::ShatteredLidProtoBlocks,
    }
}

/// Number of proto plates for a regime: the minimum for a stagnant lid, the
/// maximum for a shattered lid, the midpoint for a mobile lid; at least one
/// plate (and the bounds at least one), at most one per cell.
pub fn proto_plate_count_for_regime(
    plate_count_min: u32,
    plate_count_max: u32,
    regime: TectonicRegime,
    cell_count: usize,
) -> (r: usize)
    ensures
        ({
            let lo: int = if plate_count_min < 1 { 1 } else { plate_count_min as int };
            let hi: int = if plate_count_max < lo { lo } else { plate_count_max as int };
            let target: int = match regime {
                TectonicRegime::StagnantLid => lo,
                TectonicRegime::MobileLid => (lo + hi) / 2,
                TectonicRegime::ShatteredLid => hi,
            };
            let cap: int = if cell_count < 1 { 1 } else { cell_count as int };
            r == (if target < 1 { 1 } else if target > cap { cap } else { target })
        }),
{
    let min_count: usize = if plate_count_min < 1 { 1 } else { plate_count_min as usize };
    let max_count: usize = if (plate_count_max as usize) < min_count { min_count } else { plate_count_max as usize };
    let target: usize = match regime {
        TectonicRegime::StagnantLid => min_count,
        TectonicRegime::MobileLid => min_count + (max_count - min_count) / 2,
        TectonicRegime::ShatteredLid => max_count,
    };
    let cap: usize = if cell_count < 1 { 1 } else { cell_count };
    if target < 1 {
        1
    } else if target > cap {
        cap
    } else {
        target
    }
}

/// Number of entries of `list` that are marked in `mask`.
pub open spec fn count_marked(mask: Seq<bool>, list: Seq<u32>) -> nat
    decreases list.len(),
{
    if list.len() == 0 {
        0
    } else {
        count_marked(mask, list.drop_last()) + if mask[list.last() as int] { 1nat } else { 0nat }
    }
}

/// One pruning round: a boundary cell stays only with at least `min` boundary neighbours.
pub open spec fn prune_round(offsets: Seq<u32>, nbrs: Seq<u32>, mask: Seq<bool>, min: int) -> Seq<bool> {
    Seq::new(
        mask.len(),
        |v: int|
            mask[v] && count_marked(mask, nbrs.subrange(offsets[v] as int, offsets[v + 1] as int))
                >= min,
    )
}

/// Pruning only ever clears cells of the mask.
proof fn lemma_prune_rounds_only_clears(offsets: Seq<u32>, nbrs: Seq<u32>, mask: Seq<bool>, min: int, rounds: nat)
    ensures
        prune_rounds(offsets, nbrs, mask, min, rounds).len() == mask.len(),
        forall|x: int| 0 <= x < mask.len() && #[trigger] prune_rounds(offsets, nbrs, mask, min, rounds)[x] ==> mask[x],
    decreases rounds,
{
    if rounds > 0 {
        let next = prune_round(offsets, nbrs, mask, min);
        if next != mask {
            lemma_prune_rounds_only_clears(offsets, nbrs, next, min, (rounds - 1) as nat);
            assert forall|x: int| 0 <= x < mask.len() && #[trigger] prune_rounds(offsets, nbrs, mask, min, rounds)[x] implies mask[x] by {
                assert(next[x]);
            }
        }
    }
}

/// Up to `rounds` pruning rounds, stopping early once a round changes nothing.
pub open spec fn prune_rounds(offsets: Seq<u32>, nbrs: Seq<u32>, mask: Seq<bool>, min: int, rounds: nat) -> Seq<bool>
    decreases rounds,
{
    if rounds == 0 {
        mask
    } else {
        let next = prune_round(offsets, nbrs, mask, min);
        if next == mask {
            mask
        } else {
            prune_rounds(offsets, nbrs, next, min, (rounds - 1) as nat)
        }
    }
}

/// Removes boundary spurs: repeatedly clears boundary cells with fewer than
/// `min_boundary_neighbors` boundary neighbours (all decided on the mask of
/// the previous round), for at most `rounds` rounds.
pub fn prune_boundary_spurs(
    nbr_offsets: &[u32],
    nbrs: &[u32],
    boundary_mask: &mut [bool],
    rounds: u32,
    min_boundary_neighbors: usize,
)
    requires
        rounds > 0 ==> forall|v: int|
            0 <= v < old(boundary_mask)@.len() && old(boundary_mask)@[v] ==> #[trigger] readable_range(
                nbr_offsets@,
                nbrs@,
                old(boundary_mask)@.len() as int,
                v,
            ),
    ensures
        final(boundary_mask)@ == prune_rounds(
            nbr_offsets@,
            nbrs@,
            old(boundary_mask)@,
            min_boundary_neighbors as int,
            rounds as nat,
        ),
        final(boundary_mask)@.len() == old(boundary_mask)@.len(),
        forall|x: int| 0 <= x < old(boundary_mask)@.len() && #[trigger] final(boundary_mask)@[x] ==> old(boundary_mask)@[x],
{
    proof {
        lemma_prune_rounds_only_clears(nbr_offsets@, nbrs@, boundary_mask@, min_boundary_neighbors as int, rounds as nat);
    }
    if rounds == 0 || boundary_mask.len() == 0 {
        proof {
            if rounds > 0 {
                assert(prune_round(nbr_offsets@, nbrs@, boundary_mask@, min_boundary_neighbors as int) =~= boundary_mask@);
            }
        }
        return;
    }
    let n = boundary_mask.len();
    let mut r: u32 = 0;
    while r < rounds
        invariant_except_break
            0 <= r <= rounds,
            boundary_mask@.len() == n,
            old(boundary_mask)@.len() == n,
            forall|u: int| 0 <= u < n && old(boundary_mask)@[u] ==> #[trigger] readable_range(nbr_offsets@, nbrs@, n as int, u),
            forall|u: int| 0 <= u < n && #[trigger] boundary_mask@[u] ==> old(boundary_mask)@[u],
            prune_rounds(nbr_offsets@, nbrs@, old(boundary_mask)@, min_boundary_neighbors as int, rounds as nat)
                == prune_rounds(nbr_offsets@, nbrs@, boundary_mask@, min_boundary_neighbors as int, (rounds - r) as nat),
        ensures
            boundary_mask@ == prune_rounds(nbr_offsets@, nbrs@, old(boundary_mask)@, min_boundary_neighbors as int, rounds as nat),
        decreases rounds - r,
    {
        let ghost cur = boundary_mask@;
        let ghost next = prune_round(nbr_offsets@, nbrs@, cur, min_boundary_neighbors as int);
        let mut to_clear: Vec<usize> = Vec::new();
        let mut v: usize = 0;
        while v < n
            invariant
                0 <= v <= n,
                boundary_mask@ == cur,
                cur.len() == n,
                next == prune_round(nbr_offsets@, nbrs@, cur, min_boundary_neighbors as int),
                forall|u: int| 0 <= u < n && cur[u] ==> #[trigger] readable_range(nbr_offsets@, nbrs@, n as int, u),
                forall|t: int| 0 <= t < to_clear@.len() ==> #[trigger] to_clear@[t] < n,
                forall|x: int| 0 <= x < v ==> (#[trigger] next[x] != cur[x] <==> to_clear@.contains(x as usize)),
                forall|t: int| 0 <= t < to_clear@.len() ==> #[trigger] to_clear@[t] < v,
            decreases n - v,
        {
            if boundary_mask[v] {
                proof {
                    assert(readable_range(nbr_offsets@, nbrs@, n as int, v as int));
                }
                let start = nbr_offsets[v] as usize;
                let end = nbr_offsets[v + 1] as usize;
                let mut count: usize = 0;
                let mut k = start;
                while k < end
                    invariant
                        start <= k <= end,
                        end <= nbrs@.len(),
                        cur.len() == n,
                        boundary_mask@ == cur,
                        start == nbr_offsets@[v as int],
                        end == nbr_offsets@[v + 1],
                        readable_range(nbr_offsets@, nbrs@, n as int, v as int),
                        count == count_marked(cur, nbrs@.subrange(start as int, k as int)),
                        count <= k - start,
                    decreases end - k,
                {
                    proof {
                        assert(nbrs@.subrange(start as int, k + 1).drop_last() =~= nbrs@.subrange(start as int, k as int));
                    }
                    if boundary_mask[nbrs[k] as usize] {
                        count += 1;
                    }
                    k += 1;
                }
                proof {
                    assert(nbrs@.subrange(start as int, end as int) == nbrs@.subrange(nbr_offsets@[v as int] as int, nbr_offsets@[v + 1] as int));
                    assert(next[v as int] == (cur[v as int] && count >= min_boundary_neighbors));
                }
                if count < min_boundary_neighbors {
                    let ghost prev = to_clear@;
                    to_clear.push(v);
                    proof {
                        assert forall|x: int| 0 <= x < v + 1 implies (#[trigger] next[x] != cur[x] <==> to_clear@.contains(x as usize)) by {
                            if x == v as int {
                                assert(to_clear@[to_clear@.len() - 1] == v);
                            } else {
                                if to_clear@.contains(x as usize) {
                                    let t = choose|t: int| 0 <= t < to_clear@.len() && to_clear@[t] == x as usize;
                                    if t == to_clear@.len() - 1 {
                                    } else {
                                        assert(prev[t] == x as usize);
                                    }
                                }
                                if prev.contains(x as usize) {
                                    let t = choose|t: int| 0 <= t < prev.len() && prev[t] == x as usize;
                                    assert(to_clear@[t] == x as usize);
                                }
                            }
                        }
                    }
                } else {
                    proof {
                        assert(!to_clear@.contains(v as usize)) by {
                            if to_clear@.contains(v as usize) {
                                let t = choose|t: int| 0 <= t < to_clear@.len() && to_clear@[t] == v as usize;
                            }
                        }
                    }
                }
            } else {
                proof {
                    assert(next[v as int] == false);
                    assert(!to_clear@.contains(v as usize)) by {
                        if to_clear@.contains(v as usize) {
                            let t = choose|t: int| 0 <= t < to_clear@.len() && to_clear@[t] == v as usize;
                        }
                    }
                }
            }
            v += 1;
        }
        if to_clear.len() == 0 {
            proof {
                assert(next =~= cur) by {
                    assert forall|x: int| 0 <= x < n implies next[x] == cur[x] by {
                        if next[x] != cur[x] {
                            assert(to_clear@.contains(x as usize));
                        }
                    }
                }
            }
            break;
        }
        let mut t: usize = 0;
        while t < to_clear.len()
            invariant
                0 <= t <= to_clear@.len(),
                boundary_mask@.len() == n,
                cur.len() == n,
                next.len() == n,
                forall|u: int| 0 <= u < to_clear@.len() ==> #[trigger] to_clear@[u] < n,
                forall|x: int| 0 <= x < n ==> (#[trigger] next[x] != cur[x] <==> to_clear@.contains(x as usize)),
                forall|x: int| 0 <= x < n ==> next[x] != cur[x] ==> !next[x],
                forall|x: int| 0 <= x < n ==> #[trigger] boundary_mask@[x] == (if to_clear@.take(t as int).contains(x as usize) { false } else { cur[x] }),
            decreases to_clear@.len() - t,
        {
            let c = to_clear[t];
            boundary_mask[c] = false;
            proof {
                assert forall|x: int| 0 <= x < n implies #[trigger] boundary_mask@[x] == (if to_clear@.take(t + 1).contains(x as usize) { false } else { cur[x] }) by {
                    assert(to_clear@.take(t + 1) == to_clear@.take(t as int).push(c));
                    if x == c as int {
                        assert(to_clear@.take(t + 1)[t as int] == c);
                    } else {
                        if to_clear@.take(t + 1).contains(x as usize) {
                            let u = choose|u: int| 0 <= u < t + 1 && #[trigger] to_clear@.take(t + 1)[u] == x as usize;
                            assert(to_clear@.take(t as int)[u] == x as usize);
                        }
                        if to_clear@.take(t as int).contains(x as usize) {
                            let u = choose|u: int| 0 <= u < t && #[trigger] to_clear@.take(t as int)[u] == x as usize;
                            assert(to_clear@.take(t + 1)[u] == x as usize);
                        }
                    }
                }
            }
            t += 1;
        }
        proof {
            assert(to_clear@.take(to_clear@.len() as int) == to_clear@);
            assert(boundary_mask@ =~= next) by {
                assert forall|x: int| 0 <= x < n implies boundary_mask@[x] == next[x] by {
                    if to_clear@.contains(x as usize) {
                    } else {
                    }
                }
            }
            assert(next != cur) by {
                let c0 = to_clear@[0] as int;
                assert(to_clear@.contains(c0 as usize));
                assert(next[c0] != cur[c0]);
            }
        }
        r += 1;
    }
}

} // verus!
