//! Bookkeeping of the surface-material transport: boundary classifications,
//! reaction plans, remap occupancy and their tallies.
use vstd::prelude::*;
use crate::geology_types::PlateId;

verus! {

/// Kind of a plate boundary.
#[derive(Debug, Clone, Copy, PartialEq, Eq, Structural)]
pub enum BoundaryType {
    Ridge,
    Rift,
    Subduction,
    Collision,
    Transform,
    PassiveMargin,
}

/// How a convergent boundary behaves.
#[derive(Debug, Clone, Copy, PartialEq, Eq, Structural)]
pub enum ConvergentRegime {
    NotConvergent,
    ContinentalCollision,
    IncipientSubduction,
    Subduction,
    Obduction,
}

/// A planned reaction at a boundary cell.
#[derive(Debug, Clone, Copy, PartialEq, Eq, Structural)]
pub enum SurfaceBoundaryReactionKind {
    Divergent { accreting_plate: PlateId },
    Subduction { subducting_plate: PlateId },
    Transform,
}

/// A reaction planned at one cell.
#[derive(Debug, Clone, Copy, PartialEq, Eq, Structural)]
pub struct SurfaceBoundaryReaction {
    pub cell: u32,
    pub kind: SurfaceBoundaryReactionKind,
}

/// Number of entries of `s` that satisfy `pred`.
pub open spec fn count_matching<T>(s: Seq<T>, pred: spec_fn(T) -> bool) -> nat
    decreases s.len(),
{
    if s.len() == 0 {
        0
    } else {
        count_matching(s.drop_last(), pred) + if pred(s.last()) { 1nat } else { 0nat }
    }
}

/// A count as `u32`, saturating at `u32::MAX`.
pub open spec fn sat_u32(x: nat) -> u32 {
    if x > u32::MAX { u32::MAX } else { x as u32 }
}

/// Converts a count to `u32`, saturating at `u32::MAX`.
pub fn count_u32(value: usize) -> (r: u32)
    ensures
        r == sat_u32(value as nat),
{
    if value > u32::MAX as usize {
        u32::MAX
    } else {
        value as u32
    }
}

/// `x + 1`, saturating at `u32::MAX`.
fn inc_sat(x: u32) -> (r: u32)
    ensures
        r == if x == u32::MAX { u32::MAX } else { (x + 1) as u32 },
{
    if x == u32::MAX {
        x
    } else {
        x + 1
    }
}

proof fn lemma_sat_step(x: nat, b: bool)
    ensures
        sat_u32(x + if b { 1nat } else { 0nat }) == if b {
            if sat_u32(x) == u32::MAX { u32::MAX } else { (sat_u32(x) + 1) as u32 }
        } else {
            sat_u32(x)
        },
{
}

/// Tally of boundary kinds.
#[derive(Debug, Clone, Copy, PartialEq, Eq, Structural)]
pub struct BoundaryTypeCounts {
    pub ridge: u32,
    pub rift: u32,
    pub subduction: u32,
    pub collision: u32,
    pub transform: u32,
    pub passive: u32,
}

/// Counts each boundary kind (saturating).
pub fn boundary_type_counts(boundary_types: &[BoundaryType]) -> (r: BoundaryTypeCounts)
    ensures
        r.ridge == sat_u32(count_matching(boundary_types@, |b: BoundaryType| b == BoundaryType::Ridge)),
        r.rift == sat_u32(count_matching(boundary_types@, |b: BoundaryType| b == BoundaryType::Rift)),
        r.subduction == sat_u32(count_matching(boundary_types@, |b: BoundaryType| b == BoundaryType::Subduction)),
        r.collision == sat_u32(count_matching(boundary_types@, |b: BoundaryType| b == BoundaryType::Collision)),
        r.transform == sat_u32(count_matching(boundary_types@, |b: BoundaryType| b == BoundaryType::Transform)),
        r.passive == sat_u32(count_matching(boundary_types@, |b: BoundaryType| b == BoundaryType::PassiveMargin)),
{
    let mut c = BoundaryTypeCounts { ridge: 0, rift: 0, subduction: 0, collision: 0, transform: 0, passive: 0 };
    let mut i: usize = 0;
    while i < boundary_types.len()
        invariant
            0 <= i <= boundary_types@.len(),
            c.ridge == sat_u32(count_matching(boundary_types@.take(i as int), |b: BoundaryType| b == BoundaryType::Ridge)),
            c.rift == sat_u32(count_matching(boundary_types@.take(i as int), |b: BoundaryType| b == BoundaryType::Rift)),
            c.subduction == sat_u32(count_matching(boundary_types@.take(i as int), |b: BoundaryType| b == BoundaryType::Subduction)),
            c.collision == sat_u32(count_matching(boundary_types@.take(i as int), |b: BoundaryType| b == BoundaryType::Collision)),
            c.transform == sat_u32(count_matching(boundary_types@.take(i as int), |b: BoundaryType| b == BoundaryType::Transform)),
            c.passive == sat_u32(count_matching(boundary_types@.take(i as int), |b: BoundaryType| b == BoundaryType::PassiveMargin)),
        decreases boundary_types@.len() - i,
    {
        let ghost t = boundary_types@.take(i + 1);
        proof {
            assert(t.drop_last() == boundary_types@.take(i as int));
            assert(t.last() == boundary_types@[i as int]);
            lemma_sat_step(count_matching(boundary_types@.take(i as int), |b: BoundaryType| b == BoundaryType::Ridge), boundary_types@[i as int] == BoundaryType::Ridge);
            lemma_sat_step(count_matching(boundary_types@.take(i as int), |b: BoundaryType| b == BoundaryType::Rift), boundary_types@[i as int] == BoundaryType::Rift);
            lemma_sat_step(count_matching(boundary_types@.take(i as int), |b: BoundaryType| b == BoundaryType::Subduction), boundary_types@[i as int] == BoundaryType::Subduction);
            lemma_sat_step(count_matching(boundary_types@.take(i as int), |b: BoundaryType| b == BoundaryType::Collision), boundary_types@[i as int] == BoundaryType::Collision);
            lemma_sat_step(count_matching(boundary_types@.take(i as int), |b: BoundaryType| b == BoundaryType::Transform), boundary_types@[i as int] == BoundaryType::Transform);
            lemma_sat_step(count_matching(boundary_types@.take(i as int), |b: BoundaryType| b == BoundaryType::PassiveMargin), boundary_types@[i as int] == BoundaryType::PassiveMargin);
        }
        match boundary_types[i] {
            BoundaryType::Ridge => c.ridge = inc_sat(c.ridge),
            BoundaryType::Rift => c.rift = inc_sat(c.rift),
            BoundaryType::Subduction => c.subduction = inc_sat(c.subduction),
            BoundaryType::Collision => c.collision = inc_sat(c.collision),
            BoundaryType::Transform => c.transform = inc_sat(c.transform),
            BoundaryType::PassiveMargin => c.passive = inc_sat(c.passive),
        }
        i += 1;
    }
    proof {
        assert(boundary_types@.take(boundary_types@.len() as int) == boundary_types@);
    }
    c
}

/// Tally of convergent regimes.
#[derive(Debug, Clone, Copy, PartialEq, Eq, Structural)]
pub struct ConvergentRegimeCounts {
    pub continental_collision: u32,
    pub incipient_subduction: u32,
    pub subduction: u32,
    pub obduction: u32,
}

/// Counts each convergent regime (saturating); non-convergent entries are ignored.
pub fn convergent_regime_counts(regimes: &[ConvergentRegime]) -> (r: ConvergentRegimeCounts)
    ensures
        r.continental_collision == sat_u32(count_matching(regimes@, |b: ConvergentRegime| b == ConvergentRegime::ContinentalCollision)),
        r.incipient_subduction == sat_u32(count_matching(regimes@, |b: ConvergentRegime| b == ConvergentRegime::IncipientSubduction)),
        r.subduction == sat_u32(count_matching(regimes@, |b: ConvergentRegime| b == ConvergentRegime::Subduction)),
        r.obduction == sat_u32(count_matching(regimes@, |b: ConvergentRegime| b == ConvergentRegime::Obduction)),
{
    let mut c = ConvergentRegimeCounts { continental_collision: 0, incipient_subduction: 0, subduction: 0, obduction: 0 };
    let mut i: usize = 0;
    while i < regimes.len()
        invariant
            0 <= i <= regimes@.len(),
            c.continental_collision == sat_u32(count_matching(regimes@.take(i as int), |b: ConvergentRegime| b == ConvergentRegime::ContinentalCollision)),
            c.incipient_subduction == sat_u32(count_matching(regimes@.take(i as int), |b: ConvergentRegime| b == ConvergentRegime::IncipientSubduction)),
            c.subduction == sat_u32(count_matching(regimes@.take(i as int), |b: ConvergentRegime| b == ConvergentRegime::Subduction)),
            c.obduction == sat_u32(count_matching(regimes@.take(i as int), |b: ConvergentRegime| b == ConvergentRegime::Obduction)),
        decreases regimes@.len() - i,
    {
        let ghost t = regimes@.take(i + 1);
        proof {
            assert(t.drop_last() == regimes@.take(i as int));
            assert(t.last() == regimes@[i as int]);
            lemma_sat_step(count_matching(regimes@.take(i as int), |b: ConvergentRegime| b == ConvergentRegime::ContinentalCollision), regimes@[i as int] == ConvergentRegime::ContinentalCollision);
            lemma_sat_step(count_matching(regimes@.take(i as int), |b: ConvergentRegime| b == ConvergentRegime::IncipientSubduction), regimes@[i as int] == ConvergentRegime::IncipientSubduction);
            lemma_sat_step(count_matching(regimes@.take(i as int), |b: ConvergentRegime| b == ConvergentRegime::Subduction), regimes@[i as int] == ConvergentRegime::Subduction);
            lemma_sat_step(count_matching(regimes@.take(i as int), |b: ConvergentRegime| b == ConvergentRegime::Obduction), regimes@[i as int] == ConvergentRegime::Obduction);
        }
        match regimes[i] {
            ConvergentRegime::NotConvergent => {},
            ConvergentRegime::ContinentalCollision => c.continental_collision = inc_sat(c.continental_collision),
            ConvergentRegime::IncipientSubduction => c.incipient_subduction = inc_sat(c.incipient_subduction),
            ConvergentRegime::Subduction => c.subduction = inc_sat(c.subduction),
            ConvergentRegime::Obduction => c.obduction = inc_sat(c.obduction),
        }
        i += 1;
    }
    proof {
        assert(regimes@.take(regimes@.len() as int) == regimes@);
    }
    c
}

/// Tally of planned reactions.
#[derive(Debug, Clone, Copy, PartialEq, Eq, Structural)]
pub struct PlannedReactionCounts {
    pub divergent: u32,
    pub subduction: u32,
    pub transform: u32,
}

/// Counts each kind of planned reaction (saturating).
pub fn planned_reaction_counts(reactions: &[SurfaceBoundaryReaction]) -> (r: PlannedReactionCounts)
    ensures
        r.divergent == sat_u32(count_matching(reactions@, |x: SurfaceBoundaryReaction| x.kind is Divergent)),
        r.subduction == sat_u32(count_matching(reactions@, |x: SurfaceBoundaryReaction| x.kind is Subduction)),
        r.transform == sat_u32(count_matching(reactions@, |x: SurfaceBoundaryReaction| x.kind is Transform)),
{
    let mut c = PlannedReactionCounts { divergent: 0, subduction: 0, transform: 0 };
    let mut i: usize = 0;
    while i < reactions.len()
        invariant
            0 <= i <= reactions@.len(),
            c.divergent == sat_u32(count_matching(reactions@.take(i as int), |x: SurfaceBoundaryReaction| x.kind is Divergent)),
            c.subduction == sat_u32(count_matching(reactions@.take(i as int), |x: SurfaceBoundaryReaction| x.kind is Subduction)),
            c.transform == sat_u32(count_matching(reactions@.take(i as int), |x: SurfaceBoundaryReaction| x.kind is Transform)),
        decreases reactions@.len() - i,
    {
        let ghost t = reactions@.take(i + 1);
        proof {
            assert(t.drop_last() == reactions@.take(i as int));
            assert(t.last() == reactions@[i as int]);
            lemma_sat_step(count_matching(reactions@.take(i as int), |x: SurfaceBoundaryReaction| x.kind is Divergent), reactions@[i as int].kind is Divergent);
            lemma_sat_step(count_matching(reactions@.take(i as int), |x: SurfaceBoundaryReaction| x.kind is Subduction), reactions@[i as int].kind is Subduction);
            lemma_sat_step(count_matching(reactions@.take(i as int), |x: SurfaceBoundaryReaction| x.kind is Transform), reactions@[i as int].kind is Transform);
        }
        match reactions[i].kind {
            SurfaceBoundaryReactionKind::Divergent { .. } => c.divergent = inc_sat(c.divergent),
            SurfaceBoundaryReactionKind::Subduction { .. } => c.subduction = inc_sat(c.subduction),
            SurfaceBoundaryReactionKind::Transform => c.transform = inc_sat(c.transform),
        }
        i += 1;
    }
    proof {
        assert(reactions@.take(reactions@.len() as int) == reactions@);
    }
    c
}

/// Marks the cells that are an endpoint of some boundary edge; endpoints
/// outside `0..cell_count` are ignored.
pub fn boundary_cell_mask(cell_count: usize, edge_pairs: &[[u32; 2]]) -> (r: Vec<bool>)
    ensures
        r@.len() == cell_count,
        forall|c: int|
            0 <= c < cell_count ==> (#[trigger] r@[c] <==> exists|e: int, k: int|
                0 <= e < edge_pairs@.len() && 0 <= k < 2 && edge_pairs@[e][k] as int == c),
{
    let mut mask: Vec<bool> = vec![false; cell_count];
    let mut e: usize = 0;
    while e < edge_pairs.len()
        invariant
            0 <= e <= edge_pairs@.len(),
            mask@.len() == cell_count,
            forall|c: int|
                0 <= c < cell_count ==> (#[trigger] mask@[c] <==> exists|f: int, k: int|
                    0 <= f < e && 0 <= k < 2 && edge_pairs@[f][k] as int == c),
        decreases edge_pairs@.len() - e,
    {
        let pair = edge_pairs[e];
        let mut k: usize = 0;
        while k < 2
            invariant
                0 <= k <= 2,
                pair == edge_pairs@[e as int],
                0 <= e < edge_pairs@.len(),
                mask@.len() == cell_count,
                forall|c: int|
                    0 <= c < cell_count ==> (#[trigger] mask@[c] <==> (exists|f: int, j: int|
                        0 <= f < e && 0 <= j < 2 && edge_pairs@[f][j] as int == c) || exists|j: int|
                        0 <= j < k && pair[j] as int == c),
            decreases 2 - k,
        {
            let cell = pair[k] as usize;
            if cell < mask.len() {
                mask.set(cell, true);
            }
            k += 1;
        }
        proof {
            assert forall|c: int| 0 <= c < cell_count implies (#[trigger] mask@[c] <==> exists|f: int, j: int|
                0 <= f < e + 1 && 0 <= j < 2 && edge_pairs@[f][j] as int == c) by {
                if exists|f: int, j: int| 0 <= f < e + 1 && 0 <= j < 2 && edge_pairs@[f][j] as int == c {
                    let (f, j) = choose|f: int, j: int| 0 <= f < e + 1 && 0 <= j < 2 && edge_pairs@[f][j] as int == c;
                    if f == e {
                        assert(pair[j] as int == c);
                    }
                }
            }
        }
        e += 1;
    }
    mask
}

/// Empty and overlapping cells of a remap, split into boundary and interior cells.
#[derive(Debug, Clone, Copy, PartialEq, Eq, Structural)]
pub struct ScopedOccupancy {
    pub boundary_empty: u32,
    pub interior_empty: u32,
    pub boundary_overlap: u32,
    pub interior_overlap: u32,
}

/// Cell `c` counts as a boundary cell (cells past the mask are interior).
pub open spec fn is_boundary_cell(boundary: Seq<bool>, c: int) -> bool {
    c < boundary.len() && boundary[c]
}

/// Number of the first `n` cells with `pred(deposit count, boundary)`.
pub open spec fn count_cells(deposits: Seq<Vec<usize>>, boundary: Seq<bool>, n: int, pred: spec_fn(nat, bool) -> bool) -> nat
    decreases n,
{
    if n <= 0 {
        0
    } else {
        count_cells(deposits, boundary, n - 1, pred) + if pred(deposits[n - 1]@.len(), is_boundary_cell(boundary, n - 1)) {
            1nat
        } else {
            0nat
        }
    }
}

/// Counts (saturating) cells that received no parcel and cells that
/// received more than one, on and off the boundary.
pub fn scoped_occupancy(cell_parcel_indices: &[Vec<usize>], boundary_cells: &[bool]) -> (r: ScopedOccupancy)
    ensures
        r.boundary_empty == sat_u32(count_cells(cell_parcel_indices@, boundary_cells@, cell_parcel_indices@.len() as int, |d: nat, b: bool| d == 0 && b)),
        r.interior_empty == sat_u32(count_cells(cell_parcel_indices@, boundary_cells@, cell_parcel_indices@.len() as int, |d: nat, b: bool| d == 0 && !b)),
        r.boundary_overlap == sat_u32(count_cells(cell_parcel_indices@, boundary_cells@, cell_parcel_indices@.len() as int, |d: nat, b: bool| d >= 2 && b)),
        r.interior_overlap == sat_u32(count_cells(cell_parcel_indices@, boundary_cells@, cell_parcel_indices@.len() as int, |d: nat, b: bool| d >= 2 && !b)),
{
    let mut c = ScopedOccupancy { boundary_empty: 0, interior_empty: 0, boundary_overlap: 0, interior_overlap: 0 };
    let mut i: usize = 0;
    while i < cell_parcel_indices.len()
        invariant
            0 <= i <= cell_parcel_indices@.len(),
            c.boundary_empty == sat_u32(count_cells(cell_parcel_indices@, boundary_cells@, i as int, |d: nat, b: bool| d == 0 && b)),
            c.interior_empty == sat_u32(count_cells(cell_parcel_indices@, boundary_cells@, i as int, |d: nat, b: bool| d == 0 && !b)),
            c.boundary_overlap == sat_u32(count_cells(cell_parcel_indices@, boundary_cells@, i as int, |d: nat, b: bool| d >= 2 && b)),
            c.interior_overlap == sat_u32(count_cells(cell_parcel_indices@, boundary_cells@, i as int, |d: nat, b: bool| d >= 2 && !b)),
        decreases cell_parcel_indices@.len() - i,
    {
        let d = cell_parcel_indices[i].len();
        let is_boundary = i < boundary_cells.len() && boundary_cells[i];
        proof {
            let dd = cell_parcel_indices@[i as int]@.len();
            assert(is_boundary == is_boundary_cell(boundary_cells@, i as int));
            lemma_sat_step(count_cells(cell_parcel_indices@, boundary_cells@, i as int, |d: nat, b: bool| d == 0 && b), dd == 0 && is_boundary);
            lemma_sat_step(count_cells(cell_parcel_indices@, boundary_cells@, i as int, |d: nat, b: bool| d == 0 && !b), dd == 0 && !is_boundary);
            lemma_sat_step(count_cells(cell_parcel_indices@, boundary_cells@, i as int, |d: nat, b: bool| d >= 2 && b), dd >= 2 && is_boundary);
            lemma_sat_step(count_cells(cell_parcel_indices@, boundary_cells@, i as int, |d: nat, b: bool| d >= 2 && !b), dd >= 2 && !is_boundary);
        }
        if d == 0 {
            if is_boundary {
                c.boundary_empty = inc_sat(c.boundary_empty);
            } else {
                c.interior_empty = inc_sat(c.interior_empty);
            }
        } else if d >= 2 {
            if is_boundary {
                c.boundary_overlap = inc_sat(c.boundary_overlap);
            } else {
                c.interior_overlap = inc_sat(c.interior_overlap);
            }
        }
        i += 1;
    }
    c
}

/// Occupancy diagnostics of a parcel remap.
pub struct SurfaceRemapDiagnostics {
    pub cell_parcel_counts: Vec<u32>,
    pub empty_cell_count: u32,
    pub overlap_cell_count: u32,
    pub excess_parcel_count: u32,
    pub max_parcels_per_cell: u32,
}

/// The largest of the first `n` counts (0 when there is none).
pub open spec fn max_count(s: Seq<u32>, n: int) -> u32
    decreases n,
{
    if n <= 0 {
        0
    } else {
        let prev = max_count(s, n - 1);
        if s[n - 1] > prev { s[n - 1] } else { prev }
    }
}

/// `a + b`, saturating at `u32::MAX`.
pub open spec fn add_sat(a: u32, b: u32) -> u32 {
    if a + b > u32::MAX { u32::MAX } else { (a + b) as u32 }
}

/// Parcels beyond the first in each of the first `n` cells, summed with saturation.
pub open spec fn excess_sum(s: Seq<u32>, n: int) -> u32
    decreases n,
{
    if n <= 0 {
        0
    } else {
        let prev = excess_sum(s, n - 1);
        if s[n - 1] > 1 { add_sat(prev, (s[n - 1] - 1) as u32) } else { prev }
    }
}

/// Summarises per-cell parcel counts: empty cells, overlapping cells, the
/// parcels beyond one per cell, and the largest count.
pub fn remap_diagnostics(cell_parcel_counts: Vec<u32>) -> (r: SurfaceRemapDiagnostics)
    ensures
        r.cell_parcel_counts@ == cell_parcel_counts@,
        r.max_parcels_per_cell == max_count(cell_parcel_counts@, cell_parcel_counts@.len() as int),
        r.empty_cell_count == sat_u32(count_matching(cell_parcel_counts@, |c: u32| c == 0)),
        r.overlap_cell_count == sat_u32(count_matching(cell_parcel_counts@, |c: u32| c > 1)),
        r.excess_parcel_count == excess_sum(cell_parcel_counts@, cell_parcel_counts@.len() as int),
{
    let mut empty: u32 = 0;
    let mut overlap: u32 = 0;
    let mut excess: u32 = 0;
    let mut max: u32 = 0;
    let mut i: usize = 0;
    while i < cell_parcel_counts.len()
        invariant
            0 <= i <= cell_parcel_counts@.len(),
            max == max_count(cell_parcel_counts@, i as int),
            empty == sat_u32(count_matching(cell_parcel_counts@.take(i as int), |c: u32| c == 0)),
            overlap == sat_u32(count_matching(cell_parcel_counts@.take(i as int), |c: u32| c > 1)),
            excess == excess_sum(cell_parcel_counts@, i as int),
        decreases cell_parcel_counts@.len() - i,
    {
        let count = cell_parcel_counts[i];
        proof {
            let t = cell_parcel_counts@.take(i + 1);
            assert(t.drop_last() == cell_parcel_counts@.take(i as int));
            assert(t.last() == count);
            lemma_sat_step(count_matching(cell_parcel_counts@.take(i as int), |c: u32| c == 0), count == 0);
            lemma_sat_step(count_matching(cell_parcel_counts@.take(i as int), |c: u32| c > 1), count > 1);
        }
        if count > max {
            max = count;
        }
        if count == 0 {
            empty = inc_sat(empty);
        } else if count > 1 {
            overlap = inc_sat(overlap);
            let extra = count - 1;
            excess = if excess as u64 + extra as u64 > u32::MAX as u64 { u32::MAX } else { excess + extra };
        }
        i += 1;
    }
    proof {
        assert(cell_parcel_counts@.take(cell_parcel_counts@.len() as int) == cell_parcel_counts@);
    }
    SurfaceRemapDiagnostics {
        cell_parcel_counts,
        empty_cell_count: empty,
        overlap_cell_count: overlap,
        excess_parcel_count: excess,
        max_parcels_per_cell: max,
    }
}

/// A boundary edge endpoint must be a cell of the ownership, crust and remap
/// arrays and fit in `u32`.
pub fn valid_boundary_endpoint(cell: usize, plate_count: usize, crust_count: usize, remap_cell_count: usize) -> (r: bool)
    ensures
        r == (cell < plate_count && cell < crust_count && cell < remap_cell_count && cell <= u32::MAX),
{
    cell < plate_count && cell < crust_count && cell < remap_cell_count && cell <= u32::MAX as usize
}

/// The plate that goes under at a convergent edge: the only oceanic side,
/// or with two oceanic sides the denser one (`a` on a tie); no subduction
/// between two continental sides.
pub fn subducting_plate_for_edge(
    a_oceanic: bool,
    b_oceanic: bool,
    a_at_least_as_dense: bool,
    plate_a: PlateId,
    plate_b: PlateId,
) -> (r: Option<PlateId>)
    ensures
        r == match (a_oceanic, b_oceanic) {
            (true, false) => Some(plate_a),
            (false, true) => Some(plate_b),
            (true, true) => if a_at_least_as_dense { Some(plate_a) } else { Some(plate_b) },
            (false, false) => None,
        },
{
    match (a_oceanic, b_oceanic) {
        (true, false) => Some(plate_a),
        (false, true) => Some(plate_b),
        (true, true) => if a_at_least_as_dense {
            Some(plate_a)
        } else {
            Some(plate_b)
        },
        (false, false) => None,
    }
}

/// The reaction a boundary cell undergoes, given the parcels deposited on it:
/// an empty ridge or rift cell accretes to its own plate; a subduction cell
/// with several valid deposits consumes the subducting plate; a transform
/// cell without exactly one deposit is marked; anything else has no reaction.
/// `None` also when the cell has no deposit list.
pub fn reaction_kind_for_cell(
    cell: usize,
    boundary_type: BoundaryType,
    subducting_plate: Option<PlateId>,
    plate_id: &[PlateId],
    parcel_count: usize,
    cell_parcel_indices: &[Vec<usize>],
) -> (r: Option<SurfaceBoundaryReactionKind>)
    requires
        cell < cell_parcel_indices@.len() ==> cell < plate_id@.len(),
    ensures
        ({
            if cell >= cell_parcel_indices@.len() {
                r is None
            } else {
                let d = cell_parcel_indices@[cell as int]@;
                r == if (boundary_type == BoundaryType::Ridge || boundary_type == BoundaryType::Rift) && d.len() == 0 {
                    Some(SurfaceBoundaryReactionKind::Divergent { accreting_plate: plate_id@[cell as int] })
                } else if boundary_type == BoundaryType::Subduction && d.len() > 1 && subducting_plate is Some
                    && (forall|k: int| 0 <= k < d.len() ==> #[trigger] d[k] < parcel_count) {
                    Some(SurfaceBoundaryReactionKind::Subduction { subducting_plate: subducting_plate->0 })
                } else if boundary_type == BoundaryType::Transform && d.len() != 1 {
                    Some(SurfaceBoundaryReactionKind::Transform)
                } else {
                    None
                }
            }
        }),
{
    if cell >= cell_parcel_indices.len() {
        return None;
    }
    let deposits = &cell_parcel_indices[cell];
    match boundary_type {
        BoundaryType::Ridge | BoundaryType::Rift => {
            if deposits.len() == 0 {
                return Some(SurfaceBoundaryReactionKind::Divergent { accreting_plate: plate_id[cell] });
            }
            None
        },
        BoundaryType::Subduction => {
            if deposits.len() > 1 && subducting_plate.is_some() {
                let mut all_valid = true;
                let mut k: usize = 0;
                while k < deposits.len()
                    invariant
                        0 <= k <= deposits@.len(),
                        all_valid == forall|j: int| 0 <= j < k ==> #[trigger] deposits@[j] < parcel_count,
                    decreases deposits@.len() - k,
                {
                    if deposits[k] >= parcel_count {
                        all_valid = false;
                    }
                    k += 1;
                }
                if all_valid {
                    return Some(SurfaceBoundaryReactionKind::Subduction { subducting_plate: subducting_plate.unwrap() });
                }
            }
            None
        },
        BoundaryType::Transform => {
            if deposits.len() != 1 {
                return Some(SurfaceBoundaryReactionKind::Transform);
            }
            None
        },
        _ => None,
    }
}

/// Diagnostics of the dual-cell remap that the runtime checks.
#[derive(Debug, Clone, Copy, PartialEq, Eq, Structural)]
pub struct DualCellRemapDiagnostics {
    pub source_cell_count: u32,
    pub deposited_source_cell_count: u32,
    pub unassigned_source_cell_count: u32,
    pub invalid_source_cell_count: u32,
    pub tested_candidate_count: u32,
}

/// A remap is usable only when every source cell was assigned and valid;
/// otherwise the error names both counts.
pub fn validate_remap(diagnostics: &DualCellRemapDiagnostics) -> (r: Result<(), String>)
    ensures
        match r {
            Ok(()) => diagnostics.unassigned_source_cell_count == 0 && diagnostics.invalid_source_cell_count == 0,
            Err(m) => (diagnostics.unassigned_source_cell_count > 0 || diagnostics.invalid_source_cell_count > 0)
                && m@ == "dual-cell remap failed: unassigned="@ + crate::text::decimal(diagnostics.unassigned_source_cell_count as nat)
                    + ", invalid="@ + crate::text::decimal(diagnostics.invalid_source_cell_count as nat),
        },
{
    if diagnostics.unassigned_source_cell_count > 0 || diagnostics.invalid_source_cell_count > 0 {
        return Err(String::from_str("dual-cell remap failed: unassigned=").concat(
            crate::text::usize_to_decimal(diagnostics.unassigned_source_cell_count as usize).as_str(),
        ).concat(", invalid=").concat(
            crate::text::usize_to_decimal(diagnostics.invalid_source_cell_count as usize).as_str(),
        ));
    }
    Ok(())
}

} // verus!
