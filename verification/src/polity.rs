//! Polities: the per-cell polity bookkeeping and the groups polities form.
//!
//! Every settled cell founds its own polity, numbered by the cell's index
//! plus one; unsettled cells belong to none.
use vstd::prelude::*;

verus! {

/// Identifier of a polity.
pub type PolityId = u32;

/// Identifier of a group of polities.
pub type PolityGroupId = u32;

/// What binds a group of polities together.
#[derive(Debug, Clone, Copy, PartialEq, Eq, Structural)]
pub enum GroupKind {
    EconomicZone,
    MilitaryAlliance,
    CulturalSphere,
}

impl Default for GroupKind {
    fn default() -> (r: Self)
        ensures
            r == GroupKind::CulturalSphere,
    {
        GroupKind::CulturalSphere
    }
}

/// A group of polities with an optional leader.
#[derive(Debug, Clone)]
pub struct PolityGroup {
    pub id: PolityGroupId,
    pub kind: GroupKind,
    pub members: Vec<PolityId>,
    pub leader: Option<PolityId>,
}

impl Default for PolityGroup {
    fn default() -> (r: Self)
        ensures
            r.id == 0,
            r.kind == GroupKind::CulturalSphere,
            r.members@.len() == 0,
            r.leader is None,
    {
        PolityGroup { id: 0, kind: GroupKind::CulturalSphere, members: Vec::new(), leader: None }
    }
}

/// The polity of cell `i`: its own, numbered `i + 1`, when it is settled.
pub open spec fn polity_of_cell(settled: Seq<bool>, i: int) -> Option<u32> {
    if settled[i] { Some((i + 1) as u32) } else { None }
}

/// The language group of cell `i`: `i % 8 + 1` when it is settled, else 0.
pub open spec fn language_of_cell(settled: Seq<bool>, i: int) -> u16 {
    if settled[i] { (i % 8 + 1) as u16 } else { 0 }
}

/// The per-cell polity fields.
pub struct PolityCells {
    pub polity_id: Vec<Option<PolityId>>,
    pub territory_status: Vec<u8>,
    pub language_group: Vec<u16>,
}

/// Assigns every settled cell its own polity (`i + 1`), territory status 1
/// and language group `i % 8 + 1`; unsettled cells get no polity, status 0
/// and group 0.
pub fn assign_polity_cells(settled: &[bool]) -> (r: PolityCells)
    requires
        settled@.len() <= u32::MAX,
    ensures
        r.polity_id@.len() == settled@.len(),
        r.territory_status@.len() == settled@.len(),
        r.language_group@.len() == settled@.len(),
        forall|i: int| 0 <= i < settled@.len() ==> #[trigger] r.polity_id@[i] == polity_of_cell(settled@, i),
        forall|i: int| 0 <= i < settled@.len() ==> #[trigger] r.territory_status@[i] == if settled@[i] { 1u8 } else { 0u8 },
        forall|i: int| 0 <= i < settled@.len() ==> #[trigger] r.language_group@[i] == language_of_cell(settled@, i),
{
    let n = settled.len();
    let mut polity_id: Vec<Option<PolityId>> = Vec::with_capacity(n);
    let mut territory_status: Vec<u8> = Vec::with_capacity(n);
    let mut language_group: Vec<u16> = Vec::with_capacity(n);
    let mut i: usize = 0;
    while i < n
        invariant
            0 <= i <= n,
            n == settled@.len(),
            n <= u32::MAX,
            polity_id@.len() == i,
            territory_status@.len() == i,
            language_group@.len() == i,
            forall|j: int| 0 <= j < i ==> #[trigger] polity_id@[j] == polity_of_cell(settled@, j),
            forall|j: int| 0 <= j < i ==> #[trigger] territory_status@[j] == if settled@[j] { 1u8 } else { 0u8 },
            forall|j: int| 0 <= j < i ==> #[trigger] language_group@[j] == language_of_cell(settled@, j),
        decreases n - i,
    {
        if settled[i] {
            polity_id.push(Some((i + 1) as u32));
            territory_status.push(1);
            language_group.push((i % 8) as u16 + 1);
        } else {
            polity_id.push(None);
            territory_status.push(0);
            language_group.push(0);
        }
        i += 1;
    }
    PolityCells { polity_id, territory_status, language_group }
}

/// The polities founded by the first `n` cells, in increasing order.
pub open spec fn active_ids_upto(settled: Seq<bool>, n: int) -> Seq<u32>
    decreases n,
{
    if n <= 0 {
        Seq::empty()
    } else if settled[n - 1] {
        active_ids_upto(settled, n - 1).push(n as u32)
    } else {
        active_ids_upto(settled, n - 1)
    }
}

proof fn lemma_active_ids_bounds(settled: Seq<bool>, n: int)
    requires
        0 <= n <= settled.len(),
        settled.len() <= u32::MAX,
    ensures
        active_ids_upto(settled, n).len() <= n,
        forall|k: int| 0 <= k < active_ids_upto(settled, n).len() ==> 1 <= #[trigger] active_ids_upto(settled, n)[k] <= n,
        forall|a: int, b: int| 0 <= a < b < active_ids_upto(settled, n).len() ==> #[trigger] active_ids_upto(settled, n)[a] < #[trigger] active_ids_upto(settled, n)[b],
    decreases n,
{
    if n > 0 {
        lemma_active_ids_bounds(settled, n - 1);
        let prev = active_ids_upto(settled, n - 1);
        let cur = active_ids_upto(settled, n);
        if settled[n - 1] {
            assert(cur == prev.push(n as u32));
            assert(cur[prev.len() as int] == n);
        } else {
            assert(cur == prev);
        }
        assert forall|a: int, b: int| 0 <= a < b < cur.len() implies #[trigger] cur[a] < #[trigger] cur[b] by {
            if b < prev.len() {
                assert(cur[a] == prev[a] && cur[b] == prev[b]);
            } else {
                assert(cur[a] == prev[a]);
                assert(prev[a] <= n - 1);
            }
        }
        assert forall|k: int| 0 <= k < cur.len() implies 1 <= #[trigger] cur[k] <= n by {
            if k < prev.len() {
                assert(cur[k] == prev[k]);
            }
        }
    }
}

/// The ids of all polities, in increasing order: `i + 1` for every settled
/// cell `i`.
pub fn active_polity_ids(settled: &[bool]) -> (r: Vec<PolityId>)
    requires
        settled@.len() <= u32::MAX,
    ensures
        r@ == active_ids_upto(settled@, settled@.len() as int),
        forall|a: int, b: int| 0 <= a < b < r@.len() ==> #[trigger] r@[a] < #[trigger] r@[b],
{
    let n = settled.len();
    let mut ids: Vec<PolityId> = Vec::new();
    let mut i: usize = 0;
    while i < n
        invariant
            0 <= i <= n,
            n == settled@.len(),
            n <= u32::MAX,
            ids@ == active_ids_upto(settled@, i as int),
        decreases n - i,
    {
        if settled[i] {
            ids.push((i + 1) as u32);
        }
        i += 1;
    }
    proof {
        lemma_active_ids_bounds(settled@, n as int);
    }
    ids
}

/// The relations kept between the active polities: every ordered pair of
/// two different polities, by the first polity and then by the second, in
/// the order of `ids`.
pub open spec fn relation_pairs_upto(ids: Seq<u32>, n: int) -> Seq<(u32, u32)>
    decreases n,
{
    if n <= 0 {
        Seq::empty()
    } else {
        let from = ids[n - 1];
        relation_pairs_upto(ids, n - 1) + ids.filter(|to: u32| to != from).map_values(|to: u32| (from, to))
    }
}

/// Lists every ordered pair `(from, to)` of two different ids of `ids`,
/// `from` in the outer and `to` in the inner order of `ids`.
pub fn polity_relation_pairs(ids: &[PolityId]) -> (r: Vec<(PolityId, PolityId)>)
    requires
        ids@.len() * ids@.len() <= usize::MAX,
    ensures
        r@ == relation_pairs_upto(ids@, ids@.len() as int),
{
    let n = ids.len();
    let mut pairs: Vec<(PolityId, PolityId)> = Vec::new();
    let mut i: usize = 0;
    while i < n
        invariant
            0 <= i <= n,
            n == ids@.len(),
            pairs@ == relation_pairs_upto(ids@, i as int),
        decreases n - i,
    {
        let from = ids[i];
        let ghost before = pairs@;
        let mut j: usize = 0;
        while j < n
            invariant
                0 <= j <= n,
                n == ids@.len(),
                i < n,
                from == ids@[i as int],
                pairs@ == before + ids@.take(j as int).filter(|to: u32| to != from).map_values(|to: u32| (from, to)),
            decreases n - j,
        {
            let to = ids[j];
            proof {
                assert(ids@.take(j + 1) =~= ids@.take(j as int).push(to));
                assert(ids@.take(j + 1).drop_last() =~= ids@.take(j as int));
            }
            if to != from {
                pairs.push((from, to));
                proof {
                    reveal(Seq::filter);
                    assert(ids@.take(j + 1).filter(|t: u32| t != from) =~= ids@.take(j as int).filter(|t: u32| t != from).push(to));
                    assert(ids@.take(j + 1).filter(|t: u32| t != from).map_values(|t: u32| (from, t)) =~= ids@.take(j as int).filter(|t: u32| t != from).map_values(|t: u32| (from, t)).push((from, to)));
                }
            } else {
                proof {
                    reveal(Seq::filter);
                    assert(ids@.take(j + 1).filter(|t: u32| t != from) =~= ids@.take(j as int).filter(|t: u32| t != from));
                }
            }
            j += 1;
        }
        proof {
            assert(ids@.take(n as int) =~= ids@);
        }
        i += 1;
    }
    pairs
}

/// Whether the relation `from -> to` survives: both polities are active
/// and they are different.
pub fn keep_polity_relation(from: PolityId, to: PolityId, active: &[PolityId]) -> (r: bool)
    ensures
        r == (active@.contains(from) && active@.contains(to) && from != to),
{
    let mut has_from = false;
    let mut has_to = false;
    let mut k: usize = 0;
    while k < active.len()
        invariant
            0 <= k <= active@.len(),
            has_from == active@.take(k as int).contains(from),
            has_to == active@.take(k as int).contains(to),
        decreases active@.len() - k,
    {
        proof {
            assert(active@.take(k + 1) =~= active@.take(k as int).push(active@[k as int]));
            vstd::seq_lib::lemma_seq_contains_after_push(active@.take(k as int), active@[k as int], from);
            vstd::seq_lib::lemma_seq_contains_after_push(active@.take(k as int), active@[k as int], to);
        }
        if active[k] == from {
            has_from = true;
        }
        if active[k] == to {
            has_to = true;
        }
        k += 1;
    }
    proof {
        assert(active@.take(active@.len() as int) =~= active@);
    }
    has_from && has_to && from != to
}

} // verus!
