//! Whether a cell can leave a plate without splitting the plate's cells
//! around it.
use vstd::prelude::*;
use crate::geology_types::PlateId;
use crate::mesh::{adjacent, cell_neighbors_or_empty, cells_are_neighbors, neighbor_list};

verus! {

/// The neighbour list of `cell`, or nothing when it cannot be read.
pub open spec fn neighbors_or_empty(offsets: Seq<u32>, nbrs: Seq<u32>, cell: int) -> Seq<u32> {
    match neighbor_list(offsets, nbrs, cell) {
        Some(list) => list,
        None => Seq::empty(),
    }
}

/// Whether neighbour entry `n` is a cell labelled with `donor`.
pub open spec fn labelled_donor(labels: Seq<Option<PlateId>>, donor: PlateId, n: u32) -> bool {
    (n as int) < labels.len() && labels[n as int] == Some(donor)
}

/// The neighbours of `cell` that belong to `donor`, in neighbour order.
pub open spec fn donor_neighbors(offsets: Seq<u32>, nbrs: Seq<u32>, labels: Seq<Option<PlateId>>, donor: PlateId, cell: int) -> Seq<usize> {
    neighbors_or_empty(offsets, nbrs, cell).filter(|n: u32| labelled_donor(labels, donor, n)).map_values(|n: u32| n as usize)
}

/// `p` steps from neighbour to neighbour, staying among the cells of `d`.
pub open spec fn chain_within(offsets: Seq<u32>, nbrs: Seq<u32>, d: Seq<usize>, p: Seq<usize>) -> bool {
    &&& p.len() >= 1
    &&& forall|i: int| 0 <= i < p.len() ==> d.contains(#[trigger] p[i])
    &&& forall|i: int| 0 <= i < p.len() - 1 ==> #[trigger] adjacent(offsets, nbrs, p[i] as int, p[i + 1] as int)
}

/// The cells of `d` that a chain within `d` leads to from `d[0]`.
pub open spec fn chained_from_first(offsets: Seq<u32>, nbrs: Seq<u32>, d: Seq<usize>) -> Set<usize> {
    Set::new(|x: usize| exists|p: Seq<usize>| #[trigger] chain_within(offsets, nbrs, d, p) && p[0] == d[0] && p.last() == x)
}

proof fn lemma_chain_extend(offsets: Seq<u32>, nbrs: Seq<u32>, d: Seq<usize>, x: usize, y: usize)
    requires
        d.len() > 0,
        chained_from_first(offsets, nbrs, d).contains(x),
        d.contains(y),
        adjacent(offsets, nbrs, x as int, y as int),
    ensures
        chained_from_first(offsets, nbrs, d).contains(y),
{
    let p = choose|p: Seq<usize>| #[trigger] chain_within(offsets, nbrs, d, p) && p[0] == d[0] && p.last() == x;
    let q = p.push(y);
    assert forall|i: int| 0 <= i < q.len() implies d.contains(#[trigger] q[i]) by {
        if i < p.len() {
            assert(q[i] == p[i]);
        }
    }
    assert forall|i: int| 0 <= i < q.len() - 1 implies #[trigger] adjacent(offsets, nbrs, q[i] as int, q[i + 1] as int) by {
        if i < p.len() - 1 {
            assert(q[i] == p[i] && q[i + 1] == p[i + 1]);
        }
    }
    assert(chain_within(offsets, nbrs, d, q));
}

/// Every cell on a chain from `d[0]` lies in a set that holds `d[0]` and is
/// closed under steps within `d`.
proof fn lemma_chain_closed(offsets: Seq<u32>, nbrs: Seq<u32>, d: Seq<usize>, s: Set<usize>, p: Seq<usize>, i: int)
    requires
        chain_within(offsets, nbrs, d, p),
        d.len() > 0,
        p[0] == d[0],
        s.contains(d[0]),
        forall|a: usize, b: usize| s.contains(a) && d.contains(b) && #[trigger] adjacent(offsets, nbrs, a as int, b as int) ==> s.contains(b),
        0 <= i < p.len(),
    ensures
        s.contains(p[i]),
    decreases i,
{
    if i > 0 {
        lemma_chain_closed(offsets, nbrs, d, s, p, i - 1);
        let j = i - 1;
        assert(adjacent(offsets, nbrs, p[j] as int, p[j + 1] as int));
        assert(d.contains(p[j + 1]));
    }
}

fn seq_contains(v: &Vec<usize>, x: usize) -> (r: bool)
    ensures
        r == v@.contains(x),
{
    let mut k: usize = 0;
    while k < v.len()
        invariant
            0 <= k <= v@.len(),
            forall|j: int| 0 <= j < k ==> v@[j] != x,
        decreases v@.len() - k,
    {
        if v[k] == x {
            return true;
        }
        k += 1;
    }
    false
}

/// Whether `cell` can change hands without cutting `donor` apart around it:
/// true when `cell` has at most one neighbour of `donor`, and otherwise
/// when those neighbours (listed once each) are all linked to the first of
/// them through steps between themselves.
pub fn is_simple_donor_cell(
    cell: usize,
    donor: PlateId,
    labels: &[Option<PlateId>],
    nbr_offsets: &[u32],
    nbrs: &[u32],
) -> (r: bool)
    ensures
        ({
            let d = donor_neighbors(nbr_offsets@, nbrs@, labels@, donor, cell as int);
            r == (d.len() <= 1 || chained_from_first(nbr_offsets@, nbrs@, d).len() == d.len())
        }),
{
    let list = cell_neighbors_or_empty(cell, nbr_offsets, nbrs);
    let ghost l = neighbors_or_empty(nbr_offsets@, nbrs@, cell as int);
    let ghost pred = |n: u32| labelled_donor(labels@, donor, n);
    proof {
        assert(list@ == l);
    }
    let mut donor_nbrs: Vec<usize> = Vec::new();
    let mut k: usize = 0;
    while k < list.len()
        invariant
            0 <= k <= list@.len(),
            list@ == l,
            pred == (|n: u32| labelled_donor(labels@, donor, n)),
            donor_nbrs@ == l.take(k as int).filter(pred).map_values(|n: u32| n as usize),
        decreases list@.len() - k,
    {
        let n = list[k] as usize;
        proof {
            assert(l.take(k + 1).drop_last() =~= l.take(k as int));
            reveal(Seq::filter);
        }
        let is_donor = n < labels.len() && match labels[n] {
            Some(p) => p.0 == donor.0,
            None => false,
        };
        if is_donor {
            donor_nbrs.push(n);
            proof {
                assert(l.take(k + 1).filter(pred) =~= l.take(k as int).filter(pred).push(list@[k as int]));
                assert(donor_nbrs@ =~= l.take(k + 1).filter(pred).map_values(|n: u32| n as usize));
            }
        } else {
            proof {
                assert(l.take(k + 1).filter(pred) =~= l.take(k as int).filter(pred));
            }
        }
        k += 1;
    }
    proof {
        assert(l.take(l.len() as int) =~= l);
    }
    let ghost d = donor_nbrs@;
    let ghost comp = chained_from_first(nbr_offsets@, nbrs@, d);
    if donor_nbrs.len() <= 1 {
        return true;
    }
    let mut reached: Vec<usize> = vec![donor_nbrs[0]];
    proof {
        let p = seq![d[0]];
        assert(chain_within(nbr_offsets@, nbrs@, d, p));
        assert(comp.contains(d[0]));
    }
    let mut cursor: usize = 0;
    while cursor < reached.len()
        invariant
            0 <= cursor <= reached@.len(),
            d == donor_nbrs@,
            d.len() >= 2,
            comp == chained_from_first(nbr_offsets@, nbrs@, d),
            reached@.len() >= 1,
            reached@[0] == d[0],
            reached@.no_duplicates(),
            reached@.len() <= d.len(),
            forall|t: int| 0 <= t < reached@.len() ==> d.contains(#[trigger] reached@[t]) && comp.contains(reached@[t]),
            forall|t: int, b: usize| 0 <= t < cursor && d.contains(b) && #[trigger] adjacent(nbr_offsets@, nbrs@, reached@[t] as int, b as int)
                ==> reached@.contains(b),
        decreases d.len() - cursor,
    {
        let current = reached[cursor];
        cursor += 1;
        let mut j: usize = 0;
        while j < donor_nbrs.len()
            invariant
                0 <= j <= d.len(),
                1 <= cursor <= reached@.len(),
                d == donor_nbrs@,
                d.len() >= 2,
                comp == chained_from_first(nbr_offsets@, nbrs@, d),
                current == reached@[cursor - 1],
                reached@.len() >= 1,
                reached@[0] == d[0],
                reached@.no_duplicates(),
                forall|t: int| 0 <= t < reached@.len() ==> d.contains(#[trigger] reached@[t]) && comp.contains(reached@[t]),
                forall|t: int, b: usize| 0 <= t < cursor - 1 && d.contains(b) && #[trigger] adjacent(nbr_offsets@, nbrs@, reached@[t] as int, b as int)
                    ==> reached@.contains(b),
                forall|i: int| 0 <= i < j && #[trigger] adjacent(nbr_offsets@, nbrs@, current as int, d[i] as int) ==> reached@.contains(d[i]),
            decreases d.len() - j,
        {
            let candidate = donor_nbrs[j];
            let ghost before = reached@;
            if !seq_contains(&reached, candidate) && cells_are_neighbors(current, candidate, nbr_offsets, nbrs) {
                reached.push(candidate);
                proof {
                    lemma_chain_extend(nbr_offsets@, nbrs@, d, current, candidate);
                    assert(d.contains(d[j as int]));
                    assert forall|a: int, b: int| 0 <= a < b < reached@.len() implies reached@[a] != reached@[b] by {
                        if b == before.len() {
                            assert(before.contains(before[a]));
                        }
                    }
                    assert forall|t: int| 0 <= t < reached@.len() implies d.contains(#[trigger] reached@[t]) && comp.contains(reached@[t]) by {
                        if t < before.len() {
                            assert(reached@[t] == before[t]);
                        }
                    }
                }
            }
            proof {
                assert forall|t: int, b: usize| 0 <= t < cursor - 1 && d.contains(b) && #[trigger] adjacent(nbr_offsets@, nbrs@, reached@[t] as int, b as int)
                    implies reached@.contains(b) by {
                    assert(reached@[t] == before[t]);
                    let w = choose|w: int| 0 <= w < before.len() && before[w] == b;
                    assert(reached@[w] == b);
                }
                assert forall|i: int| 0 <= i < j + 1 && #[trigger] adjacent(nbr_offsets@, nbrs@, current as int, d[i] as int) implies reached@.contains(d[i]) by {
                    if i < j {
                        let w = choose|w: int| 0 <= w < before.len() && before[w] == d[i];
                        assert(reached@[w] == d[i]);
                    } else if before.contains(d[i]) {
                        let w = choose|w: int| 0 <= w < before.len() && before[w] == d[i];
                        assert(reached@[w] == d[i]);
                    } else {
                        assert(reached@[reached@.len() - 1] == d[i]);
                    }
                }
            }
            j += 1;
        }
        proof {
            assert forall|t: int, b: usize| 0 <= t < cursor && d.contains(b) && #[trigger] adjacent(nbr_offsets@, nbrs@, reached@[t] as int, b as int)
                implies reached@.contains(b) by {
                if t == cursor - 1 {
                    let i = choose|i: int| 0 <= i < d.len() && d[i] == b;
                    assert(adjacent(nbr_offsets@, nbrs@, current as int, d[i] as int));
                }
            }
            reached@.unique_seq_to_set();
            assert(reached@.to_set().subset_of(d.to_set()));
            vstd::set_lib::lemma_len_subset(reached@.to_set(), d.to_set());
            d.lemma_cardinality_of_set();
        }
    }
    proof {
        let rs = reached@.to_set();
        assert forall|a: usize, b: usize| rs.contains(a) && d.contains(b) && #[trigger] adjacent(nbr_offsets@, nbrs@, a as int, b as int)
            implies rs.contains(b) by {
            let t = choose|t: int| 0 <= t < reached@.len() && reached@[t] == a;
            assert(reached@.contains(b));
        }
        assert(rs.contains(d[0])) by {
            assert(reached@[0] == d[0]);
        }
        assert forall|x: usize| comp.contains(x) implies rs.contains(x) by {
            let p = choose|p: Seq<usize>| #[trigger] chain_within(nbr_offsets@, nbrs@, d, p) && p[0] == d[0] && p.last() == x;
            lemma_chain_closed(nbr_offsets@, nbrs@, d, rs, p, p.len() - 1);
        }
        assert forall|x: usize| rs.contains(x) implies comp.contains(x) by {
            let t = choose|t: int| 0 <= t < reached@.len() && reached@[t] == x;
        }
        assert(rs =~= comp);
        reached@.unique_seq_to_set();
    }
    reached.len() == donor_nbrs.len()
}

} // verus!
