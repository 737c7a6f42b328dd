//! Cell adjacency of the spherical mesh in compressed (CSR) form: the
//! neighbours of cell `c` are `nbrs[nbr_offsets[c]..nbr_offsets[c + 1]]`.
use vstd::prelude::*;
use vstd::slice::slice_subrange;

verus! {

/// A well-formed adjacency of `n` cells: offsets are non-decreasing, start at
/// any value, end within `nbrs`, and every neighbour is a cell.
pub open spec fn valid_csr(offsets: Seq<u32>, nbrs: Seq<u32>, n: int) -> bool {
    &&& offsets.len() == n + 1
    &&& forall|i: int, j: int| 0 <= i <= j <= n ==> #[trigger] offsets[i] <= #[trigger] offsets[j]
    &&& offsets[n] <= nbrs.len()
    &&& forall|k: int| 0 <= k < nbrs.len() ==> #[trigger] nbrs[k] < n
}

/// The neighbour range of cell `v` can be read: both of its offsets exist,
/// are in order and lie within `nbrs`, and every entry of the range names
/// one of the `n` cells.
pub open spec fn readable_range(offsets: Seq<u32>, nbrs: Seq<u32>, n: int, v: int) -> bool {
    &&& 0 <= v
    &&& v + 1 < offsets.len()
    &&& offsets[v] <= offsets[v + 1]
    &&& offsets[v + 1] <= nbrs.len()
    &&& forall|k: int| offsets[v] <= k < offsets[v + 1] ==> #[trigger] nbrs[k] < n
}

/// The neighbour list of `cell`, when the offsets describe a valid range of `nbrs`.
pub open spec fn neighbor_list(offsets: Seq<u32>, nbrs: Seq<u32>, cell: int) -> Option<Seq<u32>> {
    if 0 <= cell && cell + 1 < offsets.len() && offsets[cell] <= offsets[cell + 1]
        && offsets[cell + 1] <= nbrs.len() {
        Some(nbrs.subrange(offsets[cell] as int, offsets[cell + 1] as int))
    } else {
        None
    }
}

/// `b` occurs in the neighbour list of `a`.
pub open spec fn adjacent(offsets: Seq<u32>, nbrs: Seq<u32>, a: int, b: int) -> bool {
    match neighbor_list(offsets, nbrs, a) {
        Some(list) => exists|t: int| 0 <= t < list.len() && #[trigger] list[t] as int == b,
        None => false,
    }
}

/// The neighbours of `cell`, or `None` when its offsets are missing or do not
/// describe a range of `nbrs`.
pub fn cell_neighbors<'a>(cell: usize, nbr_offsets: &[u32], nbrs: &'a [u32]) -> (r: Option<&'a [u32]>)
    ensures
        match r {
            Some(list) => neighbor_list(nbr_offsets@, nbrs@, cell as int) == Some(list@),
            None => neighbor_list(nbr_offsets@, nbrs@, cell as int) is None,
        },
{
    if cell >= nbr_offsets.len() || cell + 1 >= nbr_offsets.len() {
        return None;
    }
    let start = nbr_offsets[cell] as usize;
    let end = nbr_offsets[cell + 1] as usize;
    if start > end || end > nbrs.len() {
        return None;
    }
    Some(slice_subrange(nbrs, start, end))
}

/// The neighbours of `cell`, or an empty list when they cannot be read.
pub fn cell_neighbors_or_empty<'a>(cell: usize, nbr_offsets: &[u32], nbrs: &'a [u32]) -> (r: &'a [u32])
    ensures
        match neighbor_list(nbr_offsets@, nbrs@, cell as int) {
            Some(list) => r@ == list,
            None => r@.len() == 0,
        },
{
    match cell_neighbors(cell, nbr_offsets, nbrs) {
        Some(list) => list,
        None => slice_subrange(nbrs, 0, 0),
    }
}

/// Whether `b` is listed among the neighbours of `a`.
pub fn cells_are_neighbors(a: usize, b: usize, nbr_offsets: &[u32], nbrs: &[u32]) -> (r: bool)
    ensures
        r == adjacent(nbr_offsets@, nbrs@, a as int, b as int),
{
    match cell_neighbors(a, nbr_offsets, nbrs) {
        Some(list) => {
            let mut k: usize = 0;
            while k < list.len()
                invariant
                    0 <= k <= list@.len(),
                    neighbor_list(nbr_offsets@, nbrs@, a as int) == Some(list@),
                    forall|t: int| 0 <= t < k ==> #[trigger] list@[t] as int != b as int,
                decreases list@.len() - k,
            {
                if list[k] as usize == b {
                    assert(list@[k as int] as int == b as int);
                    assert(adjacent(nbr_offsets@, nbrs@, a as int, b as int)) by {
                        let l = neighbor_list(nbr_offsets@, nbrs@, a as int)->Some_0;
                        assert(l[k as int] as int == b as int);
                    }
                    return true;
                }
                k += 1;
            }
            false
        },
        None => false,
    }
}

} // verus!
