//! The multiple-flow-direction network: for every cell, its downstream
//! links, read from a compressed (CSR) table. A link names the downstream
//! cell and the position of its weight in the table's weight column.
use vstd::prelude::*;
use smallvec::SmallVec;

verus! {

/// The downstream links of one cell, kept in a `SmallVec` (inline up to
/// four links): pairs of a downstream cell and the position of the link's
/// weight. Verus does not read the field; `link_items` names its contents.
#[verifier::external_body]
pub struct DownstreamLinks {
    links: SmallVec<[(u32, usize); 4]>,
}

/// The links held by a list, in order.
pub uninterp spec fn link_items(v: DownstreamLinks) -> Seq<(u32, usize)>;

/// `SmallVec::new`: an empty list.
#[verifier::external_body]
fn new_links() -> (r: DownstreamLinks)
    ensures
        link_items(r) == Seq::<(u32, usize)>::empty(),
{
    DownstreamLinks { links: SmallVec::new() }
}

/// `SmallVec::push`: appends `item` at the end. The crate panics only when
/// the grown capacity would overflow, far beyond the bound required here.
#[verifier::external_body]
fn push_link(v: &mut DownstreamLinks, item: (u32, usize))
    requires
        link_items(*old(v)).len() < 0x0800_0000_0000_0000,
    ensures
        link_items(*final(v)) == link_items(*old(v)).push(item),
{
    v.links.push(item)
}

impl DownstreamLinks {
    /// `SmallVec::as_slice`: the links, in order.
    #[verifier::external_body]
    fn as_slice(&self) -> (r: &[(u32, usize)])
        ensures
            r@ == link_items(*self),
    {
        self.links.as_slice()
    }

    /// The links, in order.
    pub fn to_vec(&self) -> (r: Vec<(u32, usize)>)
        ensures
            r@ == link_items(*self),
    {
        let items = self.as_slice();
        let mut out: Vec<(u32, usize)> = Vec::with_capacity(items.len());
        let mut k: usize = 0;
        while k < items.len()
            invariant
                0 <= k <= items@.len(),
                out@ == items@.take(k as int),
            decreases items@.len() - k,
        {
            out.push(items[k]);
            proof {
                assert(items@.take(k + 1) =~= items@.take(k as int).push(items@[k as int]));
            }
            k += 1;
        }
        proof {
            assert(items@.take(items@.len() as int) =~= items@);
        }
        out
    }
}

/// The links of cell `i` in the table: one per slot `offsets[i]..offsets[i + 1]`,
/// or none when that range is empty or runs past the cell column.
pub open spec fn csr_links(offsets: Seq<u32>, cells: Seq<u32>, i: int) -> Seq<(u32, usize)> {
    let start = offsets[i] as int;
    let end = offsets[i + 1] as int;
    if start >= end || end > cells.len() {
        Seq::empty()
    } else {
        Seq::new((end - start) as nat, |k: int| (cells[start + k], (start + k) as usize))
    }
}

/// Reads the downstream links of `cell_count` cells from the table. When the
/// offsets do not have one entry per cell plus one, or the cell and weight
/// columns differ in length, every cell gets no links.
pub fn downstream_from_csr(cell_count: usize, offsets: &[u32], cells: &[u32], weight_count: usize) -> (r: Vec<DownstreamLinks>)
    requires
        cell_count < usize::MAX,
        cells@.len() < 0x0800_0000_0000_0000,
    ensures
        r@.len() == cell_count,
        forall|i: int| 0 <= i < cell_count ==> #[trigger] link_items(r@[i]) == if offsets@.len() != cell_count + 1
            || cells@.len() != weight_count {
            Seq::<(u32, usize)>::empty()
        } else {
            csr_links(offsets@, cells@, i)
        },
{
    let mut result: Vec<DownstreamLinks> = Vec::new();
    let mut c: usize = 0;
    while c < cell_count
        invariant
            0 <= c <= cell_count,
            result@.len() == c,
            forall|i: int| 0 <= i < c ==> #[trigger] link_items(result@[i]) == Seq::<(u32, usize)>::empty(),
        decreases cell_count - c,
    {
        result.push(new_links());
        c += 1;
    }
    if offsets.len() != cell_count + 1 || cells.len() != weight_count {
        return result;
    }
    let mut i: usize = 0;
    while i < cell_count
        invariant
            0 <= i <= cell_count,
            offsets@.len() == cell_count + 1,
            cells@.len() < 0x0800_0000_0000_0000,
            result@.len() == cell_count,
            forall|j: int| 0 <= j < i ==> #[trigger] link_items(result@[j]) == csr_links(offsets@, cells@, j),
            forall|j: int| i <= j < cell_count ==> #[trigger] link_items(result@[j]) == Seq::<(u32, usize)>::empty(),
        decreases cell_count - i,
    {
        let start = offsets[i] as usize;
        let end = offsets[i + 1] as usize;
        if start >= end || end > cells.len() {
            i += 1;
            continue;
        }
        let ghost before = result@;
        result.push(new_links());
        let mut links = result.swap_remove(i);
        let mut idx = start;
        while idx < end
            invariant
                start <= idx <= end,
                end <= cells@.len(),
                cells@.len() < 0x0800_0000_0000_0000,
                start == offsets@[i as int],
                end == offsets@[i + 1],
                link_items(links) == Seq::new((idx - start) as nat, |k: int| (cells@[start + k], (start + k) as usize)),
            decreases end - idx,
        {
            push_link(&mut links, (cells[idx], idx));
            proof {
                assert(link_items(links) =~= Seq::new((idx + 1 - start) as nat, |k: int| (cells@[start + k], (start + k) as usize)));
            }
            idx += 1;
        }
        result.set(i, links);
        proof {
            assert forall|j: int| 0 <= j < i + 1 implies #[trigger] link_items(result@[j]) == csr_links(offsets@, cells@, j) by {
                if j < i {
                    assert(result@[j] == before[j]);
                }
            }
            assert forall|j: int| i + 1 <= j < cell_count implies #[trigger] link_items(result@[j]) == Seq::<(u32, usize)>::empty() by {
                assert(result@[j] == before[j]);
            }
        }
        i += 1;
    }
    result
}

} // verus!
