//! A set of boundary vertices that remembers the order of insertion.
use vstd::prelude::*;

verus! {

/// Vertices flagged in `mask`, each listed once in `indices` in the order
/// they were inserted.
pub struct BoundaryVertices {
    pub mask: Vec<bool>,
    pub indices: Vec<usize>,
}

impl BoundaryVertices {
    /// The flags and the list agree: the list has no repeats, lists only
    /// vertices of the mask, and lists exactly the flagged ones.
    pub open spec fn wf(&self) -> bool {
        &&& self.indices@.no_duplicates()
        &&& forall|k: int| 0 <= k < self.indices@.len() ==> #[trigger] self.indices@[k] < self.mask@.len()
        &&& forall|v: usize| v < self.mask@.len() ==> (#[trigger] self.mask@[v as int] <==> self.indices@.contains(v))
    }

    /// No vertex of `len` vertices is flagged.
    pub fn new(len: usize) -> (r: Self)
        ensures
            r.mask@ == Seq::new(len as nat, |i: int| false),
            r.indices@.len() == 0,
            r.wf(),
    {
        BoundaryVertices { mask: vec![false; len], indices: Vec::new() }
    }

    /// Flags `v` and appends it to the list, unless it is flagged already.
    pub fn insert(&mut self, v: usize)
        requires
            v < old(self).mask@.len(),
        ensures
            final(self).mask@ == old(self).mask@.update(v as int, true),
            final(self).indices@ == if old(self).mask@[v as int] {
                old(self).indices@
            } else {
                old(self).indices@.push(v)
            },
            old(self).wf() ==> final(self).wf(),
    {
        if self.mask[v] {
            proof {
                assert(self.mask@.update(v as int, true) =~= self.mask@);
            }
            return;
        }
        let ghost before = self.indices@;
        let ghost wf0 = self.wf();
        let ghost mask0 = self.mask@;
        self.mask.set(v, true);
        self.indices.push(v);
        proof {
            if wf0 {
                assert(!before.contains(v));
                assert forall|a: int, b: int| 0 <= a < b < self.indices@.len() implies self.indices@[a] != self.indices@[b] by {
                    if b == before.len() {
                        assert(before.contains(before[a]));
                    }
                }
                assert forall|k: int| 0 <= k < self.indices@.len() implies #[trigger] self.indices@[k] < self.mask@.len() by {
                    if k < before.len() {
                        assert(self.indices@[k] == before[k]);
                    }
                }
                assert forall|w: usize| w < self.mask@.len() implies (#[trigger] self.mask@[w as int] <==> self.indices@.contains(w)) by {
                    if w == v {
                        assert(self.indices@[before.len() as int] == v);
                    } else {
                        assert(self.mask@[w as int] == mask0[w as int]);
                        if self.indices@.contains(w) {
                            let k = choose|k: int| 0 <= k < self.indices@.len() && self.indices@[k] == w;
                            if k < before.len() {
                                assert(before[k] == w);
                            }
                        }
                        if before.contains(w) {
                            let k = choose|k: int| 0 <= k < before.len() && before[k] == w;
                            assert(self.indices@[k] == w);
                        }
                    }
                }
            }
        }
    }
}

} // verus!
