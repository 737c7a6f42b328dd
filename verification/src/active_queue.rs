//! The work queue of the asynchronous erosion automaton and its change log.
//!
//! Cells waiting for an update sit in `active_queue[active_head..]`;
//! `in_queue[v] != 0` marks a cell as waiting, so it is not queued twice.
//! Cells changed during a step are recorded once in `recent_changed`.
use vstd::prelude::*;

verus! {

/// The automaton's queue of cells waiting for an update.
pub struct ActiveQueue {
    pub active_queue: Vec<u32>,
    pub active_head: usize,
    pub in_queue: Vec<u8>,
}

/// Queue entry `p` names a cell that is still waiting.
pub open spec fn is_live(q: Seq<u32>, inq: Seq<u8>, p: int) -> bool {
    (q[p] as int) < inq.len() && inq[q[p] as int] != 0
}

/// The first position at or after `from` whose entry is live, or `from`
/// itself once the queue is exhausted.
pub open spec fn next_live(q: Seq<u32>, inq: Seq<u8>, from: int) -> int
    decreases q.len() - from,
{
    if from >= q.len() {
        from
    } else if is_live(q, inq, from) {
        from
    } else {
        next_live(q, inq, from + 1)
    }
}

proof fn lemma_next_live_bounds(q: Seq<u32>, inq: Seq<u8>, from: int)
    requires
        0 <= from,
    ensures
        from <= next_live(q, inq, from),
        next_live(q, inq, from) < q.len() ==> is_live(q, inq, next_live(q, inq, from)),
        next_live(q, inq, from) >= q.len() ==> next_live(q, inq, from) == if from >= q.len() {
            from
        } else {
            q.len() as int
        },
        forall|p: int| from <= p < next_live(q, inq, from) ==> !#[trigger] is_live(q, inq, p),
    decreases q.len() - from,
{
    if from < q.len() && !is_live(q, inq, from) {
        lemma_next_live_bounds(q, inq, from + 1);
    }
}

/// The queue after enqueuing `v`: a cell that is out of range or already
/// waiting is left alone, otherwise it is marked and appended.
pub open spec fn enqueue_spec(q: Seq<u32>, inq: Seq<u8>, v: int) -> (Seq<u32>, Seq<u8>) {
    if v < 0 || v >= inq.len() || inq[v] != 0 {
        (q, inq)
    } else {
        (q.push(v as u32), inq.update(v, 1u8))
    }
}

/// Enqueuing every cell of `list` in order.
pub open spec fn enqueue_all_spec(q: Seq<u32>, inq: Seq<u8>, list: Seq<u32>) -> (Seq<u32>, Seq<u8>)
    decreases list.len(),
{
    if list.len() == 0 {
        (q, inq)
    } else {
        let (q1, i1) = enqueue_all_spec(q, inq, list.drop_last());
        enqueue_spec(q1, i1, list.last() as int)
    }
}

/// The change log after recording `v`: out-of-range or already recorded
/// cells are left alone, otherwise the cell is marked and appended.
pub open spec fn mark_spec(mark: Seq<u8>, log: Seq<u32>, v: int) -> (Seq<u8>, Seq<u32>) {
    if v < 0 || v >= mark.len() || mark[v] != 0 {
        (mark, log)
    } else {
        (mark.update(v, 1u8), log.push(v as u32))
    }
}

/// Recording every cell of `list` in order.
pub open spec fn mark_all_spec(mark: Seq<u8>, log: Seq<u32>, list: Seq<u32>) -> (Seq<u8>, Seq<u32>)
    decreases list.len(),
{
    if list.len() == 0 {
        (mark, log)
    } else {
        let (m1, l1) = mark_all_spec(mark, log, list.drop_last());
        mark_spec(m1, l1, list.last() as int)
    }
}

/// The neighbour range of `v` can be read from the offsets.
pub open spec fn neighbor_range_ok(offsets: Seq<u32>, nbrs: Seq<u32>, v: int) -> bool {
    0 <= v && v + 1 < offsets.len() && offsets[v] <= offsets[v + 1] && offsets[v + 1] <= nbrs.len()
}

/// The neighbours of `v`.
pub open spec fn neighbors_of(offsets: Seq<u32>, nbrs: Seq<u32>, v: int) -> Seq<u32> {
    nbrs.subrange(offsets[v] as int, offsets[v + 1] as int)
}

/// The queue's bookkeeping is consistent: the head lies within the queue,
/// every cell fits in a queue entry, and every waiting cell has an entry
/// in the unconsumed part `q[head..]`.
pub open spec fn queue_wf(q: Seq<u32>, inq: Seq<u8>, head: int) -> bool {
    &&& 0 <= head <= q.len()
    &&& inq.len() <= u32::MAX
    &&& forall|v: int| 0 <= v < inq.len() && #[trigger] inq[v] != 0 ==> exists|p: int| head <= p < q.len() && #[trigger] q[p] as int == v
}

/// The change log is consistent: it has no repeated cell, it lists only
/// cells of the mesh, and it lists exactly the cells marked as changed.
pub open spec fn change_log_wf(mark: Seq<u8>, log: Seq<u32>) -> bool {
    &&& mark.len() <= u32::MAX
    &&& log.no_duplicates()
    &&& forall|k: int| 0 <= k < log.len() ==> (#[trigger] log[k] as int) < mark.len()
    &&& forall|v: int| 0 <= v < mark.len() ==> (#[trigger] mark[v] != 0 <==> log.contains(v as u32))
}

/// Enqueuing keeps the queue consistent, and afterwards the cell (when it
/// is a cell of the mesh) is waiting in the unconsumed part of the queue.
pub proof fn lemma_enqueue_keeps_queue_wf(q: Seq<u32>, inq: Seq<u8>, head: int, v: int)
    requires
        queue_wf(q, inq, head),
    ensures
        queue_wf(enqueue_spec(q, inq, v).0, enqueue_spec(q, inq, v).1, head),
        0 <= v < inq.len() ==> enqueue_spec(q, inq, v).1[v] != 0,
        0 <= v < inq.len() ==> exists|p: int| head <= p < enqueue_spec(q, inq, v).0.len() && #[trigger] enqueue_spec(q, inq, v).0[p] as int == v,
{
    let (q2, i2) = enqueue_spec(q, inq, v);
    if !(v < 0 || v >= inq.len() || inq[v] != 0) {
        assert forall|w: int| 0 <= w < i2.len() && #[trigger] i2[w] != 0 implies exists|p: int| head <= p < q2.len() && #[trigger] q2[p] as int == w by {
            if w == v {
                assert(q2[q.len() as int] as int == w);
            } else {
                let p = choose|p: int| head <= p < q.len() && #[trigger] q[p] as int == w;
                assert(q2[p] == q[p]);
            }
        }
    }
    if 0 <= v < inq.len() {
        assert(i2[v] != 0);
    }
}

/// Enqueuing a list of cells keeps the queue consistent.
pub proof fn lemma_enqueue_all_keeps_queue_wf(q: Seq<u32>, inq: Seq<u8>, head: int, list: Seq<u32>)
    requires
        queue_wf(q, inq, head),
    ensures
        queue_wf(enqueue_all_spec(q, inq, list).0, enqueue_all_spec(q, inq, list).1, head),
    decreases list.len(),
{
    if list.len() > 0 {
        lemma_enqueue_all_keeps_queue_wf(q, inq, head, list.drop_last());
        let (q1, i1) = enqueue_all_spec(q, inq, list.drop_last());
        lemma_enqueue_keeps_queue_wf(q1, i1, head, list.last() as int);
    }
}

/// Enqueuing the same cell twice is the same as enqueuing it once.
pub proof fn lemma_enqueue_idempotent(q: Seq<u32>, inq: Seq<u8>, v: int)
    ensures
        enqueue_spec(enqueue_spec(q, inq, v).0, enqueue_spec(q, inq, v).1, v) == enqueue_spec(q, inq, v),
{
}

/// Recording a cell keeps the change log consistent.
pub proof fn lemma_mark_keeps_change_log_wf(mark: Seq<u8>, log: Seq<u32>, v: int)
    requires
        change_log_wf(mark, log),
    ensures
        change_log_wf(mark_spec(mark, log, v).0, mark_spec(mark, log, v).1),
        0 <= v < mark.len() ==> mark_spec(mark, log, v).1.contains(v as u32),
{
    let (m2, l2) = mark_spec(mark, log, v);
    if !(v < 0 || v >= mark.len() || mark[v] != 0) {
        assert(!log.contains(v as u32));
        assert forall|i: int, j: int| 0 <= i < j < l2.len() implies l2[i] != l2[j] by {
            if j == log.len() {
                assert(log.contains(log[i]));
            }
        }
        assert forall|k: int| 0 <= k < l2.len() implies (#[trigger] l2[k] as int) < m2.len() by {
            if k < log.len() {
                assert(l2[k] == log[k]);
            }
        }
        assert forall|w: int| 0 <= w < m2.len() implies (#[trigger] m2[w] != 0 <==> l2.contains(w as u32)) by {
            if w != v {
                if l2.contains(w as u32) {
                    let k = choose|k: int| 0 <= k < l2.len() && l2[k] == w as u32;
                    if k < log.len() {
                        assert(log.contains(w as u32));
                    }
                }
                if log.contains(w as u32) {
                    let k = choose|k: int| 0 <= k < log.len() && log[k] == w as u32;
                    assert(l2[k] == w as u32);
                }
            } else {
                assert(l2[log.len() as int] == w as u32);
            }
        }
    }
    if 0 <= v < mark.len() {
        if mark[v] != 0 {
            assert(log.contains(v as u32));
        } else {
            assert(l2[log.len() as int] == v as u32);
        }
    }
}

/// Recording a list of cells keeps the change log consistent.
pub proof fn lemma_mark_all_keeps_change_log_wf(mark: Seq<u8>, log: Seq<u32>, list: Seq<u32>)
    requires
        change_log_wf(mark, log),
    ensures
        change_log_wf(mark_all_spec(mark, log, list).0, mark_all_spec(mark, log, list).1),
    decreases list.len(),
{
    if list.len() > 0 {
        lemma_mark_all_keeps_change_log_wf(mark, log, list.drop_last());
        let (m1, l1) = mark_all_spec(mark, log, list.drop_last());
        lemma_mark_keeps_change_log_wf(m1, l1, list.last() as int);
    }
}

/// Recording the same cell twice is the same as recording it once.
pub proof fn lemma_mark_idempotent(mark: Seq<u8>, log: Seq<u32>, v: int)
    ensures
        mark_spec(mark_spec(mark, log, v).0, mark_spec(mark, log, v).1, v) == mark_spec(mark, log, v),
{
}

impl ActiveQueue {
    /// The queue's bookkeeping is consistent (see `queue_wf`).
    pub open spec fn wf(&self) -> bool {
        queue_wf(self.active_queue@, self.in_queue@, self.active_head as int)
    }

    /// Takes the first waiting cell off the queue, skipping stale entries.
    pub fn pop_active_vertex(&mut self) -> (r: Option<usize>)
        ensures
            ({
                let p = next_live(
                    old(self).active_queue@,
                    old(self).in_queue@,
                    old(self).active_head as int,
                );
                let q = old(self).active_queue@;
                &&& final(self).active_queue@ == q
                &&& if p < q.len() {
                    &&& r == Some(q[p] as usize)
                    &&& final(self).active_head == p + 1
                    &&& final(self).in_queue@ == old(self).in_queue@.update(q[p] as int, 0u8)
                } else {
                    &&& r is None
                    &&& final(self).active_head == p
                    &&& final(self).in_queue@ == old(self).in_queue@
                }
            }),
            old(self).wf() ==> final(self).wf(),
            old(self).wf() && r is None ==> forall|v: int| 0 <= v < final(self).in_queue@.len() ==> #[trigger] final(self).in_queue@[v] == 0,
    {
        proof {
            lemma_next_live_bounds(self.active_queue@, self.in_queue@, self.active_head as int);
        }
        let ghost start = self.active_head as int;
        while self.active_head < self.active_queue.len()
            invariant
                self.active_queue@ == old(self).active_queue@,
                self.in_queue@ == old(self).in_queue@,
                start == old(self).active_head,
                start <= self.active_head,
                start < self.active_queue@.len() ==> self.active_head <= self.active_queue@.len(),
                start >= self.active_queue@.len() ==> self.active_head == start,
                next_live(self.active_queue@, self.in_queue@, start) == next_live(
                    self.active_queue@,
                    self.in_queue@,
                    self.active_head as int,
                ),
            decreases self.active_queue@.len() - self.active_head,
        {
            let v = self.active_queue[self.active_head] as usize;
            self.active_head += 1;
            if v >= self.in_queue.len() {
                continue;
            }
            if self.in_queue[v] == 0 {
                continue;
            }
            self.in_queue.set(v, 0);
            proof {
                if queue_wf(old(self).active_queue@, old(self).in_queue@, start) {
                    lemma_pop_keeps_wf(old(self).active_queue@, old(self).in_queue@, start);
                }
            }
            return Some(v);
        }
        proof {
            if queue_wf(old(self).active_queue@, old(self).in_queue@, start) {
                lemma_pop_keeps_wf(old(self).active_queue@, old(self).in_queue@, start);
            }
        }
        None
    }

    /// Queues `v` unless it is out of range or already waiting.
    pub fn enqueue_active_vertex(&mut self, v: usize)
        ensures
            (final(self).active_queue@, final(self).in_queue@) == enqueue_spec(
                old(self).active_queue@,
                old(self).in_queue@,
                v as int,
            ),
            final(self).active_head == old(self).active_head,
            old(self).wf() ==> final(self).wf(),
    {
        proof {
            if self.wf() {
                lemma_enqueue_keeps_queue_wf(self.active_queue@, self.in_queue@, self.active_head as int, v as int);
            }
        }
        if v >= self.in_queue.len() {
            return;
        }
        if self.in_queue[v] != 0 {
            return;
        }
        self.in_queue.set(v, 1);
        self.active_queue.push(v as u32);
    }

    /// Queues every neighbour of `v`, in neighbour order.
    pub fn enqueue_neighbors(&mut self, v: usize, nbr_offsets: &[u32], nbrs: &[u32])
        requires
            neighbor_range_ok(nbr_offsets@, nbrs@, v as int),
        ensures
            (final(self).active_queue@, final(self).in_queue@) == enqueue_all_spec(
                old(self).active_queue@,
                old(self).in_queue@,
                neighbors_of(nbr_offsets@, nbrs@, v as int),
            ),
            final(self).active_head == old(self).active_head,
            old(self).wf() ==> final(self).wf(),
    {
        proof {
            if self.wf() {
                lemma_enqueue_all_keeps_queue_wf(
                    self.active_queue@,
                    self.in_queue@,
                    self.active_head as int,
                    neighbors_of(nbr_offsets@, nbrs@, v as int),
                );
            }
        }
        let start = nbr_offsets[v] as usize;
        let end = nbr_offsets[v + 1] as usize;
        let mut idx = start;
        while idx < end
            invariant
                start <= idx <= end,
                end <= nbrs@.len(),
                start == nbr_offsets@[v as int],
                end == nbr_offsets@[v + 1],
                self.active_head == old(self).active_head,
                (self.active_queue@, self.in_queue@) == enqueue_all_spec(
                    old(self).active_queue@,
                    old(self).in_queue@,
                    nbrs@.subrange(start as int, idx as int),
                ),
            decreases end - idx,
        {
            let n = nbrs[idx] as usize;
            self.enqueue_active_vertex(n);
            proof {
                assert(nbrs@.subrange(start as int, idx + 1).drop_last() =~= nbrs@.subrange(
                    start as int,
                    idx as int,
                ));
            }
            idx += 1;
        }
    }

    /// Drops consumed entries: the whole queue once it is exhausted, or the
    /// consumed prefix once it is longer than 4096 entries or than the rest.
    pub fn compact_active_queue(&mut self)
        ensures
            final(self).in_queue@ == old(self).in_queue@,
            old(self).active_head == 0 ==> *final(self) == *old(self),
            old(self).active_head != 0 && old(self).active_head >= old(self).active_queue@.len() ==> {
                &&& final(self).active_queue@.len() == 0
                &&& final(self).active_head == 0
            },
            old(self).active_head != 0 && old(self).active_head < old(self).active_queue@.len() ==> if old(
                self,
            ).active_head > 4096 || old(self).active_head * 2 > old(self).active_queue@.len() {
                &&& final(self).active_queue@ == old(self).active_queue@.subrange(
                    old(self).active_head as int,
                    old(self).active_queue@.len() as int,
                )
                &&& final(self).active_head == 0
            } else {
                &&& final(self).active_queue@ == old(self).active_queue@
                &&& final(self).active_head == old(self).active_head
            },
            old(self).active_head <= old(self).active_queue@.len() ==> final(self).active_queue@.subrange(
                final(self).active_head as int,
                final(self).active_queue@.len() as int,
            ) == old(self).active_queue@.subrange(
                old(self).active_head as int,
                old(self).active_queue@.len() as int,
            ),
            old(self).wf() ==> final(self).wf(),
    {
        let ghost q0 = self.active_queue@;
        let ghost h0 = self.active_head as int;
        let ghost inq0 = self.in_queue@;
        if self.active_head == 0 {
            return;
        }
        if self.active_head >= self.active_queue.len() {
            self.active_queue.clear();
            self.active_head = 0;
            proof {
                if h0 <= q0.len() {
                    assert(self.active_queue@.subrange(0, 0) =~= q0.subrange(h0, q0.len() as int));
                }
                if queue_wf(q0, inq0, h0) {
                    assert forall|v: int| 0 <= v < inq0.len() implies #[trigger] inq0[v] == 0 by {
                        if inq0[v] != 0 {
                            let p = choose|p: int| h0 <= p < q0.len() && #[trigger] q0[p] as int == v;
                        }
                    }
                }
            }
            return;
        }
        if self.active_head > 4096 || self.active_head > self.active_queue.len() - self.active_head {
            let head = self.active_head;
            let len = self.active_queue.len();
            let mut rest: Vec<u32> = Vec::with_capacity(len - head);
            let mut k = head;
            while k < len
                invariant
                    head <= k <= len,
                    len == self.active_queue@.len(),
                    rest@ == self.active_queue@.subrange(head as int, k as int),
                decreases len - k,
            {
                rest.push(self.active_queue[k]);
                proof {
                    assert(self.active_queue@.subrange(head as int, k + 1) =~= self.active_queue@.subrange(
                        head as int,
                        k as int,
                    ).push(self.active_queue@[k as int]));
                }
                k += 1;
            }
            self.active_queue = rest;
            self.active_head = 0;
            proof {
                assert(rest@.subrange(0, rest@.len() as int) =~= rest@);
                if queue_wf(q0, inq0, h0) {
                    assert forall|w: int| 0 <= w < inq0.len() && #[trigger] inq0[w] != 0 implies exists|p: int| 0 <= p < rest@.len() && #[trigger] rest@[p] as int == w by {
                        let p = choose|p: int| h0 <= p < q0.len() && #[trigger] q0[p] as int == w;
                        assert(rest@[p - h0] == q0[p]);
                    }
                }
            }
        } else {
            proof {
                assert(self.active_queue@ == q0);
            }
        }
    }
}

proof fn lemma_pop_keeps_wf(q: Seq<u32>, inq: Seq<u8>, head: int)
    requires
        queue_wf(q, inq, head),
    ensures
        ({
            let p = next_live(q, inq, head);
            if p < q.len() {
                queue_wf(q, inq.update(q[p] as int, 0u8), p + 1)
            } else {
                &&& queue_wf(q, inq, p)
                &&& forall|v: int| 0 <= v < inq.len() ==> #[trigger] inq[v] == 0
            }
        }),
{
    lemma_next_live_bounds(q, inq, head);
    let p = next_live(q, inq, head);
    if p < q.len() {
        let i2 = inq.update(q[p] as int, 0u8);
        assert forall|w: int| 0 <= w < i2.len() && #[trigger] i2[w] != 0 implies exists|p2: int| p + 1 <= p2 < q.len() && #[trigger] q[p2] as int == w by {
            let p2 = choose|p2: int| head <= p2 < q.len() && #[trigger] q[p2] as int == w;
            assert(is_live(q, inq, p2));
            assert(p2 != p);
        }
    } else {
        assert forall|v: int| 0 <= v < inq.len() implies #[trigger] inq[v] == 0 by {
            if inq[v] != 0 {
                let p2 = choose|p2: int| head <= p2 < q.len() && #[trigger] q[p2] as int == v;
                assert(is_live(q, inq, p2));
            }
        }
    }
}

/// Records `v` in the change log unless it is out of range or already recorded.
pub fn mark_changed_vertex(v: usize, changed_mark: &mut [u8], recent_changed: &mut Vec<u32>)
    ensures
        (final(changed_mark)@, final(recent_changed)@) == mark_spec(
            old(changed_mark)@,
            old(recent_changed)@,
            v as int,
        ),
        change_log_wf(old(changed_mark)@, old(recent_changed)@) ==> change_log_wf(
            final(changed_mark)@,
            final(recent_changed)@,
        ),
{
    proof {
        if change_log_wf(changed_mark@, recent_changed@) {
            lemma_mark_keeps_change_log_wf(changed_mark@, recent_changed@, v as int);
        }
    }
    if v >= changed_mark.len() {
        return;
    }
    if changed_mark[v] != 0 {
        return;
    }
    changed_mark[v] = 1;
    recent_changed.push(v as u32);
}

/// Records every neighbour of `v`, in neighbour order.
pub fn mark_neighbors_changed(
    nbr_offsets: &[u32],
    nbrs: &[u32],
    v: usize,
    changed_mark: &mut [u8],
    recent_changed: &mut Vec<u32>,
)
    requires
        neighbor_range_ok(nbr_offsets@, nbrs@, v as int),
    ensures
        (final(changed_mark)@, final(recent_changed)@) == mark_all_spec(
            old(changed_mark)@,
            old(recent_changed)@,
            neighbors_of(nbr_offsets@, nbrs@, v as int),
        ),
        change_log_wf(old(changed_mark)@, old(recent_changed)@) ==> change_log_wf(
            final(changed_mark)@,
            final(recent_changed)@,
        ),
{
    proof {
        if change_log_wf(changed_mark@, recent_changed@) {
            lemma_mark_all_keeps_change_log_wf(
                changed_mark@,
                recent_changed@,
                neighbors_of(nbr_offsets@, nbrs@, v as int),
            );
        }
    }
    let start = nbr_offsets[v] as usize;
    let end = nbr_offsets[v + 1] as usize;
    let mut idx = start;
    while idx < end
        invariant
            start <= idx <= end,
            end <= nbrs@.len(),
            start == nbr_offsets@[v as int],
            end == nbr_offsets@[v + 1],
            (changed_mark@, recent_changed@) == mark_all_spec(
                old(changed_mark)@,
                old(recent_changed)@,
                nbrs@.subrange(start as int, idx as int),
            ),
        decreases end - idx,
    {
        mark_changed_vertex(nbrs[idx] as usize, changed_mark, recent_changed);
        proof {
            assert(nbrs@.subrange(start as int, idx + 1).drop_last() =~= nbrs@.subrange(
                start as int,
                idx as int,
            ));
        }
        idx += 1;
    }
}

} // verus!
