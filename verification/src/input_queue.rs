use vstd::prelude::*;

use crate::messages::ActionType;
use crate::types::Coord;

verus! {

/// Where the client expects the player to stand once an action is applied.
#[derive(Debug, Clone, Copy, PartialEq, Eq, Structural)]
pub struct PredictedState {
    pub pos: Coord,
}

/// An action sent to the server and not yet acknowledged.
#[derive(Debug)]
pub struct PendingAction {
    pub seq: u32,
    pub action: ActionType,
    pub predicted: Option<PredictedState>,
}

impl Clone for PendingAction {
    fn clone(&self) -> (r: Self)
        ensures
            r == *self,
    {
        PendingAction { seq: self.seq, action: self.action.clone(), predicted: self.predicted }
    }
}

/// Sequence numbers for outgoing actions, and the actions still waiting for the
/// server's acknowledgement, oldest first.
pub struct InputQueue {
    pending: Vec<PendingAction>,
    next_seq: u32,
}

/// The pending sequence numbers strictly increase, and all lie below `next`.
pub open spec fn seqs_ordered(p: Seq<PendingAction>, next: u32) -> bool {
    &&& forall|i: int, j: int| 0 <= i < j < p.len() ==> p[i].seq < p[j].seq
    &&& forall|i: int| 0 <= i < p.len() ==> p[i].seq < next
}

/// The index of the first pending action whose sequence number exceeds `seq`,
/// or the length when there is none.
pub open spec fn split_point(p: Seq<PendingAction>, seq: u32, k: int) -> bool {
    &&& 0 <= k <= p.len()
    &&& forall|i: int| 0 <= i < k ==> p[i].seq <= seq
    &&& k < p.len() ==> p[k].seq > seq
}

impl InputQueue {
    /// The actions waiting for acknowledgement, oldest first.
    pub closed spec fn pending_view(&self) -> Seq<PendingAction> {
        self.pending@
    }

    /// The sequence number the next pushed action receives.
    pub closed spec fn next_seq_view(&self) -> u32 {
        self.next_seq
    }

    /// Sequence numbers handed out are increasing, and all pending ones were handed out.
    pub closed spec fn wf(&self) -> bool {
        &&& self.next_seq >= 1
        &&& seqs_ordered(self.pending@, self.next_seq)
    }

    pub fn new() -> (r: Self)
        ensures
            r.wf(),
            r.pending_view() == Seq::<PendingAction>::empty(),
            r.next_seq_view() == 1,
    {
        InputQueue { pending: Vec::new(), next_seq: 1 }
    }

    /// Queue an action under the next sequence number and return that number.
    pub fn push(&mut self, action: ActionType, predicted: Option<PredictedState>) -> (seq: u32)
        requires
            old(self).next_seq_view() < u32::MAX,
        ensures
            seq == old(self).next_seq_view(),
            final(self).next_seq_view() == seq + 1,
            final(self).pending_view() == old(self).pending_view().push(
                PendingAction { seq, action, predicted },
            ),
            old(self).wf() ==> final(self).wf(),
    {
        let seq = self.next_seq;
        self.next_seq = self.next_seq + 1;
        self.pending.push(PendingAction { seq, action, predicted });
        seq
    }

    /// Acknowledge a sequence number: remove the pending actions before the first one
    /// whose number exceeds `seq`, and return them in order.
    pub fn ack_up_to(&mut self, seq: u32) -> (acked: Vec<PendingAction>)
        ensures
            exists|k: int|
                #![trigger split_point(old(self).pending_view(), seq, k)]
                split_point(old(self).pending_view(), seq, k) && acked@ == old(
                    self,
                ).pending_view().take(k) && final(self).pending_view() == old(
                    self,
                ).pending_view().skip(k),
            final(self).next_seq_view() == old(self).next_seq_view(),
            old(self).wf() ==> final(self).wf(),
    {
        let mut k: usize = 0;
        while k < self.pending.len() && self.pending[k].seq <= seq
            invariant
                k <= self.pending@.len(),
                forall|i: int| 0 <= i < k ==> self.pending@[i].seq <= seq,
            decreases self.pending@.len() - k,
        {
            k = k + 1;
        }
        let ghost old_p = self.pending@;
        let mut acked = self.pending.split_off(k);
        std::mem::swap(&mut acked, &mut self.pending);
        assert(split_point(old_p, seq, k as int));
        assert(acked@ =~= old_p.take(k as int));
        assert(self.pending@ =~= old_p.skip(k as int));
        assert(split_point(old(self).pending_view(), seq, k as int));
        acked
    }

    pub fn has_pending(&self) -> (r: bool)
        ensures
            r == (self.pending_view().len() > 0),
    {
        !self.pending.is_empty()
    }

    pub fn pending_count(&self) -> (r: usize)
        ensures
            r == self.pending_view().len(),
    {
        self.pending.len()
    }

    pub fn next_seq(&self) -> (r: u32)
        ensures
            r == self.next_seq_view(),
    {
        self.next_seq
    }
}

impl Default for InputQueue {
    fn default() -> (r: Self)
        ensures
            r.wf(),
            r.pending_view() == Seq::<PendingAction>::empty(),
            r.next_seq_view() == 1,
    {
        Self::new()
    }
}

/// Under the queue's invariant, `ack_up_to(seq)` hands back exactly the pending
/// actions numbered at most `seq` and keeps exactly those numbered above it.
pub proof fn lemma_ack_partitions_by_seq(p: Seq<PendingAction>, next: u32, seq: u32, k: int)
    requires
        seqs_ordered(p, next),
        split_point(p, seq, k),
    ensures
        forall|i: int| 0 <= i < p.take(k).len() ==> #[trigger] p.take(k)[i].seq <= seq,
        forall|i: int| 0 <= i < p.skip(k).len() ==> #[trigger] p.skip(k)[i].seq > seq,
        p.take(k) + p.skip(k) == p,
{
    assert forall|i: int| 0 <= i < p.skip(k).len() implies #[trigger] p.skip(k)[i].seq > seq by {
        assert(p.skip(k)[i] == p[k + i]);
        if i > 0 {
            assert(p[k].seq < p[k + i].seq);
        }
    }
    assert(p.take(k) + p.skip(k) =~= p);
}

/// Acknowledging the number that `push` gave the `j`-th pending action hands back exactly
/// that action and every earlier one, and keeps every later one: the server echoing the
/// number of the last action it applied confirms precisely the actions it applied.
pub proof fn lemma_ack_own_seq(p: Seq<PendingAction>, next: u32, j: int, k: int)
    requires
        seqs_ordered(p, next),
        0 <= j < p.len(),
        split_point(p, p[j].seq, k),
    ensures
        k == j + 1,
{
    if k <= j {
        if k < j {
            assert(p[k].seq < p[j].seq);
        }
        assert(p[k].seq > p[j].seq);
    } else if k > j + 1 {
        assert(p[j + 1].seq <= p[j].seq);
        assert(p[j].seq < p[j + 1].seq);
    }
}

/// How many of the first `i` operations of `ops` were pushes (`Some` holds the number a
/// push returned; `None` stands for an acknowledgement).
pub open spec fn pushes_before(ops: Seq<Option<u32>>, i: int) -> int
    decreases i,
{
    if i <= 0 {
        0
    } else {
        pushes_before(ops, i - 1) + if ops[i - 1] is Some {
            1int
        } else {
            0int
        }
    }
}

/// `qs[i + 1]` is `qs[i]` after operation `ops[i]`, as far as `push` and `ack_up_to`
/// say of the next sequence number: a push returns the queue's next number and moves it
/// one up, an acknowledgement leaves it alone.
pub open spec fn numbering_trace(qs: Seq<InputQueue>, ops: Seq<Option<u32>>) -> bool {
    &&& qs.len() == ops.len() + 1
    &&& forall|i: int|
        0 <= i < ops.len() ==> match #[trigger] ops[i] {
            Some(s) => s == qs[i].next_seq_view() && qs[i + 1].next_seq_view() == s + 1,
            None => qs[i + 1].next_seq_view() == qs[i].next_seq_view(),
        }
}

/// From a new queue (next number 1), through any mix of pushes and acknowledgements:
/// after the first `i` operations the next number is one more than the number of pushes
/// among them, the `n`-th push returns `n`, and so the numbers pushes return strictly
/// increase and none is handed out twice; acknowledging never resets the count.
pub proof fn lemma_sequence_numbers(qs: Seq<InputQueue>, ops: Seq<Option<u32>>)
    requires
        numbering_trace(qs, ops),
        qs[0].next_seq_view() == 1,
    ensures
        forall|i: int| 0 <= i <= ops.len() ==> #[trigger] qs[i].next_seq_view() == 1 + pushes_before(ops, i),
        forall|i: int|
            0 <= i < ops.len() && ops[i] is Some ==> #[trigger] ops[i]->0 == 1 + pushes_before(ops, i),
        forall|i: int, j: int|
            0 <= i < j < ops.len() && ops[i] is Some && ops[j] is Some ==> #[trigger] ops[i]->0
                < #[trigger] ops[j]->0,
{
    lemma_numbers_upto(qs, ops, ops.len() as int);
    assert forall|i: int| 0 <= i < ops.len() && ops[i] is Some implies #[trigger] ops[i]->0 == 1
        + pushes_before(ops, i) by {
        assert(qs[i].next_seq_view() == 1 + pushes_before(ops, i));
    }
    assert forall|i: int, j: int|
        0 <= i < j < ops.len() && ops[i] is Some && ops[j] is Some implies #[trigger] ops[i]->0
            < #[trigger] ops[j]->0 by {
        assert(ops[i]->0 == 1 + pushes_before(ops, i));
        assert(ops[j]->0 == 1 + pushes_before(ops, j));
        lemma_pushes_grow(ops, i + 1, j);
    }
}

proof fn lemma_numbers_upto(qs: Seq<InputQueue>, ops: Seq<Option<u32>>, n: int)
    requires
        numbering_trace(qs, ops),
        qs[0].next_seq_view() == 1,
        0 <= n <= ops.len(),
    ensures
        forall|i: int| 0 <= i <= n ==> #[trigger] qs[i].next_seq_view() == 1 + pushes_before(ops, i),
    decreases n,
{
    if n > 0 {
        lemma_numbers_upto(qs, ops, n - 1);
        let o = ops[n - 1];
        assert(qs[n - 1].next_seq_view() == 1 + pushes_before(ops, n - 1));
        match o {
            Some(s) => {},
            None => {},
        }
    }
}

proof fn lemma_pushes_grow(ops: Seq<Option<u32>>, i: int, j: int)
    requires
        0 <= i <= j,
        i >= 1,
        ops[i - 1] is Some,
    ensures
        pushes_before(ops, i - 1) < pushes_before(ops, j),
    decreases j - i,
{
    if j > i {
        lemma_pushes_grow(ops, i, j - 1);
    }
}

} // verus!
