//! The head of a stream of answers to a personal query: when the next
//! answer is due, when the stream ends, and which answers are passed on.

use vstd::prelude::*;

verus! {

/// The pause between two answers, in milliseconds.
pub const TICK_MILLIS: u64 = 1000;

/// What ended a pause.
#[derive(Clone, Copy, Debug, PartialEq, Eq, Structural)]
pub enum Wake {
    /// The pause ran out.
    Elapsed,
    /// The indexer reported that it is done with the player.
    IndexerDone,
}

/// The totals with each run of equal neighbours cut down to its first.
pub open spec fn dedup(totals: Seq<u64>) -> Seq<u64>
    decreases totals.len(),
{
    if totals.len() == 0 {
        Seq::empty()
    } else if totals.len() == 1 {
        totals
    } else if totals[totals.len() - 1] == totals[totals.len() - 2] {
        dedup(totals.drop_last())
    } else {
        dedup(totals.drop_last()).push(totals.last())
    }
}

/// What is passed on starts with the first total, ends with the last, and
/// holds no two equal neighbours.
pub proof fn lemma_dedup(totals: Seq<u64>)
    requires
        totals.len() > 0,
    ensures
        dedup(totals).len() > 0,
        dedup(totals).len() <= totals.len(),
        dedup(totals)[0] == totals[0],
        dedup(totals).last() == totals.last(),
        forall|i: int, j: int|
            0 <= i < dedup(totals).len() - 1 && j == i + 1 ==> #[trigger] dedup(totals)[i]
                != #[trigger] dedup(totals)[j],
    decreases totals.len(),
{
    if totals.len() > 1 {
        lemma_dedup(totals.drop_last());
    }
}

/// The state of the head of a stream.
#[derive(Clone, Copy, Debug)]
pub struct StreamHead {
    first: bool,
    done: bool,
    last_total: Option<u64>,
}

impl StreamHead {
    /// Whether no answer has been asked for yet.
    pub closed spec fn is_first(&self) -> bool {
        self.first
    }

    /// Whether the stream ends with the answer that is due.
    pub closed spec fn is_done(&self) -> bool {
        self.done
    }

    /// The total of the answer that was offered last.
    pub closed spec fn last(&self) -> Option<u64> {
        self.last_total
    }

    /// The head of a fresh stream.
    pub fn new() -> (head: StreamHead)
        ensures
            head.is_first(),
            !head.is_done(),
            head.last() is None,
    {
        StreamHead { first: true, done: false, last_total: None }
    }

    /// How long to wait for the next answer, in milliseconds: not at all for
    /// the first answer, a tick for the others. None when the stream is
    /// over.
    pub fn next_pause(&mut self) -> (pause: Option<u64>)
        ensures
            old(self).is_done() ==> pause is None && *final(self) == *old(self),
            !old(self).is_done() ==> pause == Some(
                if old(self).is_first() {
                    0u64
                } else {
                    TICK_MILLIS
                },
            ) && !final(self).is_first() && !final(self).is_done() && final(self).last() == old(
                self,
            ).last(),
    {
        if self.done {
            return None;
        }
        let pause = if self.first {
            0
        } else {
            TICK_MILLIS
        };
        self.first = false;
        Some(pause)
    }

    /// Takes note of what ended the pause. The answer that follows is the
    /// last one if no indexer runs for the player, or if the indexer
    /// reported that it is done.
    pub fn woke(&mut self, indexing: bool, wake: Wake)
        ensures
            final(self).is_done() == (!indexing || wake == Wake::IndexerDone),
            final(self).is_first() == old(self).is_first(),
            final(self).last() == old(self).last(),
    {
        self.done = !indexing || wake == Wake::IndexerDone;
    }

    /// Whether an answer with the given total is passed on: not if the
    /// answer offered before it had the same total.
    pub fn offer(&mut self, total: u64) -> (pass: bool)
        ensures
            pass == (old(self).last() != Some(total)),
            final(self).last() == Some(total),
            final(self).is_first() == old(self).is_first(),
            final(self).is_done() == old(self).is_done(),
    {
        let pass = match self.last_total {
            Some(last) => last != total,
            None => true,
        };
        self.last_total = Some(total);
        pass
    }
}

/// The totals that the head of a fresh stream passes on, of the totals
/// that are offered to it in their order.
pub fn passed_on(totals: &Vec<u64>) -> (passed: Vec<u64>)
    ensures
        passed@ == dedup(totals@),
{
    let mut head = StreamHead::new();
    let mut passed: Vec<u64> = Vec::new();
    let mut i: usize = 0;
    proof {
        assert(totals@.take(0) =~= Seq::empty());
    }
    while i < totals.len()
        invariant
            i <= totals@.len(),
            passed@ == dedup(totals@.take(i as int)),
            head.last() == if i == 0 {
                None
            } else {
                Some(totals@[i - 1])
            },
        decreases totals@.len() - i,
    {
        proof {
            let t1 = totals@.take(i + 1);
            assert(t1.drop_last() =~= totals@.take(i as int));
            assert(t1.last() == totals@[i as int]);
            if i > 0 {
                assert(t1[t1.len() - 2] == totals@[i - 1]);
            }
        }
        if head.offer(totals[i]) {
            passed.push(totals[i]);
        }
        i = i + 1;
    }
    proof {
        assert(totals@.take(totals@.len() as int) =~= totals@);
    }
    passed
}

} // verus!
