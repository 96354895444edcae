//! The retry policy of the connection reader.
//!
//! Reading itself happens outside the library; after every read attempt the
//! reader hands its outcome to [`ReadRetry::record`], which says whether to
//! scan the new bytes, sleep and try again, or give up.
use vstd::prelude::*;
use crate::error::{ServerError, TransportFault};

verus! {

/// How many non-productive read attempts in a row are tolerated.
pub const MAX_RETRIES: u8 = 5;

/// The size of the buffer that each read fills at most.
pub const BUFFER_SIZE: usize = 8096;

/// Seconds to wait after a read that would have blocked.
pub const STREAM_BLOCK_IN_SECS: u64 = 5;

/// Seconds to wait after an empty read or another read error.
pub const STALL_IN_SECS: u64 = 1;

/// What one read attempt brought.
#[derive(Clone, Copy, Debug, PartialEq, Eq, Structural)]
pub enum ReadOutcome {
    /// At least one byte.
    Data,
    /// Zero bytes: a stall, not the end of the stream.
    Empty,
    /// The read would have blocked.
    WouldBlock,
    /// Any other read error.
    Failed,
}

/// What the reader is to do after a read attempt.
#[derive(Debug, PartialEq, Eq)]
pub enum ReadStep {
    /// Hand the bytes just read to the scanner.
    Scan,
    /// Sleep this many seconds, then read again.
    Sleep(u64),
    /// Stop: the connection yields nothing.
    GiveUp(ServerError),
}

/// The number of non-productive attempts in a row after `outs`, starting
/// from `start`.
pub open spec fn retries_after(start: nat, outs: Seq<ReadOutcome>) -> nat
    decreases outs.len(),
{
    if outs.len() == 0 {
        start
    } else if outs.last() == ReadOutcome::Data {
        0
    } else {
        retries_after(start, outs.drop_last()) + 1
    }
}

/// Whether a count of non-productive attempts in a row exceeds the ceiling.
pub open spec fn gives_up(retries: nat) -> bool {
    retries > MAX_RETRIES
}

/// The count of non-productive read attempts in a row.
pub struct ReadRetry {
    retries: u8,
}

impl ReadRetry {
    /// The count.
    pub closed spec fn retries(&self) -> nat {
        self.retries as nat
    }

    /// A count of zero.
    pub fn new() -> (r: ReadRetry)
        ensures
            r.retries() == 0,
    {
        ReadRetry { retries: 0 }
    }

    /// Records one read attempt: data resets the count and is to be
    /// scanned; anything else counts, and is waited out (longer after a
    /// read that would have blocked) until the count exceeds the ceiling.
    pub fn record(&mut self, outcome: ReadOutcome) -> (r: ReadStep)
        requires
            !gives_up(old(self).retries()),
        ensures
            final(self).retries() == retries_after(old(self).retries(), seq![outcome]),
            outcome == ReadOutcome::Data ==> r == ReadStep::Scan,
            outcome != ReadOutcome::Data && gives_up(final(self).retries()) ==> r
                == ReadStep::GiveUp(ServerError::TransportError(TransportFault::RetriesExhausted)),
            outcome != ReadOutcome::Data && !gives_up(final(self).retries()) ==> r
                == ReadStep::Sleep(
                if outcome == ReadOutcome::WouldBlock {
                    STREAM_BLOCK_IN_SECS
                } else {
                    STALL_IN_SECS
                },
            ),
    {
        assert(seq![outcome].drop_last() =~= Seq::<ReadOutcome>::empty());
        assert(seq![outcome].len() == 1 && seq![outcome].last() == outcome);
        proof {
            reveal_with_fuel(retries_after, 2);
        }
        match outcome {
            ReadOutcome::Data => {
                self.retries = 0;
                ReadStep::Scan
            },
            _ => {
                self.retries = self.retries + 1;
                if self.retries > MAX_RETRIES {
                    ReadStep::GiveUp(ServerError::TransportError(TransportFault::RetriesExhausted))
                } else if outcome == ReadOutcome::WouldBlock {
                    ReadStep::Sleep(STREAM_BLOCK_IN_SECS)
                } else {
                    ReadStep::Sleep(STALL_IN_SECS)
                }
            },
        }
    }
}

/// Recording outcomes one at a time counts them as a whole run does.
pub proof fn lemma_retries_step(start: nat, outs: Seq<ReadOutcome>, o: ReadOutcome)
    ensures
        retries_after(retries_after(start, outs), seq![o]) == retries_after(start, outs.push(o)),
{
    assert(seq![o].drop_last() =~= Seq::<ReadOutcome>::empty());
    assert(seq![o].len() == 1 && seq![o].last() == o);
    assert(outs.push(o).drop_last() =~= outs);
    assert(outs.push(o).last() == o);
    reveal_with_fuel(retries_after, 2);
}

/// `k` non-productive attempts in a row after a productive one (or at the
/// start) leave a count of `k`.
pub proof fn lemma_stalls_count(outs: Seq<ReadOutcome>)
    requires
        forall|i: int| 0 <= i < outs.len() ==> outs[i] != ReadOutcome::Data,
    ensures
        retries_after(0, outs) == outs.len(),
    decreases outs.len(),
{
    if outs.len() > 0 {
        lemma_stalls_count(outs.drop_last());
    }
}

/// A connection that yields six non-productive reads in a row (empty reads
/// or errors) makes the reader give up at the sixth, after five retries,
/// and not before.
pub proof fn lemma_retry_ceiling(outs: Seq<ReadOutcome>)
    requires
        outs.len() == 6,
        forall|i: int| 0 <= i < outs.len() ==> outs[i] != ReadOutcome::Data,
    ensures
        forall|k: int| 1 <= k < 6 ==> !gives_up(#[trigger] retries_after(0, outs.subrange(0, k))),
        gives_up(retries_after(0, outs)),
{
    assert forall|k: int| 1 <= k < 6 implies !gives_up(
        #[trigger] retries_after(0, outs.subrange(0, k)),
    ) by {
        lemma_stalls_count(outs.subrange(0, k));
    }
    lemma_stalls_count(outs);
}

} // verus!
