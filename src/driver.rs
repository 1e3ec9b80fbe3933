use vstd::prelude::*;
use crate::usage::DataType;

verus! {

/// Capacity of the stream buffer, in bytes.
pub const BUFFER_SIZE: usize = 8192;

/// Whether the stream is still being read.
#[derive(Clone, Copy, Debug, PartialEq, Eq, Structural)]
pub enum StreamState {
    Running,
    Stopped,
}

/// The state after a chunk of `bytes_read` bytes has been processed: a read
/// shorter than the buffer means that the source is exhausted.
pub open spec fn next_state(bytes_read: nat) -> StreamState {
    if bytes_read < BUFFER_SIZE { StreamState::Stopped } else { StreamState::Running }
}

/// The number of chunks processed from `state` on a source that delivers
/// reads of the lengths in `reads`, in order.
pub open spec fn iterations(state: StreamState, reads: Seq<nat>) -> nat
    decreases reads.len(),
{
    if state == StreamState::Stopped || reads.len() == 0 {
        0
    } else {
        1 + iterations(next_state(reads[0]), reads.drop_first())
    }
}

/// Complex samples that one full buffer holds in input encoding `enc`.
pub fn samples_per_chunk(enc: DataType) -> (r: usize)
    ensures
        r == BUFFER_SIZE as int / (2 * enc.component_width_spec() as int),
{
    BUFFER_SIZE / enc.iq_width()
}

/// Tracks the read/process/write loop over the input stream.
#[derive(Clone, Copy, Debug, PartialEq, Eq, Structural)]
pub struct StreamDriver {
    pub state: StreamState,
    /// Chunks processed so far.
    pub chunks: u64,
}

impl StreamDriver {
    pub fn new() -> (r: StreamDriver)
        ensures
            r.state == StreamState::Running,
            r.chunks == 0,
    {
        StreamDriver { state: StreamState::Running, chunks: 0 }
    }

    pub fn is_running(&self) -> (r: bool)
        ensures
            r == (self.state == StreamState::Running),
    {
        match self.state {
            StreamState::Running => true,
            StreamState::Stopped => false,
        }
    }

    /// Records that a chunk of `bytes_read` bytes has been read, decoded,
    /// transformed and written.
    pub fn chunk_done(&mut self, bytes_read: usize)
        requires
            old(self).state == StreamState::Running,
            old(self).chunks < u64::MAX,
        ensures
            final(self).state == next_state(bytes_read as nat),
            final(self).chunks == old(self).chunks + 1,
    {
        self.chunks = self.chunks + 1;
        if bytes_read < BUFFER_SIZE {
            self.state = StreamState::Stopped;
        }
    }
}

/// A read shorter than the buffer ends the stream: the driver processes
/// exactly the chunks up to and including the first short one.
pub proof fn lemma_stops_after_short_read(reads: Seq<nat>, k: int)
    requires
        0 <= k < reads.len(),
        reads[k] < BUFFER_SIZE,
        forall|j: int| 0 <= j < k ==> reads[j] >= BUFFER_SIZE,
    ensures
        iterations(StreamState::Running, reads) == k + 1,
    decreases k,
{
    if k > 0 {
        let rest = reads.drop_first();
        lemma_stops_after_short_read(rest, k - 1);
    } else {
        assert(iterations(StreamState::Stopped, reads.drop_first()) == 0);
    }
}

/// A source that delivers one chunk shorter than the buffer is processed in
/// exactly one iteration.
pub proof fn lemma_single_short_chunk(n: nat)
    requires
        n < BUFFER_SIZE,
    ensures
        iterations(StreamState::Running, seq![n]) == 1,
{
    lemma_stops_after_short_read(seq![n], 0);
}

} // verus!
