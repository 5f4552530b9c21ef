//! The splitting engine: a state machine that cuts one input into chunks of
//! at most `max_size` bytes without touching a stream itself.
//!
//! The caller carries out the action that the engine is waiting on and
//! reports the outcome as an event:
//!
//! ```text
//! Start --Probed--> SingleChunk --Copied--> Done
//!               \-> Loop --Copied--> ChunkWritten --Persisted--> Loop | Done
//! ```
//!
//! Every state but `Done` leads to `Failed` when a failure is reported or a
//! copy comes back with another number of bytes than was asked for.

use vstd::prelude::*;

use crate::error::Error;
use crate::plan::{
    chunk_count, chunk_len, chunks_of, lemma_chunk_count_bounds, lemma_chunk_of_len,
    lemma_chunk_sizes, lemma_split_then_merge,
};

verus! {

/// Where a split stands.
#[derive(Clone, Copy, Debug, PartialEq, Eq, Structural)]
pub enum SplitState {
    /// Nothing has been done; the length of the input is awaited.
    Start,
    /// The input fits into one chunk. The one sink has been asked for and
    /// the copy of all `len` bytes into it is awaited.
    SingleChunk { len: u64 },
    /// The input is longer than one chunk and `written` of its `len` bytes
    /// are in the `index` sinks finished so far. The next sink has been
    /// asked for and the copy into it is awaited.
    Loop { len: u64, index: u64, written: u64 },
    /// Chunk `index` has been copied, which brought the total to `written`
    /// bytes. Its flush and sync are awaited.
    ChunkWritten { len: u64, index: u64, written: u64 },
    /// Every byte is in its chunk.
    Done,
    /// The split was given up.
    Failed,
}

/// What the caller reports to the engine.
#[derive(Clone, Copy, Debug, PartialEq, Eq, Structural)]
pub enum SplitEvent {
    /// The input stood at offset `start`, ends at offset `end`, and stands
    /// at `start` again.
    Probed { start: u64, end: u64 },
    /// A sink was obtained and this many bytes were copied into it.
    Copied(u64),
    /// The sink written last was flushed and synced.
    Persisted,
    /// The action could not be carried out.
    Failed,
}

/// What the engine asks of the caller.
#[derive(Clone, Copy, Debug, PartialEq, Eq, Structural)]
pub enum SplitAction {
    /// Find out at which offset the input stands and at which offset it
    /// ends, and go back to where it stood.
    ProbeLength,
    /// Ask for the next sink, which is number `index` counted from zero, and
    /// copy exactly `len` bytes from the input into it.
    WriteChunk { index: u64, len: u64 },
    /// Flush the sink written last and sync it to its storage.
    Persist,
    /// Report success.
    Finish,
    /// Report the failure.
    Abort,
}

/// The number of bytes that an input holds from the offset `start`, at which
/// it stands, to the offset `end`, at which it ends: none where it stands at
/// or behind its end.
pub open spec fn remaining(start: u64, end: u64) -> u64 {
    if end >= start {
        (end - start) as u64
    } else {
        0
    }
}

/// Whether `state` can occur in a split with the limit `max_size`.
pub open spec fn well_formed(max_size: nat, state: SplitState) -> bool {
    &&& max_size >= 1
    &&& match state {
        SplitState::SingleChunk { len } => len <= max_size,
        SplitState::Loop { len, index, written } => {
            &&& len > max_size
            &&& written == index * max_size
            &&& written < len
        },
        SplitState::ChunkWritten { len, index, written } => {
            &&& len > max_size
            &&& index * max_size < len
            &&& written == index * max_size + chunk_len(len as nat, max_size, index as nat)
        },
        _ => true,
    }
}

/// The action that the engine waits on in `state`.
pub open spec fn pending_action(max_size: nat, state: SplitState) -> SplitAction {
    match state {
        SplitState::Start => SplitAction::ProbeLength,
        SplitState::SingleChunk { len } => SplitAction::WriteChunk { index: 0, len },
        SplitState::Loop { len, index, written } => SplitAction::WriteChunk {
            index,
            len: chunk_len(len as nat, max_size, index as nat) as u64,
        },
        SplitState::ChunkWritten { .. } => SplitAction::Persist,
        SplitState::Done => SplitAction::Finish,
        SplitState::Failed => SplitAction::Abort,
    }
}

/// The state that `event` leads to from `state`. `Done` and `Failed` are
/// never left. An event that does not answer the pending action changes
/// nothing, so the same action is asked for again.
pub open spec fn next_state(max_size: nat, state: SplitState, event: SplitEvent) -> SplitState {
    match (state, event) {
        (SplitState::Done, _) => SplitState::Done,
        (SplitState::Failed, _) => SplitState::Failed,
        (_, SplitEvent::Failed) => SplitState::Failed,
        (SplitState::Start, SplitEvent::Probed { start, end }) => awaiting_chunk(
            remaining(start, end),
            max_size,
            0,
        ),
        (SplitState::SingleChunk { len }, SplitEvent::Copied(n)) => if n == len {
            SplitState::Done
        } else {
            SplitState::Failed
        },
        (SplitState::Loop { len, index, written }, SplitEvent::Copied(n)) => if n == chunk_len(
            len as nat,
            max_size,
            index as nat,
        ) {
            SplitState::ChunkWritten { len, index, written: (written + n) as u64 }
        } else {
            SplitState::Failed
        },
        (SplitState::ChunkWritten { len, index, written }, SplitEvent::Persisted) => if written
            == len {
            SplitState::Done
        } else {
            SplitState::Loop { len, index: (index + 1) as u64, written }
        },
        _ => state,
    }
}

/// The state in which the engine waits for chunk `index` of an input of
/// `len` bytes to be copied.
pub open spec fn awaiting_chunk(len: u64, max_size: nat, index: nat) -> SplitState {
    if len <= max_size {
        SplitState::SingleChunk { len }
    } else {
        SplitState::Loop { len, index: index as u64, written: (index * max_size) as u64 }
    }
}

/// No event leads from a state that can occur to one that cannot.
pub proof fn lemma_next_state_well_formed(max_size: nat, state: SplitState, event: SplitEvent)
    requires
        well_formed(max_size, state),
    ensures
        well_formed(max_size, next_state(max_size, state, event)),
{
    match (state, event) {
        (SplitState::Start, SplitEvent::Probed { start, end }) => {
            assert(0 * max_size == 0) by (nonlinear_arith);
        },
        (SplitState::ChunkWritten { len, index, written }, SplitEvent::Persisted) => {
            lemma_index_fits(len, max_size, index);
            assert((index + 1) * max_size == index * max_size + max_size) by (nonlinear_arith);
        },
        _ => {},
    }
}

/// A reported failure ends the split from every state but `Done`, and
/// `Done` and `Failed` are never left: once the engine has asked to finish
/// or to abort, it asks for nothing else.
pub proof fn lemma_final_states(max_size: nat, state: SplitState, event: SplitEvent)
    ensures
        state != SplitState::Done ==> next_state(max_size, state, SplitEvent::Failed)
            == SplitState::Failed,
        next_state(max_size, SplitState::Done, event) == SplitState::Done,
        next_state(max_size, SplitState::Failed, event) == SplitState::Failed,
        pending_action(max_size, SplitState::Done) == SplitAction::Finish,
        pending_action(max_size, SplitState::Failed) == SplitAction::Abort,
{
}

/// A copy must bring exactly the bytes that were asked for: while the engine
/// waits on `WriteChunk { len, .. }`, `Copied(n)` with another `n` than
/// `len` ends the split in `Failed`.
pub proof fn lemma_copy_must_match(max_size: nat, state: SplitState, n: u64)
    requires
        well_formed(max_size, state),
        pending_action(max_size, state) is WriteChunk,
        n != pending_action(max_size, state)->WriteChunk_len,
    ensures
        next_state(max_size, state, SplitEvent::Copied(n)) == SplitState::Failed,
{
}

/// A chunk that begins inside the input has an index below the input's
/// length, so the index after it is still a `u64`.
proof fn lemma_index_fits(len: u64, max_size: nat, index: u64)
    requires
        max_size >= 1,
        index * max_size < len,
    ensures
        index < len,
{
    assert(index <= index * max_size) by (nonlinear_arith)
        requires
            max_size >= 1,
            index >= 0,
    ;
}

/// The state that the engine is in once chunk `index` has been copied as
/// asked and, where the input takes more than one chunk, persisted.
pub open spec fn after_chunk(len: u64, max_size: nat, index: nat) -> SplitState {
    let copied = next_state(
        max_size,
        awaiting_chunk(len, max_size, index),
        SplitEvent::Copied(chunk_len(len as nat, max_size, index) as u64),
    );
    if len <= max_size {
        copied
    } else {
        next_state(max_size, copied, SplitEvent::Persisted)
    }
}

/// When every action is carried out as asked, the engine asks for the chunks
/// of the input one after the other, each with its index and its length,
/// and for no others. The probe of an input of `len` bytes leads to the wait
/// for chunk 0, by `next_state`. In the wait for chunk `index` the engine
/// asks for a sink and for the bytes of that chunk. Once they are copied it
/// asks for the flush and sync, unless the input is a single chunk, and then
/// waits for chunk `index + 1`, or is done where `index` was the last.
pub proof fn lemma_faithful_run(len: u64, max_size: nat, index: nat)
    requires
        max_size >= 1,
        index < chunk_count(len as nat, max_size),
    ensures
        well_formed(max_size, awaiting_chunk(len, max_size, index)),
        pending_action(max_size, awaiting_chunk(len, max_size, index)) == (SplitAction::WriteChunk {
            index: index as u64,
            len: chunk_len(len as nat, max_size, index) as u64,
        }),
        len > max_size ==> pending_action(
            max_size,
            next_state(
                max_size,
                awaiting_chunk(len, max_size, index),
                SplitEvent::Copied(chunk_len(len as nat, max_size, index) as u64),
            ),
        ) == SplitAction::Persist,
        index + 1 < chunk_count(len as nat, max_size) ==> after_chunk(len, max_size, index)
            == awaiting_chunk(len, max_size, index + 1),
        index + 1 == chunk_count(len as nat, max_size) ==> after_chunk(len, max_size, index)
            == SplitState::Done,
{
    let count = chunk_count(len as nat, max_size);
    lemma_chunk_count_bounds(len as nat, max_size);
    lemma_chunk_sizes(len as nat, max_size, index);
    assert((index + 1) * max_size == index * max_size + max_size) by (nonlinear_arith);
    if len > max_size {
        assert(index * max_size <= (count - 1) * max_size) by (nonlinear_arith)
            requires
                index <= count - 1,
        ;
        assert(index <= index * max_size) by (nonlinear_arith)
            requires
                max_size >= 1,
        ;
        if index + 1 < count {
            assert((index + 1) * max_size <= (count - 1) * max_size) by (nonlinear_arith)
                requires
                    index + 1 <= count - 1,
            ;
        } else {
            assert(count * max_size == index * max_size + max_size) by (nonlinear_arith)
                requires
                    count == index + 1,
            ;
        }
    }
}

/// The number of bytes that the next chunk takes when `written` of `len`
/// bytes are in the chunks before it.
fn next_len(len: u64, written: u64, max_size: u64) -> (n: u64)
    requires
        written <= len,
    ensures
        n == (if len - written <= max_size {
            len - written
        } else {
            max_size as int
        }),
{
    let rest: u64 = len - written;
    if rest <= max_size {
        rest
    } else {
        max_size
    }
}

/// What a [`Splitter`] is in contracts: its limit and its state.
pub struct SplitterView {
    pub max_size: nat,
    pub state: SplitState,
}

/// The splitting engine for one input.
#[derive(Debug)]
pub struct Splitter {
    max_size: u64,
    state: SplitState,
}

impl View for Splitter {
    type V = SplitterView;

    closed spec fn view(&self) -> SplitterView {
        SplitterView { max_size: self.max_size as nat, state: self.state }
    }
}

impl Splitter {
    #[verifier::type_invariant]
    spec fn inv(self) -> bool {
        well_formed(self.max_size as nat, self.state)
    }

    /// An engine in `Start` for chunks of at most `max_size` bytes. A limit
    /// of zero is refused: no chunk could take a byte.
    pub fn new(max_size: u64) -> (r: Result<Splitter, Error>)
        ensures
            max_size == 0 <==> r is Err,
            r is Err ==> r->Err_0 == Error::Config,
            r is Ok ==> r->Ok_0@ == (SplitterView {
                max_size: max_size as nat,
                state: SplitState::Start,
            }),
    {
        if max_size == 0 {
            Err(Error::Config)
        } else {
            Ok(Splitter { max_size, state: SplitState::Start })
        }
    }

    /// The limit that the engine was made with.
    pub fn max_size(&self) -> (r: u64)
        ensures
            r == self@.max_size,
            r >= 1,
    {
        proof {
            use_type_invariant(self);
        }
        self.max_size
    }

    /// The state that the engine is in.
    pub fn state(&self) -> (r: SplitState)
        ensures
            r == self@.state,
            well_formed(self@.max_size, r),
    {
        proof {
            use_type_invariant(self);
        }
        self.state
    }

    /// The action that the engine waits on.
    pub fn pending(&self) -> (action: SplitAction)
        ensures
            action == pending_action(self@.max_size, self@.state),
            well_formed(self@.max_size, self@.state),
    {
        proof {
            use_type_invariant(self);
        }
        match self.state {
            SplitState::Start => SplitAction::ProbeLength,
            SplitState::SingleChunk { len } => SplitAction::WriteChunk { index: 0, len },
            SplitState::Loop { len, index, written } => SplitAction::WriteChunk {
                index,
                len: next_len(len, written, self.max_size),
            },
            SplitState::ChunkWritten { .. } => SplitAction::Persist,
            SplitState::Done => SplitAction::Finish,
            SplitState::Failed => SplitAction::Abort,
        }
    }

    /// Takes in what the caller reports and answers with the action to carry
    /// out next.
    pub fn step(&mut self, event: SplitEvent) -> (action: SplitAction)
        ensures
            final(self)@.max_size == old(self)@.max_size,
            final(self)@.state == next_state(old(self)@.max_size, old(self)@.state, event),
            well_formed(final(self)@.max_size, final(self)@.state),
            action == pending_action(final(self)@.max_size, final(self)@.state),
    {
        proof {
            use_type_invariant(&*self);
            lemma_next_state_well_formed(self.max_size as nat, self.state, event);
        }
        let next = match (self.state, event) {
            (SplitState::Done, _) => SplitState::Done,
            (SplitState::Failed, _) => SplitState::Failed,
            (_, SplitEvent::Failed) => SplitState::Failed,
            (SplitState::Start, SplitEvent::Probed { start, end }) => {
                let len: u64 = if end >= start {
                    end - start
                } else {
                    0
                };
                assert(0 * self.max_size == 0) by (nonlinear_arith);
                if len <= self.max_size {
                    SplitState::SingleChunk { len }
                } else {
                    SplitState::Loop { len, index: 0, written: 0 }
                }
            },
            (SplitState::SingleChunk { len }, SplitEvent::Copied(n)) => {
                if n == len {
                    SplitState::Done
                } else {
                    SplitState::Failed
                }
            },
            (SplitState::Loop { len, index, written }, SplitEvent::Copied(n)) => {
                if n == next_len(len, written, self.max_size) {
                    SplitState::ChunkWritten { len, index, written: written + n }
                } else {
                    SplitState::Failed
                }
            },
            (SplitState::ChunkWritten { len, index, written }, SplitEvent::Persisted) => {
                if written == len {
                    SplitState::Done
                } else {
                    proof {
                        lemma_index_fits(len, self.max_size as nat, index);
                    }
                    SplitState::Loop { len, index: index + 1, written }
                }
            },
            (state, _) => state,
        };
        self.state = next;
        self.pending()
    }
}

/// The byte sequences that a list of buffers holds.
pub open spec fn contents(buffers: Seq<Vec<u8>>) -> Seq<Seq<u8>> {
    buffers.map_values(|buffer: Vec<u8>| buffer@)
}

/// What holds between the engine and the buffers while [`split_file`] runs:
/// `chunks` are the chunks finished so far and `pos` bytes of the input are
/// in them.
spec fn split_progress(
    input: Seq<u8>,
    max_size: nat,
    state: SplitState,
    chunks: Seq<Seq<u8>>,
    pos: nat,
) -> bool {
    let all = chunks_of(input, max_size);
    match state {
        SplitState::Start => chunks.len() == 0 && pos == 0,
        SplitState::SingleChunk { len } => {
            &&& len == input.len()
            &&& len <= max_size
            &&& chunks.len() == 0
            &&& pos == 0
        },
        SplitState::Loop { len, index, written } => {
            &&& len == input.len()
            &&& index < all.len()
            &&& state == awaiting_chunk(len, max_size, index as nat)
            &&& chunks == all.take(index as int)
            &&& pos == written
        },
        SplitState::ChunkWritten { len, index, written } => {
            &&& len == input.len()
            &&& len > max_size
            &&& index < all.len()
            &&& written == index * max_size + chunk_len(len as nat, max_size, index as nat)
            &&& chunks == all.take(index + 1)
            &&& pos == written
        },
        SplitState::Done => chunks == all,
        SplitState::Failed => false,
    }
}

/// An upper bound on the events that [`split_file`] still has to report.
spec fn split_steps_left(len: nat, max_size: nat, state: SplitState) -> nat {
    let count = chunk_count(len, max_size);
    match state {
        SplitState::Start => 2 * count + 2,
        SplitState::SingleChunk { .. } => 2,
        SplitState::Loop { index, .. } => (2 * (count - index)) as nat,
        SplitState::ChunkWritten { index, .. } => (2 * (count - index) - 1) as nat,
        SplitState::Done => 0,
        SplitState::Failed => 0,
    }
}

/// Splits a buffer: drives a [`Splitter`] over `input` and returns the
/// chunks in their order. Each chunk but the last holds exactly `max_size`
/// bytes; an input of at most `max_size` bytes gives one chunk, which is
/// empty when the input is. A limit of zero is refused before anything is
/// done.
pub fn split_file(max_size: u64, input: &[u8]) -> (r: Result<Vec<Vec<u8>>, Error>)
    ensures
        max_size == 0 <==> r is Err,
        r is Err ==> r->Err_0 == Error::Config,
        r is Ok ==> contents(r->Ok_0@) == chunks_of(input@, max_size as nat),
        r is Ok ==> r->Ok_0@.len() == chunk_count(input@.len(), max_size as nat),
        r is Ok ==> forall|i: int|
            0 <= i < r->Ok_0@.len() ==> (#[trigger] r->Ok_0@[i])@.len() == chunk_len(
                input@.len(),
                max_size as nat,
                i as nat,
            ),
        r is Ok ==> forall|i: int|
            0 <= i < r->Ok_0@.len() - 1 ==> (#[trigger] r->Ok_0@[i])@.len() == max_size,
        r is Ok && input@.len() > 0 ==> 0 < r->Ok_0@.last()@.len() <= max_size,
        r is Ok ==> contents(r->Ok_0@).flatten() == input@,
{
    let mut splitter = match Splitter::new(max_size) {
        Ok(splitter) => splitter,
        Err(e) => {
            return Err(e);
        },
    };
    let mut chunks: Vec<Vec<u8>> = Vec::new();
    let mut pos: usize = 0;
    let mut action = splitter.pending();
    let ghost all = chunks_of(input@, max_size as nat);
    proof {
        lemma_chunk_count_bounds(input@.len(), max_size as nat);
        assert(contents(chunks@) =~= all.take(0));
        assert(all.take(all.len() as int) =~= all);
    }
    loop
        invariant
            max_size >= 1,
            splitter@.max_size == max_size,
            action == pending_action(max_size as nat, splitter@.state),
            well_formed(max_size as nat, splitter@.state),
            all == chunks_of(input@, max_size as nat),
            all.len() == chunk_count(input@.len(), max_size as nat) >= 1,
            all.take(all.len() as int) == all,
            split_progress(
                input@,
                max_size as nat,
                splitter@.state,
                contents(chunks@),
                pos as nat,
            ),
        decreases split_steps_left(input@.len(), max_size as nat, splitter@.state),
    {
        let ghost before = splitter@.state;
        let ghost done = contents(chunks@);
        match action {
            SplitAction::ProbeLength => {
                proof {
                    assert(done =~= all.take(0));
                    lemma_faithful_run(input.len() as u64, max_size as nat, 0);
                }
                action = splitter.step(SplitEvent::Probed { start: 0, end: input.len() as u64 });
            },
            SplitAction::WriteChunk { index, len } => {
                proof {
                    assert(done =~= all.take(index as int));
                    lemma_chunk_of_len(input@, max_size as nat, index as nat);
                    lemma_chunk_sizes(input@.len(), max_size as nat, index as nat);
                    lemma_faithful_run(input.len() as u64, max_size as nat, index as nat);
                }
                let end: usize = pos + len as usize;
                let chunk = vstd::slice::slice_to_vec(vstd::slice::slice_subrange(input, pos, end));
                chunks.push(chunk);
                pos = end;
                action = splitter.step(SplitEvent::Copied(len));
                proof {
                    assert(contents(chunks@) =~= done.push(all[index as int]));
                    assert(all.take(index + 1) =~= all.take(index as int).push(all[index as int]));
                }
            },
            SplitAction::Persist => {
                proof {
                    let index = before->ChunkWritten_index;
                    lemma_index_fits(input.len() as u64, max_size as nat, index);
                    lemma_faithful_run(input.len() as u64, max_size as nat, index as nat);
                }
                action = splitter.step(SplitEvent::Persisted);
            },
            SplitAction::Finish => {
                proof {
                    lemma_split_then_merge(input@, max_size as nat);
                    assert forall|i: int| 0 <= i < chunks@.len() implies (#[trigger] chunks@[i])@.len()
                        == chunk_len(input@.len(), max_size as nat, i as nat) by {
                        lemma_chunk_of_len(input@, max_size as nat, i as nat);
                        assert(contents(chunks@)[i] == chunks@[i]@);
                    }
                    assert forall|i: int| 0 <= i < chunks@.len() implies (#[trigger] chunks@[i])@.len()
                        <= max_size && (input@.len() > 0 ==> chunks@[i]@.len() > 0) && (i
                        < chunks@.len() - 1 ==> chunks@[i]@.len() == max_size) by {
                        lemma_chunk_sizes(input@.len(), max_size as nat, i as nat);
                    }
                }
                return Ok(chunks);
            },
            SplitAction::Abort => {
                return Err(Error::Io);
            },
        }
    }
}

} // verus!
