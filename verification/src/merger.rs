//! The merging engine: a state machine that joins inputs, in the order in
//! which the caller hands them over, into one output.
//!
//! ```text
//! Ready --Opened--> Copying --Copied--> Ready
//! Ready --Exhausted--> Flushing --Flushed--> Done
//! ```
//!
//! A reported failure leads from every state but `Done` to `Failed`: an
//! input that cannot be had ends the merge, and what was written stays.

use vstd::prelude::*;

use crate::error::Error;
use crate::plan::{chunks_of, lemma_split_then_merge};

verus! {

/// Where a merge stands.
#[derive(Clone, Copy, Debug, PartialEq, Eq, Structural)]
pub enum MergeState {
    /// The next input is awaited.
    Ready,
    /// An input is open and the copy of all its bytes is awaited.
    Copying,
    /// Every input has been copied; the flush of the output is awaited.
    Flushing,
    /// The output holds every input.
    Done,
    /// The merge was given up.
    Failed,
}

/// What the caller reports to the engine.
#[derive(Clone, Copy, Debug, PartialEq, Eq, Structural)]
pub enum MergeEvent {
    /// The next input is there and can be read.
    Opened,
    /// There is no further input.
    Exhausted,
    /// Every byte of the open input, from its position to its end, was
    /// appended to the output.
    Copied,
    /// The output was flushed.
    Flushed,
    /// The next input could not be had, or the action could not be carried
    /// out.
    Failed,
}

/// What the engine asks of the caller.
#[derive(Clone, Copy, Debug, PartialEq, Eq, Structural)]
pub enum MergeAction {
    /// Take the next input in the caller's order.
    NextInput,
    /// Append the open input, from its position to its end, to the output.
    CopyAll,
    /// Flush the output.
    Flush,
    /// Report success.
    Finish,
    /// Report the failure.
    Abort,
}

/// The action that the engine waits on in `state`.
pub open spec fn pending_action(state: MergeState) -> MergeAction {
    match state {
        MergeState::Ready => MergeAction::NextInput,
        MergeState::Copying => MergeAction::CopyAll,
        MergeState::Flushing => MergeAction::Flush,
        MergeState::Done => MergeAction::Finish,
        MergeState::Failed => MergeAction::Abort,
    }
}

/// The state that `event` leads to from `state`. `Done` and `Failed` are
/// never left. An event that does not answer the pending action changes
/// nothing, so the same action is asked for again.
pub open spec fn next_state(state: MergeState, event: MergeEvent) -> MergeState {
    match (state, event) {
        (MergeState::Done, _) => MergeState::Done,
        (MergeState::Failed, _) => MergeState::Failed,
        (_, MergeEvent::Failed) => MergeState::Failed,
        (MergeState::Ready, MergeEvent::Opened) => MergeState::Copying,
        (MergeState::Ready, MergeEvent::Exhausted) => MergeState::Flushing,
        (MergeState::Copying, MergeEvent::Copied) => MergeState::Ready,
        (MergeState::Flushing, MergeEvent::Flushed) => MergeState::Done,
        _ => state,
    }
}

/// A reported failure ends the merge from every state but `Done`, and
/// `Done` and `Failed` are never left: once the engine has asked to finish
/// or to abort, it asks for nothing else.
pub proof fn lemma_final_states(state: MergeState, event: MergeEvent)
    ensures
        state != MergeState::Done ==> next_state(state, MergeEvent::Failed) == MergeState::Failed,
        next_state(MergeState::Done, event) == MergeState::Done,
        next_state(MergeState::Failed, event) == MergeState::Failed,
        pending_action(MergeState::Done) == MergeAction::Finish,
        pending_action(MergeState::Failed) == MergeAction::Abort,
{
}

/// The merging engine for one output.
#[derive(Debug)]
pub struct Merger {
    state: MergeState,
}

impl View for Merger {
    type V = MergeState;

    closed spec fn view(&self) -> MergeState {
        self.state
    }
}

impl Merger {
    /// An engine in `Ready`.
    pub fn new() -> (r: Merger)
        ensures
            r@ == MergeState::Ready,
    {
        Merger { state: MergeState::Ready }
    }

    /// The state that the engine is in.
    pub fn state(&self) -> (r: MergeState)
        ensures
            r == self@,
    {
        self.state
    }

    /// The action that the engine waits on.
    pub fn pending(&self) -> (action: MergeAction)
        ensures
            action == pending_action(self@),
    {
        match self.state {
            MergeState::Ready => MergeAction::NextInput,
            MergeState::Copying => MergeAction::CopyAll,
            MergeState::Flushing => MergeAction::Flush,
            MergeState::Done => MergeAction::Finish,
            MergeState::Failed => MergeAction::Abort,
        }
    }

    /// Takes in what the caller reports and answers with the action to carry
    /// out next.
    pub fn step(&mut self, event: MergeEvent) -> (action: MergeAction)
        ensures
            final(self)@ == next_state(old(self)@, event),
            action == pending_action(final(self)@),
    {
        let next = match (self.state, event) {
            (MergeState::Done, _) => MergeState::Done,
            (MergeState::Failed, _) => MergeState::Failed,
            (_, MergeEvent::Failed) => MergeState::Failed,
            (MergeState::Ready, MergeEvent::Opened) => MergeState::Copying,
            (MergeState::Ready, MergeEvent::Exhausted) => MergeState::Flushing,
            (MergeState::Copying, MergeEvent::Copied) => MergeState::Ready,
            (MergeState::Flushing, MergeEvent::Flushed) => MergeState::Done,
            (state, _) => state,
        };
        self.state = next;
        self.pending()
    }
}

/// The number of inputs that stand before the first one that could not be
/// had: all of them, where none failed.
pub open spec fn ready_count(inputs: Seq<Result<Vec<u8>, Error>>) -> nat
    decreases inputs.len(),
{
    if inputs.len() == 0 || inputs[0] is Err {
        0
    } else {
        1 + ready_count(inputs.drop_first())
    }
}

/// The bytes of the inputs that stand before the first failure, input by
/// input.
pub open spec fn ready_inputs(inputs: Seq<Result<Vec<u8>, Error>>) -> Seq<Seq<u8>> {
    Seq::new(ready_count(inputs), |i: int| inputs[i]->Ok_0@)
}

/// What a merge of `inputs` returns: the first failure among them, or
/// success where there is none.
pub open spec fn merge_result(inputs: Seq<Result<Vec<u8>, Error>>) -> Result<(), Error> {
    if ready_count(inputs) == inputs.len() {
        Ok(())
    } else {
        Err(inputs[ready_count(inputs) as int]->Err_0)
    }
}

/// `ready_count` is the index of the first failure: every input before it
/// is ready, and it is a failure unless the inputs end there.
pub proof fn lemma_ready_count(inputs: Seq<Result<Vec<u8>, Error>>, k: nat)
    requires
        k <= inputs.len(),
        forall|i: int| 0 <= i < k ==> inputs[i] is Ok,
        k < inputs.len() ==> inputs[k as int] is Err,
    ensures
        ready_count(inputs) == k,
    decreases k,
{
    if k > 0 {
        let rest = inputs.drop_first();
        assert forall|i: int| 0 <= i < k - 1 implies rest[i] is Ok by {
            assert(rest[i] == inputs[i + 1]);
        }
        lemma_ready_count(rest, (k - 1) as nat);
    }
}

/// Inputs that are all ready are merged whole, and the merge succeeds.
pub proof fn lemma_all_ready(inputs: Seq<Result<Vec<u8>, Error>>)
    requires
        forall|i: int| 0 <= i < inputs.len() ==> inputs[i] is Ok,
    ensures
        ready_count(inputs) == inputs.len(),
        merge_result(inputs) == Ok::<(), Error>(()),
        ready_inputs(inputs).len() == inputs.len(),
        forall|i: int| 0 <= i < inputs.len() ==> ready_inputs(inputs)[i] == inputs[i]->Ok_0@,
{
    lemma_ready_count(inputs, inputs.len());
}

/// Merging nothing writes nothing, and succeeds.
pub proof fn lemma_merge_nothing()
    ensures
        ready_inputs(Seq::<Result<Vec<u8>, Error>>::empty()).flatten() == Seq::<u8>::empty(),
        merge_result(Seq::<Result<Vec<u8>, Error>>::empty()) == Ok::<(), Error>(()),
{
    assert(ready_inputs(Seq::<Result<Vec<u8>, Error>>::empty()) =~= Seq::<Seq<u8>>::empty());
}

/// The inputs are written in the order in which they are given: a ready
/// input that is added behind ready inputs has its bytes behind theirs.
pub proof fn lemma_merge_in_order(inputs: Seq<Result<Vec<u8>, Error>>, last: Vec<u8>)
    requires
        forall|i: int| 0 <= i < inputs.len() ==> inputs[i] is Ok,
    ensures
        ready_inputs(inputs.push(Ok(last))).flatten() == ready_inputs(inputs).flatten() + last@,
{
    let longer = inputs.push(Ok(last));
    lemma_all_ready(inputs);
    lemma_all_ready(longer);
    assert(ready_inputs(longer) =~= ready_inputs(inputs).push(last@));
    ready_inputs(inputs).lemma_flatten_push(last@);
}

/// Merging the chunks of an input, in their order, gives the input back:
/// where `files` are the chunks that `input` is split into, each of them
/// ready, the merge succeeds and writes exactly the bytes of `input`.
pub proof fn lemma_merge_of_split(
    input: Seq<u8>,
    max_size: nat,
    files: Seq<Result<Vec<u8>, Error>>,
)
    requires
        max_size >= 1,
        files.len() == chunks_of(input, max_size).len(),
        forall|i: int|
            0 <= i < files.len() ==> (#[trigger] files[i]) is Ok && files[i]->Ok_0@ == chunks_of(
                input,
                max_size,
            )[i],
    ensures
        merge_result(files) == Ok::<(), Error>(()),
        ready_inputs(files).flatten() == input,
{
    lemma_all_ready(files);
    assert(ready_inputs(files) =~= chunks_of(input, max_size));
    lemma_split_then_merge(input, max_size);
}

/// Merges buffers: drives a [`Merger`] over `input_files` in their order
/// and appends the bytes of each to `output`, with nothing between them.
/// The first input that is a failure ends the merge with that failure;
/// `output` then holds what was appended before it. No inputs at all leave
/// `output` as it was.
pub fn merge_files(input_files: &[Result<Vec<u8>, Error>], output: &mut Vec<u8>) -> (r: Result<
    (),
    Error,
>)
    ensures
        final(output)@ == old(output)@ + ready_inputs(input_files@).flatten(),
        r == merge_result(input_files@),
{
    let mut merger = Merger::new();
    let mut action = merger.pending();
    let mut taken: usize = 0;
    let mut failure = Error::Io;
    let ghost merged: Seq<Seq<u8>> = Seq::empty();
    loop
        invariant
            action == pending_action(merger@),
            taken <= input_files@.len(),
            forall|i: int| 0 <= i < taken ==> input_files@[i] is Ok,
            merged == Seq::new(taken as nat, |i: int| input_files@[i]->Ok_0@),
            output@ == old(output)@ + merged.flatten(),
            merger@ == MergeState::Copying ==> {
                &&& taken < input_files@.len()
                &&& input_files@[taken as int] is Ok
            },
            merger@ == MergeState::Flushing || merger@ == MergeState::Done ==> {
                taken == input_files@.len()
            },
            merger@ == MergeState::Failed ==> {
                &&& taken < input_files@.len()
                &&& input_files@[taken as int] == Err::<Vec<u8>, Error>(failure)
            },
        decreases
            2 * (input_files@.len() - taken) + match merger@ {
                MergeState::Ready => 3int,
                MergeState::Copying => 2int,
                MergeState::Flushing => 1int,
                _ => 0int,
            },
    {
        match action {
            MergeAction::NextInput => {
                if taken < input_files.len() {
                    match &input_files[taken] {
                        Ok(_) => {
                            action = merger.step(MergeEvent::Opened);
                        },
                        Err(e) => {
                            failure = *e;
                            action = merger.step(MergeEvent::Failed);
                        },
                    }
                } else {
                    action = merger.step(MergeEvent::Exhausted);
                }
            },
            MergeAction::CopyAll => {
                match &input_files[taken] {
                    Ok(bytes) => {
                        output.extend_from_slice(bytes.as_slice());
                        proof {
                            let next = Seq::new(
                                (taken + 1) as nat,
                                |i: int| input_files@[i]->Ok_0@,
                            );
                            assert(next =~= merged.push(bytes@));
                            merged.lemma_flatten_push(bytes@);
                            assert(output@ =~= old(output)@ + next.flatten());
                            merged = next;
                        }
                        taken = taken + 1;
                        action = merger.step(MergeEvent::Copied);
                    },
                    Err(_) => {
                        action = merger.step(MergeEvent::Failed);
                    },
                }
            },
            MergeAction::Flush => {
                action = merger.step(MergeEvent::Flushed);
            },
            MergeAction::Finish => {
                proof {
                    lemma_ready_count(input_files@, taken as nat);
                    assert(merged =~= ready_inputs(input_files@));
                }
                return Ok(());
            },
            MergeAction::Abort => {
                proof {
                    lemma_ready_count(input_files@, taken as nat);
                    assert(merged =~= ready_inputs(input_files@));
                }
                return Err(failure);
            },
        }
    }
}

} // verus!
