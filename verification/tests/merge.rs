use fsplitter::merger::{MergeAction, MergeEvent, MergeState, Merger};
use fsplitter::{merge_files, split_file, Error};

#[test]
fn empty() {
    let input = Vec::<Result<Vec<u8>, Error>>::new();
    let mut output = vec![];

    merge_files(&input, &mut output).unwrap();

    assert_eq!(output, vec![]);
}

#[test]
fn lib_one() {
    let input = vec![Ok(vec![10_u8])];
    let mut output = vec![];

    merge_files(&input, &mut output).unwrap();

    assert_eq!(output, vec![10]);
}

#[test]
fn lib_two() {
    let input = vec![Ok(vec![1_u8]), Ok(vec![2_u8, 3_u8])];
    let mut output = vec![];

    merge_files(&input, &mut output).unwrap();

    assert_eq!(output, vec![1, 2, 3]);
}

#[test]
fn merge_of_nothing_has_length_zero() {
    let mut output = vec![];
    assert_eq!(merge_files(&[], &mut output), Ok(()));
    assert_eq!(output.len(), 0);
}

#[test]
fn merge_keeps_the_given_order() {
    let a = vec![1_u8];
    let b = vec![2_u8, 3_u8];

    let mut ab = vec![];
    merge_files(&[Ok(a.clone()), Ok(b.clone())], &mut ab).unwrap();
    let mut ba = vec![];
    merge_files(&[Ok(b), Ok(a)], &mut ba).unwrap();

    assert_eq!(ab, vec![1, 2, 3]);
    assert_eq!(ba, vec![2, 3, 1]);
    assert_ne!(ab, ba);
}

#[test]
fn merge_puts_nothing_between_inputs() {
    let input = vec![Ok(vec![]), Ok(vec![7_u8]), Ok(vec![]), Ok(vec![8_u8, 9_u8]), Ok(vec![])];
    let mut output = vec![];
    merge_files(&input, &mut output).unwrap();
    assert_eq!(output, vec![7, 8, 9]);
}

#[test]
fn merge_appends_to_what_the_output_holds() {
    let mut output = vec![100_u8];
    merge_files(&[Ok(vec![1_u8, 2_u8])], &mut output).unwrap();
    assert_eq!(output, vec![100, 1, 2]);
}

#[test]
fn merge_stops_at_the_first_failure() {
    let input = vec![Ok(vec![1_u8]), Ok(vec![2_u8]), Err(Error::Io), Ok(vec![3_u8])];
    let mut output = vec![];

    assert_eq!(merge_files(&input, &mut output), Err(Error::Io));
    assert_eq!(output, vec![1, 2]);
}

#[test]
fn merge_reports_the_first_of_two_failures() {
    let input = vec![Ok(vec![1_u8]), Err(Error::Config), Err(Error::Io)];
    let mut output = vec![];

    assert_eq!(merge_files(&input, &mut output), Err(Error::Config));
    assert_eq!(output, vec![1]);
}

#[test]
fn merge_fails_at_once_when_the_first_input_failed() {
    let input = vec![Err(Error::Io), Ok(vec![1_u8])];
    let mut output = vec![];

    assert_eq!(merge_files(&input, &mut output), Err(Error::Io));
    assert_eq!(output, vec![]);
}

#[test]
fn merge_of_split_gives_the_input_back() {
    let input: Vec<u8> = (0..=255).collect();
    let mut limit = 1;
    while limit <= 300 {
        let chunks = split_file(limit, &input).unwrap();
        let files: Vec<Result<Vec<u8>, Error>> = chunks.into_iter().map(Ok).collect();
        let mut output = vec![];
        merge_files(&files, &mut output).unwrap();
        assert_eq!(output, input);
        limit += 1;
    }
}

#[test]
fn merge_of_split_gives_an_empty_input_back() {
    let chunks = split_file(1, &[]).unwrap();
    let files: Vec<Result<Vec<u8>, Error>> = chunks.into_iter().map(Ok).collect();
    let mut output = vec![];
    merge_files(&files, &mut output).unwrap();
    assert_eq!(output, vec![]);
}

#[test]
fn merger_copies_each_input_and_flushes_at_the_end() {
    let mut merger = Merger::new();
    assert_eq!(merger.state(), MergeState::Ready);
    assert_eq!(merger.pending(), MergeAction::NextInput);

    assert_eq!(merger.step(MergeEvent::Opened), MergeAction::CopyAll);
    assert_eq!(merger.state(), MergeState::Copying);
    assert_eq!(merger.step(MergeEvent::Copied), MergeAction::NextInput);
    assert_eq!(merger.step(MergeEvent::Opened), MergeAction::CopyAll);
    assert_eq!(merger.step(MergeEvent::Copied), MergeAction::NextInput);

    assert_eq!(merger.step(MergeEvent::Exhausted), MergeAction::Flush);
    assert_eq!(merger.state(), MergeState::Flushing);
    assert_eq!(merger.step(MergeEvent::Flushed), MergeAction::Finish);
    assert_eq!(merger.state(), MergeState::Done);
}

#[test]
fn merger_without_inputs_flushes_and_finishes() {
    let mut merger = Merger::new();
    assert_eq!(merger.step(MergeEvent::Exhausted), MergeAction::Flush);
    assert_eq!(merger.step(MergeEvent::Flushed), MergeAction::Finish);
}

#[test]
fn merger_aborts_on_a_failure_in_every_waiting_state() {
    let mut merger = Merger::new();
    assert_eq!(merger.step(MergeEvent::Failed), MergeAction::Abort);
    assert_eq!(merger.state(), MergeState::Failed);

    let mut merger = Merger::new();
    merger.step(MergeEvent::Opened);
    assert_eq!(merger.step(MergeEvent::Failed), MergeAction::Abort);

    let mut merger = Merger::new();
    merger.step(MergeEvent::Exhausted);
    assert_eq!(merger.step(MergeEvent::Failed), MergeAction::Abort);
}

#[test]
fn merger_never_leaves_done_or_failed() {
    let events = [
        MergeEvent::Opened,
        MergeEvent::Exhausted,
        MergeEvent::Copied,
        MergeEvent::Flushed,
        MergeEvent::Failed,
    ];
    for event in events {
        let mut merger = Merger::new();
        merger.step(MergeEvent::Exhausted);
        merger.step(MergeEvent::Flushed);
        assert_eq!(merger.step(event), MergeAction::Finish);
        assert_eq!(merger.state(), MergeState::Done);

        let mut merger = Merger::new();
        merger.step(MergeEvent::Failed);
        assert_eq!(merger.step(event), MergeAction::Abort);
        assert_eq!(merger.state(), MergeState::Failed);
    }
}

#[test]
fn merger_asks_again_after_an_event_that_is_no_answer() {
    let mut merger = Merger::new();
    assert_eq!(merger.step(MergeEvent::Copied), MergeAction::NextInput);
    assert_eq!(merger.step(MergeEvent::Flushed), MergeAction::NextInput);
    assert_eq!(merger.state(), MergeState::Ready);

    merger.step(MergeEvent::Opened);
    assert_eq!(merger.step(MergeEvent::Opened), MergeAction::CopyAll);
    assert_eq!(merger.step(MergeEvent::Exhausted), MergeAction::CopyAll);
    assert_eq!(merger.step(MergeEvent::Flushed), MergeAction::CopyAll);
    assert_eq!(merger.state(), MergeState::Copying);

    merger.step(MergeEvent::Copied);
    merger.step(MergeEvent::Exhausted);
    assert_eq!(merger.step(MergeEvent::Opened), MergeAction::Flush);
    assert_eq!(merger.step(MergeEvent::Copied), MergeAction::Flush);
    assert_eq!(merger.state(), MergeState::Flushing);
}
