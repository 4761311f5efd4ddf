use opening_explorer::stream::{passed_on, StreamHead, Wake, TICK_MILLIS};

#[test]
fn the_first_answer_is_due_at_once_and_the_others_after_a_tick() {
    let mut head = StreamHead::new();
    assert_eq!(head.next_pause(), Some(0));
    head.woke(true, Wake::Elapsed);
    assert_eq!(head.next_pause(), Some(1000));
    head.woke(true, Wake::Elapsed);
    assert_eq!(head.next_pause(), Some(TICK_MILLIS));
    head.woke(true, Wake::IndexerDone);
    assert_eq!(head.next_pause(), None);
    assert_eq!(head.next_pause(), None);
}

#[test]
fn without_an_indexer_there_is_one_answer() {
    let mut head = StreamHead::new();
    assert_eq!(head.next_pause(), Some(0));
    head.woke(false, Wake::Elapsed);
    assert_eq!(head.next_pause(), None);
}

#[test]
fn equal_totals_in_a_row_are_passed_on_once() {
    let mut head = StreamHead::new();
    assert!(head.offer(0));
    assert!(!head.offer(0));
    assert!(head.offer(3));
    assert!(!head.offer(3));
    assert!(!head.offer(3));
    assert!(head.offer(0));
    assert!(head.offer(u64::MAX));
    assert_eq!(passed_on(&vec![0, 0, 3, 3, 3, 0, u64::MAX]), vec![0, 3, 0, u64::MAX]);
    assert_eq!(passed_on(&vec![]), Vec::<u64>::new());
    assert_eq!(passed_on(&vec![5]), vec![5]);
    assert_eq!(passed_on(&vec![5, 5, 5]), vec![5]);
    assert_eq!(passed_on(&vec![1, 2, 1, 2]), vec![1, 2, 1, 2]);
}

#[test]
fn a_stream_while_the_indexer_runs() {
    // what each run of the query finds, and whether the indexer is done then
    let rounds = [(10u64, false), (10, false), (12, false), (12, false), (15, true), (99, false)];
    let mut head = StreamHead::new();
    let mut pauses = Vec::new();
    let mut lines = Vec::new();
    let mut round = 0;
    while let Some(pause) = head.next_pause() {
        pauses.push(pause);
        let (total, done) = rounds[round];
        head.woke(true, if done { Wake::IndexerDone } else { Wake::Elapsed });
        if head.offer(total) {
            lines.push(total);
        }
        round += 1;
    }
    assert_eq!(pauses, vec![0, 1000, 1000, 1000, 1000]);
    assert_eq!(lines, vec![10, 12, 15]);
    assert_eq!(round, 5);
}
