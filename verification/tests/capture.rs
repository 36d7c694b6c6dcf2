use dexdumper::capture::DexRecvState;

fn empty_state(total: u32) -> DexRecvState {
    DexRecvState {
        total,
        intervals: Vec::new(),
        buf: vec![0; total as usize],
    }
}

#[test]
fn merges_adjacent_intervals_in_order() {
    let mut s = empty_state(100);
    s.record(0, 30);
    s.record(30, 60);
    s.record(60, 100);
    assert_eq!(s.intervals, vec![(0, 100)]);
    assert!(s.is_complete());
}

#[test]
fn out_of_order_chunks_keep_gaps_and_block_completion() {
    let mut s = empty_state(100);
    s.record(60, 100);
    // A tail alone does not complete the file, though it reaches its end.
    assert_eq!(s.intervals, vec![(60, 100)]);
    assert!(!s.is_complete());

    s.record(0, 30);
    assert_eq!(s.intervals, vec![(0, 30), (60, 100)]);
    assert!(!s.is_complete());

    s.record(30, 60);
    assert_eq!(s.intervals, vec![(0, 100)]);
    assert!(s.is_complete());
}

#[test]
fn overlapping_chunks_are_coalesced() {
    let mut s = empty_state(100);
    s.record(10, 50);
    s.record(40, 80);
    s.record(0, 20);
    s.record(70, 100);
    assert_eq!(s.intervals, vec![(0, 100)]);
    assert!(s.is_complete());
}

#[test]
fn empty_intervals_ignored() {
    let mut s = empty_state(50);
    s.record(10, 10);
    assert!(s.intervals.is_empty());
    assert!(!s.is_complete());
}

#[test]
fn intervals_do_not_depend_on_the_order() {
    let chunks = [(0u32, 10u32), (20, 30), (25, 40), (12, 15)];
    let mut forward = empty_state(40);
    let mut backward = empty_state(40);
    for (start, end) in chunks {
        forward.record(start, end);
    }
    for (start, end) in chunks.iter().rev() {
        backward.record(*start, *end);
    }
    assert_eq!(forward.intervals, vec![(0, 10), (12, 15), (20, 40)]);
    assert_eq!(forward.intervals, backward.intervals);
}

#[test]
fn received_chunks_make_up_the_file() {
    let file: Vec<u8> = (0..100u8).collect();
    let mut s = DexRecvState::new(100);
    assert_eq!(s.buf, vec![0; 100]);
    for start in [75u32, 0, 50, 25] {
        assert!(!s.is_complete());
        s.receive(start, &file[start as usize..start as usize + 25]);
    }
    assert!(s.is_complete());
    assert_eq!(s.buf, file);
}

#[test]
fn chunks_outside_the_file_are_dropped() {
    let mut s = DexRecvState::new(10);
    s.receive(8, &[1, 2, 3]);
    s.receive(u32::MAX, &[1, 2, 3]);
    assert!(s.intervals.is_empty());
    assert_eq!(s.buf, vec![0; 10]);
    // A file without bytes is never complete.
    let mut none = DexRecvState::new(0);
    none.receive(0, &[]);
    assert!(!none.is_complete());
}
