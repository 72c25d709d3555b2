use crunchy_cli_core::lanes::{lane_assignment, FetchError, SegmentFetch, MAX_RETRIES};
use crunchy_cli_core::reassembly::{LaneMessage, ReassemblyError, Reassembler};

fn seg(index: u64) -> LaneMessage {
    LaneMessage::Segment { index, bytes: vec![index as u8, 100 + index as u8] }
}

fn feed(r: &mut Reassembler, msg: LaneMessage, sink: &mut Vec<u8>) {
    for chunk in r.receive(msg) {
        sink.extend(chunk);
    }
}

fn expected(n: u64) -> Vec<u8> {
    let mut v = vec![];
    for i in 0..n {
        v.push(i as u8);
        v.push(100 + i as u8);
    }
    v
}

#[test]
fn in_order_arrivals_are_written_at_once() {
    let mut r = Reassembler::new(4);
    let mut sink = vec![];
    for i in 0..4 {
        feed(&mut r, seg(i), &mut sink);
        assert_eq!(r.next_index(), i + 1);
    }
    assert_eq!(sink, expected(4));
    assert!(r.finish().is_ok());
}

#[test]
fn reverse_arrivals_are_written_in_index_order() {
    let mut r = Reassembler::new(5);
    let mut sink = vec![];
    for i in (0..5).rev() {
        feed(&mut r, seg(i), &mut sink);
        if i > 0 {
            assert!(sink.is_empty());
        }
    }
    assert_eq!(sink, expected(5));
    assert!(r.finish().is_ok());
}

#[test]
fn lane_interleaving_is_written_in_index_order() {
    // three lanes finishing at different speeds
    let lanes = lane_assignment(10, 3);
    let order = [2u64, 5, 1, 0, 8, 4, 3, 9, 7, 6];
    let mut r = Reassembler::new(10);
    let mut sink = vec![];
    for i in order {
        assert!(lanes[(i % 3) as usize].contains(&i));
        feed(&mut r, seg(i), &mut sink);
    }
    assert_eq!(sink, expected(10));
    assert!(r.finish().is_ok());
}

#[test]
fn empty_stream_completes() {
    let r = Reassembler::new(0);
    assert!(r.finish().is_ok());
}

#[test]
fn duplicate_and_out_of_range_segments_are_ignored() {
    let mut r = Reassembler::new(2);
    let mut sink = vec![];
    feed(&mut r, seg(1), &mut sink);
    feed(&mut r, LaneMessage::Segment { index: 1, bytes: vec![9, 9] }, &mut sink);
    feed(&mut r, seg(7), &mut sink);
    feed(&mut r, seg(0), &mut sink);
    feed(&mut r, seg(0), &mut sink);
    assert_eq!(sink, expected(2));
    assert!(r.finish().is_ok());
}

#[test]
fn missing_segments_are_named() {
    let mut r = Reassembler::new(6);
    let mut sink = vec![];
    feed(&mut r, seg(0), &mut sink);
    feed(&mut r, seg(2), &mut sink);
    feed(&mut r, seg(5), &mut sink);
    assert_eq!(sink, expected(1));
    match r.finish() {
        Err(ReassemblyError::Missing { indices }) => assert_eq!(indices, vec![1, 3, 4]),
        _ => panic!("expected missing segments"),
    }
}

#[test]
fn lane_failure_fails_the_stream() {
    let mut r = Reassembler::new(3);
    let mut sink = vec![];
    feed(&mut r, seg(1), &mut sink);
    feed(&mut r, LaneMessage::Failed, &mut sink);
    feed(&mut r, seg(0), &mut sink);
    feed(&mut r, seg(2), &mut sink);
    assert!(sink.is_empty());
    assert!(matches!(r.finish(), Err(ReassemblyError::LaneFailed)));
}

#[test]
fn ten_segments_three_lanes_lane_zero_fails_on_nine() {
    let lanes = lane_assignment(10, 3);
    assert_eq!(lanes[0], vec![0, 3, 6, 9]);
    // lane 0 retries segment 9 until it gives up
    let mut fetch = SegmentFetch::new(9);
    for _ in 0..MAX_RETRIES {
        assert!(fetch.transport_failed().is_none());
    }
    match fetch.transport_failed() {
        Some(FetchError::RetriesExhausted { index, retries }) => {
            assert_eq!(index, 9);
            assert_eq!(retries, 5);
        }
        _ => panic!("expected the retries to be exhausted"),
    }
    let mut r = Reassembler::new(10);
    let mut sink = vec![];
    for i in [1u64, 2, 0, 4, 5, 3, 7, 8, 6] {
        feed(&mut r, seg(i), &mut sink);
    }
    feed(&mut r, LaneMessage::Failed, &mut sink);
    assert_eq!(sink, expected(9));
    assert_eq!(r.next_index(), 9);
    assert!(matches!(r.finish(), Err(ReassemblyError::LaneFailed)));
}

#[test]
fn failure_before_the_gap_fills_writes_nothing_past_it() {
    let mut r = Reassembler::new(10);
    let mut sink = vec![];
    for i in [1u64, 2, 4, 5, 7, 8] {
        feed(&mut r, seg(i), &mut sink);
    }
    feed(&mut r, LaneMessage::Failed, &mut sink);
    feed(&mut r, seg(0), &mut sink);
    assert!(sink.is_empty());
    assert!(matches!(r.finish(), Err(ReassemblyError::LaneFailed)));
}

#[test]
fn lanes_partition_by_remainder() {
    let lanes = lane_assignment(10, 3);
    assert_eq!(lanes, vec![vec![0, 3, 6, 9], vec![1, 4, 7], vec![2, 5, 8]]);
    let one = lane_assignment(3, 1);
    assert_eq!(one, vec![vec![0, 1, 2]]);
    let wide = lane_assignment(2, 4);
    assert_eq!(wide, vec![vec![0], vec![1], vec![], vec![]]);
    let none = lane_assignment(0, 2);
    assert_eq!(none, vec![Vec::<u64>::new(), vec![]]);
}

#[test]
fn decrypt_failure_is_fatal_at_once() {
    let fetch = SegmentFetch::new(4);
    assert_eq!(fetch.retries(), 0);
    assert!(matches!(fetch.decrypt_failed(), FetchError::Decrypt { index: 4 }));
}

#[test]
fn each_payload_is_written_once_and_whole() {
    let mut r = Reassembler::new(4);
    let mut chunks: Vec<Vec<u8>> = vec![];
    for i in [2u64, 0, 3, 1] {
        chunks.extend(r.receive(seg(i)));
    }
    assert_eq!(chunks, vec![vec![0, 100], vec![1, 101], vec![2, 102], vec![3, 103]]);
    assert!(r.finish().is_ok());
}
