use std::sync::mpsc;

use nt::admission::{WriteAdmission, WriteError};
use nt::bits::all_set;
use nt::encode::{decode_binary, encode_binary, encode_text};
use nt::layout::{consumer_of, first_id_of, SegmentData, SegmentLayout, SegmentPrimes};
use nt::reorder::{ReorderBuffer, ReorderError};
use nt::scheduler::SegmentScheduler;
use nt::segment::{SEGMENT_SIZE_NUMBERS, SEGMENT_WORDS};
use nt::segmented::layout_and_base;
use nt::sieve::find_primes_v1;
use nt::stream::{
    find_primes_streaming, find_primes_v6_streaming, find_primes_v7_streaming, pack_primes_to_bits,
    unpack_segment, PrimeBatches, RawSegments,
};

/// Runs the segmented pipeline on one thread: segments are computed in the
/// order given, routed, reordered and encoded; returns the privileged unit
/// and each consumer's bytes.
fn run_pipeline(
    limit: usize,
    consumers: usize,
    order: &[usize],
    binary: bool,
    dropped: Option<usize>,
) -> (Vec<usize>, Vec<Vec<u8>>, Vec<Result<(), ReorderError>>) {
    let (layout, base) = layout_and_base(limit);
    let mut scratch = all_set(SEGMENT_WORDS);
    let mut buffers: Vec<ReorderBuffer> =
        (0..consumers).map(|c| ReorderBuffer::new(first_id_of(c), consumers)).collect();
    let mut files: Vec<Vec<u8>> = vec![Vec::new(); consumers];
    for &idx in order {
        let seg = layout.compute_segment(idx, &base, &mut scratch);
        let c = consumer_of(seg.segment_id, consumers);
        if Some(c) == dropped {
            continue;
        }
        for released in buffers[c].accept(seg).unwrap() {
            let bytes = if binary {
                encode_binary(&released.primes)
            } else {
                encode_text(&released.primes)
            };
            files[c].extend_from_slice(&bytes);
        }
    }
    let ends = buffers.iter().map(|b| b.finish()).collect();
    (base, files, ends)
}

#[test]
fn scenario_text_up_to_30() {
    let (layout, _) = layout_and_base(30);
    let order: Vec<usize> = (0..layout.total_segments).collect();
    let (base, files, ends) = run_pipeline(30, 1, &order, false, None);
    let mut text = encode_text(&base);
    text.extend_from_slice(&files[0]);
    assert_eq!(
        String::from_utf8(text).unwrap(),
        "2\n3\n5\n7\n11\n13\n17\n19\n23\n29\n"
    );
    assert!(ends.iter().all(|e| e.is_ok()));
}

#[test]
fn scenario_binary_million_three_consumers() {
    let limit = 1_000_000;
    let (layout, _) = layout_and_base(limit);
    let order: Vec<usize> = (0..layout.total_segments).rev().collect();
    let (base, files, ends) = run_pipeline(limit, 3, &order, true, None);
    assert!(ends.iter().all(|e| e.is_ok()));
    let mut all: Vec<u64> = decode_binary(&encode_binary(&base)).unwrap();
    for f in &files {
        let values = decode_binary(f).unwrap();
        assert!(values.windows(2).all(|w| w[0] < w[1]));
        all.extend(values);
    }
    all.sort();
    assert_eq!(all.len(), 78_498);
    let reference: Vec<u64> = find_primes_v1(limit).into_iter().map(|p| p as u64).collect();
    assert_eq!(all, reference);
}

#[test]
fn scenario_dropped_consumer_leaves_others_whole() {
    let limit = 3_200_000;
    let (layout, base) = layout_and_base(limit);
    assert!(layout.total_segments >= 6);
    let order: Vec<usize> = (0..layout.total_segments).rev().collect();
    let (_, files, ends) = run_pipeline(limit, 3, &order, true, Some(1));
    assert!(ends[0].is_ok() && ends[2].is_ok());
    assert!(files[1].is_empty());
    let mut scratch = all_set(SEGMENT_WORDS);
    for c in [0usize, 2] {
        let values = decode_binary(&files[c]).unwrap();
        assert!(values.windows(2).all(|w| w[0] < w[1]));
        let mut expected: Vec<u64> = Vec::new();
        for idx in 0..layout.total_segments {
            if consumer_of(idx + 1, 3) == c {
                let seg = layout.compute_segment(idx, &base, &mut scratch);
                expected.extend(seg.primes.iter().map(|&p| p as u64));
            }
        }
        assert_eq!(values, expected);
    }
}

#[test]
fn outputs_are_identical_across_orders() {
    let limit = 2_500_000;
    let (layout, _) = layout_and_base(limit);
    let forward: Vec<usize> = (0..layout.total_segments).collect();
    let mut shuffled = forward.clone();
    shuffled.swap(0, 3);
    shuffled.reverse();
    let (_, a, _) = run_pipeline(limit, 2, &forward, true, None);
    let (_, b, _) = run_pipeline(limit, 2, &shuffled, true, None);
    assert_eq!(a, b);
}

#[test]
fn segments_partition_the_range() {
    let layout = SegmentLayout::new(2_000_000, 1414);
    assert_eq!(layout.low, 1415);
    assert_eq!(layout.total_segments, 4);
    let mut next = layout.low;
    for idx in 0..layout.total_segments {
        let (lo, hi) = layout.bounds(idx);
        assert_eq!(lo, next);
        assert!(hi - lo < SEGMENT_SIZE_NUMBERS);
        next = hi + 1;
    }
    assert_eq!(next, 2_000_001);
    let even = SegmentLayout::new(16, 4);
    assert_eq!(even.low, 5);
}

#[test]
fn routing_is_round_robin() {
    assert_eq!(consumer_of(1, 3), 0);
    assert_eq!(consumer_of(2, 3), 1);
    assert_eq!(consumer_of(3, 3), 2);
    assert_eq!(consumer_of(4, 3), 0);
    assert_eq!(first_id_of(2), 3);
}

fn segment(id: usize) -> SegmentPrimes {
    SegmentPrimes { primes: vec![id], segment_id: id }
}

#[test]
fn reorder_releases_in_id_order() {
    let mut buf = ReorderBuffer::new(2, 3);
    assert!(buf.accept(segment(8)).unwrap().is_empty());
    assert!(buf.accept(segment(5)).unwrap().is_empty());
    assert_eq!(buf.pending_len(), 2);
    let run = buf.accept(segment(2)).unwrap();
    let ids: Vec<usize> = run.iter().map(|s| s.segment_id).collect();
    assert_eq!(ids, vec![2, 5, 8]);
    assert_eq!(buf.next_expected_id(), 11);
    assert_eq!(buf.finish(), Ok(()));
}

#[test]
fn reorder_refuses_protocol_violations() {
    let mut buf = ReorderBuffer::new(1, 2);
    assert_eq!(buf.accept(segment(2)).unwrap_err(), ReorderError::Foreign { id: 2 });
    assert!(buf.accept(segment(5)).unwrap().is_empty());
    assert_eq!(buf.accept(segment(5)).unwrap_err(), ReorderError::Duplicate { id: 5 });
    assert_eq!(buf.accept(segment(1)).unwrap().len(), 1);
    assert_eq!(buf.accept(segment(1)).unwrap_err(), ReorderError::Stale { id: 1 });
    assert_eq!(buf.finish(), Err(ReorderError::Residual { pending: 1 }));
}

#[test]
fn text_and_binary_records() {
    let values = vec![0usize, 7, 1234567890];
    assert_eq!(encode_text(&values), b"0\n7\n1234567890\n".to_vec());
    let bytes = encode_binary(&vec![1usize, 258]);
    assert_eq!(bytes, vec![1, 0, 0, 0, 0, 0, 0, 0, 2, 1, 0, 0, 0, 0, 0, 0]);
    assert_eq!(decode_binary(&bytes), Some(vec![1u64, 258]));
    assert_eq!(decode_binary(&vec![1, 2, 3]), None);
    assert_eq!(encode_text(&vec![]), Vec::<u8>::new());
}

#[test]
fn batches_cover_the_range_in_order() {
    let limit = 1_200_000;
    let mut batches = PrimeBatches::new(limit, 1095);
    let mut all = Vec::new();
    let mut count = 0;
    while let Some(b) = batches.next_batch() {
        all.extend(b);
        count += 1;
    }
    assert_eq!(count, 4);
    assert_eq!(all, find_primes_v1(limit));
    assert!(PrimeBatches::new(1, 1).next_batch().is_none());
    let mut two = PrimeBatches::new(2, 1);
    assert_eq!(two.next_batch(), Some(vec![2]));
    assert_eq!(two.next_batch(), None);
}

#[test]
fn streaming_sends_everything() {
    let (tx, rx) = mpsc::channel();
    find_primes_v6_streaming(1_100_000, 1048, tx);
    let all: Vec<usize> = rx.iter().flatten().collect();
    assert_eq!(all, find_primes_v1(1_100_000));
    for v in 1..=5u32 {
        let (tx, rx) = mpsc::channel();
        find_primes_streaming(1000, v, tx);
        assert_eq!(rx.iter().collect::<Vec<usize>>(), find_primes_v1(1000));
    }
}

#[test]
fn streaming_stops_when_receiver_is_gone() {
    let (tx, rx) = mpsc::channel::<Vec<usize>>();
    drop(rx);
    find_primes_v6_streaming(3_000_000, 1732, tx);
    let (tx, rx) = mpsc::channel::<usize>();
    drop(rx);
    find_primes_streaming(100_000, 5, tx);
}

#[test]
fn raw_segments_unpack_to_primes() {
    let limit = 1_100_000;
    let (tx, rx) = mpsc::channel::<SegmentData>();
    find_primes_v7_streaming(limit, 1048, tx);
    let mut all = vec![2usize];
    for data in rx.iter() {
        all.extend(unpack_segment(&data, limit));
    }
    assert_eq!(all, find_primes_v1(limit));
}

#[test]
fn packing_marks_odd_primes_from_three() {
    let bits = pack_primes_to_bits(&vec![2, 3, 5, 7, 11, 13]);
    assert_eq!(bits, vec![0b110111]);
    assert_eq!(pack_primes_to_bits(&vec![2]), vec![1]);
    assert_eq!(pack_primes_to_bits(&vec![]), Vec::<u64>::new());
    assert_eq!(pack_primes_to_bits(&vec![2, 5, 7, 13]), vec![0b10011]);
    assert_eq!(pack_primes_to_bits(&vec![3, 131]).len(), 2);
    let data = SegmentData { bits, low: 3, high: 13 };
    assert_eq!(unpack_segment(&data, 100), vec![3, 5, 7, 11, 13]);
    assert_eq!(unpack_segment(&data, 8), vec![3, 5, 7]);
}

#[test]
fn admission_keeps_in_flight_under_ceiling() {
    let mut adm = WriteAdmission::new(2, 2, 3);
    let p1 = adm.plan_write(16).unwrap();
    assert_eq!((p1.offset, p1.submit_batch, p1.wait_for), (0, false, 0));
    let p2 = adm.plan_write(8).unwrap();
    assert_eq!((p2.offset, p2.submit_batch, p2.wait_for), (16, false, 0));
    let p3 = adm.plan_write(8).unwrap();
    assert_eq!((p3.offset, p3.submit_batch, p3.wait_for), (24, true, 2));
    assert_eq!(adm.in_flight(), 3);
    assert_eq!(adm.record_completion(8), Ok(()));
    assert_eq!(adm.record_completion(-5), Err(WriteError::Failed { code: -5 }));
    assert_eq!(adm.in_flight(), 2);
    assert_eq!(adm.closing(), (false, 2));
    let mut full = WriteAdmission::new(10, 1, 1);
    full.plan_write(u64::MAX).unwrap();
    assert!(full.plan_write(1).is_none());
}

#[test]
fn scheduler_hands_out_each_index_once() {
    let mut sched = SegmentScheduler::new(5);
    let mut claimed = Vec::new();
    while let Some(i) = sched.claim_next() {
        claimed.push(i);
    }
    assert_eq!(claimed, vec![0, 1, 2, 3, 4]);
    assert_eq!(sched.claim_next(), None);
    assert_eq!(SegmentScheduler::new(0).claim_next(), None);
}

#[test]
fn every_segment_id_delivered_once() {
    let limit = 3_200_000;
    let (layout, base) = layout_and_base(limit);
    let mut sched = SegmentScheduler::new(layout.total_segments);
    let mut scratch = all_set(SEGMENT_WORDS);
    let mut seen = vec![0usize; layout.total_segments + 1];
    while let Some(idx) = sched.claim_next() {
        let seg = layout.compute_segment(idx, &base, &mut scratch);
        seen[seg.segment_id] += 1;
    }
    assert_eq!(seen[0], 0);
    assert!(seen[1..].iter().all(|&n| n == 1));
}

#[test]
fn raw_messages_in_order() {
    let limit = 1_100_000;
    let mut raw = RawSegments::new(limit, 1048);
    let first = raw.next_raw().unwrap();
    assert_eq!((first.low, first.high), (3, 1048));
    let mut all = vec![2usize];
    all.extend(unpack_segment(&first, limit));
    let mut count = 1;
    while let Some(d) = raw.next_raw() {
        assert_eq!(d.bits.len(), SEGMENT_WORDS);
        assert!(d.high <= limit);
        all.extend(unpack_segment(&d, limit));
        count += 1;
    }
    assert_eq!(count, 4);
    assert_eq!(all, find_primes_v1(limit));
}

#[test]
fn raw_run_below_two_sends_one_empty_message() {
    for limit in [0usize, 1] {
        let (tx, rx) = mpsc::channel::<SegmentData>();
        find_primes_v7_streaming(limit, limit, tx);
        let msgs: Vec<SegmentData> = rx.iter().collect();
        assert_eq!(msgs.len(), 1);
        assert!(msgs[0].bits.is_empty());
        assert_eq!((msgs[0].low, msgs[0].high), (3, limit));
    }
    let (tx, rx) = mpsc::channel::<SegmentData>();
    find_primes_v7_streaming(2, 1, tx);
    let msgs: Vec<SegmentData> = rx.iter().collect();
    assert_eq!(msgs.len(), 1);
    assert!(msgs[0].bits.is_empty());
}

#[test]
fn batches_at_two_ignore_the_root() {
    let (tx, rx) = mpsc::channel();
    find_primes_v6_streaming(2, 0, tx);
    assert_eq!(rx.iter().collect::<Vec<Vec<usize>>>(), vec![vec![2]]);
}

#[test]
fn scheduler_skips_closed_consumers() {
    let mut sched = SegmentScheduler::new(7);
    let open = vec![true, false, true];
    let mut got = Vec::new();
    while let Some(w) = sched.next_open_work(&open) {
        got.push(w);
    }
    assert_eq!(got, vec![(0, 0), (2, 2), (3, 0), (5, 2), (6, 0)]);
    assert_eq!(sched.next_open_work(&open), None);
}

#[test]
fn residual_segments_drain_in_id_order() {
    let mut buf = ReorderBuffer::new(1, 2);
    assert!(buf.accept(segment(9)).unwrap().is_empty());
    assert!(buf.accept(segment(5)).unwrap().is_empty());
    assert!(buf.accept(segment(13)).unwrap().is_empty());
    assert_eq!(buf.finish(), Err(ReorderError::Residual { pending: 3 }));
    let ids: Vec<usize> = buf.drain_residual().iter().map(|s| s.segment_id).collect();
    assert_eq!(ids, vec![5, 9, 13]);
    assert_eq!(buf.finish(), Ok(()));
    assert!(buf.drain_residual().is_empty());
}

#[test]
fn streaming_reports_what_the_channel_took() {
    let (tx, rx) = mpsc::channel::<Vec<usize>>();
    let (sent, _) = find_primes_v6_streaming(1_100_000, 1048, tx);
    assert_eq!(sent, 4);
    assert_eq!(rx.iter().count(), 4);
    let (tx, rx) = mpsc::channel::<Vec<usize>>();
    drop(rx);
    let (sent, _) = find_primes_v6_streaming(1_100_000, 1048, tx);
    assert_eq!(sent, 0);
    let (tx, rx) = mpsc::channel::<SegmentData>();
    let (sent, _) = find_primes_v7_streaming(1_100_000, 1048, tx);
    assert_eq!(sent, 4);
    assert_eq!(rx.iter().count(), 4);
    let (tx, rx) = mpsc::channel::<usize>();
    let (sent, _) = nt::stream::find_primes_v5_streaming(100, tx);
    assert_eq!(sent, 25);
    assert_eq!(rx.iter().collect::<Vec<usize>>(), find_primes_v1(100));
    let (tx, rx) = mpsc::channel::<usize>();
    drop(rx);
    let (sent, _) = nt::stream::find_primes_v5_streaming(100, tx);
    assert_eq!(sent, 0);
}
