use sosistab_stream::calc::{BwCalculator, RttCalculator};
use sosistab_stream::congestion::{CongestionControl, Highspeed};
use sosistab_stream::inflight::Inflight;
use sosistab_stream::message::{Message, RelKind};
use sosistab_stream::queues::{StreamError, StreamQueues};
use sosistab_stream::reorderer::Reorderer;

fn data(seqno: u64) -> Message {
    Message::Rel { kind: RelKind::Data, stream_id: 1, seqno, payload: vec![seqno as u8; 3] }
}

#[test]
fn inflight_insert_and_ack() {
    let mut inf = Inflight::new();
    assert_eq!(inf.unacked(), 0);
    assert_eq!(inf.last_minus_first(), 0);
    assert_eq!(inf.first_rto(), None);
    inf.insert(data(4), 100);
    inf.insert(data(9), 150);
    inf.insert(data(6), 120);
    assert_eq!(inf.unacked(), 3);
    assert_eq!(inf.inflight(), 3);
    assert_eq!(inf.last_minus_first(), 5);
    assert_eq!(inf.first_rto(), Some((4, 1100)));
    assert!(inf.mark_acked(4, 140));
    assert!(!inf.mark_acked(4, 141));
    assert_eq!(inf.unacked(), 2);
    assert_eq!(inf.min_rtt(), 40);
    assert_eq!(inf.first_rto(), Some((6, 1120)));
}

#[test]
fn inflight_mark_acked_lt_counts_removed() {
    let mut inf = Inflight::new();
    for s in 0..6u64 {
        inf.insert(data(s), 0);
    }
    assert_eq!(inf.mark_acked_lt(4, 10), 4);
    assert_eq!(inf.unacked(), 2);
    assert_eq!(inf.mark_acked_lt(4, 10), 0);
    assert_eq!(inf.last_minus_first(), 1);
}

#[test]
fn inflight_retransmit_backs_off() {
    let mut inf = Inflight::new();
    inf.insert(data(1), 0);
    assert!(inf.retransmit(2, 5).is_none());
    let m = inf.retransmit(1, 5).unwrap();
    assert_eq!(m.seqno(), 1);
    match m {
        Message::Rel { payload, .. } => assert_eq!(payload, vec![1, 1, 1]),
        _ => panic!(),
    }
    assert_eq!(inf.first_rto(), Some((1, 5 + 2000)));
    inf.retransmit(1, 10).unwrap();
    assert_eq!(inf.first_rto(), Some((1, 10 + 4000)));
    for _ in 0..10 {
        inf.retransmit(1, 10).unwrap();
    }
    assert_eq!(inf.first_rto(), Some((1, 10 + 60_000)));
    // a retransmitted packet gives no round-trip sample
    assert!(inf.mark_acked(1, 20));
    assert_eq!(inf.min_rtt(), 1000);
}

#[test]
fn inflight_mark_lost_leaves_index() {
    let mut inf = Inflight::new();
    inf.insert(data(1), 0);
    inf.insert(data(2), 50);
    assert!(inf.mark_lost(1));
    assert!(!inf.mark_lost(3));
    assert_eq!(inf.unacked(), 2);
    assert_eq!(inf.first_rto(), Some((2, 1050)));
    inf.retransmit(1, 100).unwrap();
    assert_eq!(inf.first_rto(), Some((2, 1050)));
    assert!(inf.mark_lost(2));
    assert_eq!(inf.first_rto(), Some((1, 2100)));
}

#[test]
fn inflight_bdp_from_rate_and_rtt() {
    let mut inf = Inflight::new();
    assert_eq!(inf.bdp(), 0);
    for s in 0..10u64 {
        inf.insert(data(s), 0);
    }
    for s in 0..10u64 {
        inf.mark_acked(s, 100);
    }
    // ten packets over 100 ms, round trip 100 ms
    assert_eq!(inf.min_rtt(), 100);
    assert_eq!(inf.bdp(), 10);
    // variation 50, then 37, 27, 20, 15, 11, 8, 6, 4, 3
    assert_eq!(inf.rto(), 112);
}

#[test]
fn rtt_calculator_smooths() {
    let mut r = RttCalculator::new();
    assert_eq!(r.rto(), 1000);
    assert_eq!(r.min_rtt(), 1000);
    r.record_sample(80);
    assert_eq!((r.srtt, r.rttvar, r.min_rtt), (80, 40, 80));
    assert_eq!(r.rto(), 240);
    r.record_sample(160);
    assert_eq!((r.srtt, r.rttvar, r.min_rtt), (90, 50, 80));
    assert_eq!(r.rto(), 290);
    r.record_sample(0);
    assert_eq!(r.min_rtt(), 0);
    let mut fast = RttCalculator::new();
    fast.record_sample(1);
    assert_eq!(fast.rto(), 10);
    let mut slow = RttCalculator::new();
    slow.record_sample(5000);
    assert_eq!(slow.rto(), 1000);
}

#[test]
fn bw_calculator_samples_rate() {
    let mut b = BwCalculator::new();
    b.on_ack(0, 0, 50, 1000);
    b.on_ack(0, 0, 100, 1000);
    assert_eq!(b.delivered, 2);
    assert_eq!(b.delivered_time, 100);
    assert_eq!((b.rate_packets, b.rate_interval), (2, 100));
    assert_eq!(b.bdp(500), 10);
    // a slower sample does not replace a recent faster one
    b.on_ack(2, 100, 1000, 1000);
    assert_eq!((b.rate_packets, b.rate_interval, b.rate_time), (2, 100, 100));
    // once the kept sample is older than the window, it does
    b.on_ack(3, 1000, 2000, 1000);
    assert_eq!((b.rate_packets, b.rate_interval, b.rate_time), (1, 1000, 2000));
}

#[test]
fn highspeed_grows_and_shrinks() {
    let mut h = Highspeed::new(1);
    assert_eq!(h.cwnd(), 1);
    for _ in 0..31 {
        h.mark_ack();
    }
    assert_eq!(h.cwnd(), 32);
    h.mark_ack();
    assert_eq!(h.cwnd(), 33);
    h.mark_ack();
    assert_eq!(h.cwnd(), 33);
    h.mark_loss();
    assert_eq!(h.cwnd(), 23);
    let mut one = Highspeed::new(0);
    one.mark_loss();
    assert_eq!(one.cwnd(), 1);
}

#[test]
fn highspeed_monotone_without_loss() {
    let mut h = Highspeed::new(3);
    let mut last = h.cwnd();
    for _ in 0..500 {
        h.mark_ack();
        assert!(h.cwnd() >= last);
        last = h.cwnd();
    }
    for _ in 0..50 {
        h.mark_loss();
        assert!(h.cwnd() <= last);
        last = h.cwnd();
    }
}

#[test]
fn reorderer_takes_consecutive_run() {
    let mut r = Reorderer::new();
    assert!(r.insert(1, b"b".to_vec()));
    assert!(!r.insert(1, b"B".to_vec()));
    assert!(r.take().is_empty());
    assert!(r.insert(0, b"a".to_vec()));
    assert!(r.insert(3, b"d".to_vec()));
    let run = r.take();
    assert_eq!(run, vec![(0, b"a".to_vec()), (1, b"b".to_vec())]);
    assert_eq!(r.next_expected(), 2);
    assert!(!r.insert(1, b"b".to_vec()));
    assert!(r.insert(2, b"c".to_vec()));
    assert_eq!(r.take(), vec![(2, b"c".to_vec()), (3, b"d".to_vec())]);
    assert!(!r.insert(u64::MAX, vec![]));
}

#[test]
fn reorderer_is_bounded() {
    let mut r = Reorderer::new();
    for s in 1..=1024u64 {
        assert!(r.insert(s, vec![]));
    }
    assert!(!r.insert(2000, vec![]));
    assert!(!r.insert(0, vec![]));
    assert_eq!(r.take().len(), 0);
}

#[test]
fn writes_fail_after_close() {
    let mut q = StreamQueues::new();
    assert_eq!(q.try_write(b"abc"), Ok(3));
    q.close();
    assert!(q.write_ready());
    assert_eq!(q.try_write(b"d"), Err(StreamError::BrokenPipe));
    assert_eq!(q.write_stream.len(), 3);
    assert!(q.closed);
}
