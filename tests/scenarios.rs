use sosistab_stream::acks::{ack_payload, acked_list};
use sosistab_stream::congestion::{CongestionControl, Highspeed};
use sosistab_stream::message::{Message, RelKind};
use sosistab_stream::queues::{StreamError, StreamQueues};
use sosistab_stream::state::{Phase, StreamState};

struct Counting {
    window: usize,
    acks: usize,
    losses: usize,
}

impl CongestionControl for Counting {
    fn cwnd(&self) -> usize {
        self.window
    }
    fn mark_ack(&mut self) {
        self.acks += 1;
    }
    fn mark_loss(&mut self) {
        self.losses += 1;
    }
}

fn counting(window: usize) -> Counting {
    Counting { window, acks: 0, losses: 0 }
}

fn rel(kind: RelKind, seqno: u64, payload: &[u8]) -> Message {
    Message::Rel { kind, stream_id: 7, seqno, payload: payload.to_vec() }
}

fn kind_seqno(m: &Message) -> Option<(RelKind, u64, usize)> {
    match m {
        Message::Rel { kind, seqno, payload, .. } => Some((*kind, *seqno, payload.len())),
        Message::Urel { .. } => None,
    }
}

#[test]
fn clean_handshake_and_transfer() {
    let mut q = StreamQueues::new();
    let mut s = StreamState::new_client(7, b"hello".to_vec(), counting(3));
    assert_eq!(s.phase(), Phase::Pending);
    let (out, next) = s.tick(&mut q, 0);
    assert_eq!(out.len(), 1);
    match &out[0] {
        Message::Rel { kind, stream_id, seqno, payload } => {
            assert_eq!(*kind, RelKind::Syn);
            assert_eq!(*stream_id, 7);
            assert_eq!(*seqno, 0);
            assert_eq!(payload.as_slice(), b"hello");
        }
        _ => panic!("expected Syn"),
    }
    assert_eq!(next, 1000);
    assert_eq!(s.phase(), Phase::SynSent { next_resend: 1000 });
    s.inject_incoming(rel(RelKind::SynAck, 0, b"hello"));
    s.tick(&mut q, 5);
    assert_eq!(s.phase(), Phase::Established);
    assert!(q.connected);

    assert_eq!(q.write_bytes(&[9u8; 3000]), 3000);
    let (out, _) = s.tick(&mut q, 10);
    let data: Vec<_> = out.iter().filter_map(kind_seqno).filter(|x| x.0 == RelKind::Data).collect();
    assert_eq!(data, vec![(RelKind::Data, 0, 1000), (RelKind::Data, 1, 1000), (RelKind::Data, 2, 1000)]);
    assert_eq!(s.inflight().unacked(), 3);
    s.inject_incoming(rel(RelKind::DataAck, 3, &ack_payload(&vec![])));
    s.tick(&mut q, 20);
    assert_eq!(s.inflight().unacked(), 0);
    assert_eq!(s.congestion().acks, 3);
}

#[test]
fn out_of_order_delivery() {
    let mut q = StreamQueues::new();
    let mut s = StreamState::new_server(7, vec![], Highspeed::new(1));
    s.inject_incoming(rel(RelKind::Data, 2, b"c"));
    s.inject_incoming(rel(RelKind::Data, 0, b"a"));
    s.inject_incoming(rel(RelKind::Data, 1, b"b"));
    let (out, _) = s.tick(&mut q, 0);
    assert_eq!(q.read_bytes(100), b"abc".to_vec());
    let acks: Vec<_> = out.iter().filter_map(kind_seqno).filter(|x| x.0 == RelKind::DataAck).collect();
    assert_eq!(acks.len(), 1);
    assert_eq!(acks[0].1, 3);
    assert_eq!(s.read_until(), 3);
}

#[test]
fn loss_and_rto_retransmit() {
    let mut q = StreamQueues::new();
    let mut s = StreamState::new_server(7, vec![], counting(2));
    q.write_bytes(&[1u8; 2000]);
    let (out, _) = s.tick(&mut q, 0);
    let data: Vec<_> = out.iter().filter_map(kind_seqno).map(|x| x.1).collect();
    assert_eq!(data, vec![0, 1]);
    assert_eq!(s.inflight().first_rto(), Some((0, 1000)));
    let (out, _) = s.tick(&mut q, 1001);
    let resent: Vec<_> = out.iter().filter_map(kind_seqno).map(|x| x.1).collect();
    assert_eq!(resent[0], 0);
    assert_eq!(s.congestion().losses, 1);
    // the second deadline is twice the timeout away
    assert_eq!(s.inflight().first_rto(), Some((0, 1001 + 2000)));
}

#[test]
fn duplicate_syn_after_established() {
    let mut q = StreamQueues::new();
    let mut s = StreamState::new_server(7, b"hello".to_vec(), Highspeed::new(1));
    s.tick(&mut q, 0);
    s.inject_incoming(rel(RelKind::Syn, 0, b"hello"));
    let (out, _) = s.tick(&mut q, 1);
    assert!(out.iter().any(|m| matches!(m, Message::Rel { kind: RelKind::SynAck, seqno: 0, payload, .. } if payload.as_slice() == b"hello")));
    assert_eq!(s.phase(), Phase::Established);
}

#[test]
fn peer_reset() {
    let mut q = StreamQueues::new();
    let mut s = StreamState::new_server(7, vec![], Highspeed::new(1));
    s.tick(&mut q, 0);
    s.inject_incoming(rel(RelKind::Rst, 0, b""));
    let (_, next) = s.tick(&mut q, 100);
    assert_eq!(s.phase(), Phase::Closed { since: 100 });
    assert_eq!(next, 100 + 30_000);
    assert!(q.closed);
    assert!(q.read_ready());
    assert_eq!(q.read_bytes(10).len(), 0);
    assert_eq!(q.pop_recv_urel(), Some(Err(StreamError::BrokenPipe)));
    s.inject_incoming(rel(RelKind::Data, 0, b"x"));
    let (out, _) = s.tick(&mut q, 200);
    assert_eq!(out.iter().filter_map(kind_seqno).map(|x| x.0).collect::<Vec<_>>(), vec![RelKind::Rst]);
    assert!(!s.is_evictable(29_000));
    assert!(s.is_evictable(30_100));
}

#[test]
fn backpressure() {
    let mut q = StreamQueues::new();
    let mut s = StreamState::new_server(7, vec![], Highspeed::new(1));
    let mut written = 0;
    while q.write_ready() {
        written += q.write_bytes(&[5u8; 1000]);
    }
    assert_eq!(written, 101_000);
    assert!(q.write_stream.len() > 100_000);
    assert!(!q.write_ready());
    let mut now = 0;
    while !q.write_ready() {
        let (out, _) = s.tick(&mut q, now);
        let top = out.iter().filter_map(kind_seqno).map(|x| x.1).max();
        if let Some(top) = top {
            s.inject_incoming(rel(RelKind::DataAck, top + 1, b""));
        }
        now += 1;
        assert!(now < 100_000);
    }
    assert!(q.write_stream.len() <= 100_000);
    assert_eq!(q.write_bytes(&[5u8; 10]), 10);
}

/// Two streams joined by a pipe that delivers each batch backwards and twice.
#[test]
fn lossless_reordering_pipe_delivers_all_bytes() {
    let mut qa = StreamQueues::new();
    let mut qb = StreamQueues::new();
    let mut a = StreamState::new_client(7, b"hi".to_vec(), Highspeed::new(1));
    let mut b = StreamState::new_server(7, b"hi".to_vec(), Highspeed::new(1));
    let written: Vec<u8> = (0..25_000u32).map(|i| (i * 7 % 251) as u8).collect();
    qa.write_bytes(&written);
    let mut got = Vec::new();
    let mut now = 0;
    while got.len() < written.len() && now < 5_000 {
        let (out_a, _) = a.tick(&mut qa, now);
        for m in out_a.iter().rev() {
            b.inject_incoming(m.clone());
            b.inject_incoming(m.clone());
        }
        let (out_b, _) = b.tick(&mut qb, now);
        for m in out_b.iter().rev() {
            a.inject_incoming(m.clone());
            a.inject_incoming(m.clone());
        }
        got.extend(qb.read_bytes(100_000));
        now += 1;
    }
    assert_eq!(got, written);
}

#[test]
fn read_until_never_decreases() {
    let mut q = StreamQueues::new();
    let mut s = StreamState::new_server(7, vec![], Highspeed::new(1));
    let mut last = s.read_until();
    for seq in [3u64, 0, 0, 2, 1, 1, 5, 4] {
        s.inject_incoming(rel(RelKind::Data, seq, b"z"));
        s.tick(&mut q, seq);
        assert!(s.read_until() >= last);
        last = s.read_until();
    }
    assert_eq!(last, 6);
}

#[test]
fn closed_handle_closes_stream_once_flushed() {
    let mut q = StreamQueues::new();
    let mut s = StreamState::new_server(7, vec![], Highspeed::new(1));
    q.write_bytes(b"bye");
    q.close();
    let (out, _) = s.tick(&mut q, 0);
    assert_eq!(s.phase(), Phase::Established);
    assert_eq!(out.iter().filter_map(kind_seqno).map(|x| x.0).collect::<Vec<_>>(), vec![RelKind::Data]);
    s.inject_incoming(rel(RelKind::DataAck, 1, b""));
    let (out, _) = s.tick(&mut q, 1);
    assert_eq!(s.phase(), Phase::Closed { since: 1 });
    assert!(out.iter().any(|m| matches!(m, Message::Rel { kind: RelKind::Rst, .. })));
    assert!(q.closed);
}

#[test]
fn syn_is_resent_until_acknowledged() {
    let mut q = StreamQueues::new();
    let mut s = StreamState::new_client(7, b"x".to_vec(), Highspeed::new(1));
    s.tick(&mut q, 0);
    let (out, next) = s.tick(&mut q, 500);
    assert!(out.is_empty());
    assert_eq!(next, 1000);
    let (out, next) = s.tick(&mut q, 1000);
    assert_eq!(out.len(), 1);
    assert_eq!(next, 2000);
    assert!(!q.connected);
}

#[test]
fn datagrams_pass_both_ways() {
    let mut q = StreamQueues::new();
    let mut s = StreamState::new_server(7, vec![], Highspeed::new(1));
    q.push_send_urel(b"up".to_vec());
    s.inject_incoming(Message::Urel { stream_id: 7, payload: b"down".to_vec() });
    let (out, _) = s.tick(&mut q, 0);
    assert!(out.iter().any(|m| matches!(m, Message::Urel { payload, .. } if payload.as_slice() == b"up")));
    assert_eq!(q.pop_recv_urel(), Some(Ok(b"down".to_vec())));
    assert_eq!(q.pop_recv_urel(), None);
}

#[test]
fn selective_acks_round_trip() {
    let list = vec![1u64, 300, 70_000];
    let bytes = ack_payload(&list);
    assert!(!bytes.is_empty());
    assert_ne!(bytes.len(), 0);
    assert_eq!(acked_list(&bytes), list);
    assert_eq!(acked_list(&[0xff, 0xff]), Vec::<u64>::new());
}

#[test]
fn selective_ack_clears_listed_packets() {
    let mut q = StreamQueues::new();
    let mut s = StreamState::new_server(7, vec![], counting(10));
    q.write_bytes(&[0u8; 4000]);
    s.tick(&mut q, 0);
    assert_eq!(s.inflight().unacked(), 4);
    s.inject_incoming(rel(RelKind::DataAck, 1, &ack_payload(&vec![3])));
    s.tick(&mut q, 10);
    assert_eq!(s.inflight().unacked(), 2);
    assert_eq!(s.congestion().acks, 2);
}

#[test]
fn undecodable_ack_still_acks_cumulatively() {
    let mut q = StreamQueues::new();
    let mut s = StreamState::new_server(7, vec![], counting(10));
    q.write_bytes(&[0u8; 3000]);
    s.tick(&mut q, 0);
    assert_eq!(s.inflight().unacked(), 3);
    s.inject_incoming(rel(RelKind::DataAck, 2, &[0xff, 0xff]));
    s.tick(&mut q, 10);
    assert_eq!(s.inflight().unacked(), 1);
    assert_eq!(s.congestion().acks, 2);
}

#[test]
fn every_due_packet_is_resent_once() {
    let mut q = StreamQueues::new();
    let mut s = StreamState::new_server(7, vec![], counting(5));
    q.write_bytes(&[3u8; 3500]);
    let (out, _) = s.tick(&mut q, 0);
    assert_eq!(out.len(), 4);
    let (out, next) = s.tick(&mut q, 1000);
    let mut resent: Vec<_> = out.iter().filter_map(kind_seqno).map(|x| (x.1, x.2)).collect();
    resent.sort();
    assert_eq!(resent, vec![(0, 1000), (1, 1000), (2, 1000), (3, 500)]);
    assert_eq!(s.congestion().losses, 1);
    assert_eq!(next, 3000);
}

#[test]
fn reset_takes_precedence_over_queued_data() {
    let mut q = StreamQueues::new();
    let mut s = StreamState::new_server(7, vec![], Highspeed::new(1));
    s.tick(&mut q, 0);
    q.write_bytes(b"pending");
    s.inject_incoming(rel(RelKind::Data, 0, b"late"));
    s.inject_incoming(rel(RelKind::Rst, 0, b""));
    let (out, _) = s.tick(&mut q, 5);
    assert_eq!(s.phase(), Phase::Closed { since: 5 });
    assert_eq!(q.read_bytes(100).len(), 0);
    assert_eq!(q.write_stream.len(), 7);
    assert_eq!(out.iter().filter_map(kind_seqno).map(|x| x.0).collect::<Vec<_>>(), vec![RelKind::Rst]);
    assert_eq!(s.inflight().unacked(), 0);
}
