use vstd::prelude::*;

use crate::acks::{ack_list_of, ack_payload, acked_list};
use crate::congestion::CongestionControl;
use crate::inflight::{backoff_factor, rto_pairs, sat_add, Inflight, InflightEntry};
use crate::message::{Message, MessageView, RelKind};
use crate::queues::StreamQueues;
use crate::reorderer::{Reorderer, REORDER_CAP};

verus! {

/// The largest payload of one data packet, in bytes.
pub const MSS: usize = 1000;

/// Arriving data is dropped while more than this many bytes wait to be read.
pub const READ_CAP: usize = 1_000_000;

/// How long a handshake waits before sending `Syn` again, in milliseconds.
pub const SYN_RESEND_MS: u64 = 1000;

/// How long a closed stream keeps answering with `Rst`, in milliseconds.
pub const CLOSED_LINGER_MS: u64 = 30_000;

/// The longest wait between two ticks of an open stream, in milliseconds.
pub const IDLE_TICK_MS: u64 = 1_000_000;

/// Where a stream stands in its life.
#[derive(Clone, Copy, Debug, PartialEq, Eq, Structural)]
pub enum Phase {
    /// Created by the initiator, before the first tick.
    Pending,
    /// `Syn` sent; sent again at `next_resend` until `SynAck` comes.
    SynSent { next_resend: u64 },
    Established,
    /// Closed at `since`; evictable `CLOSED_LINGER_MS` later.
    Closed { since: u64 },
}

fn add_saturating(a: u64, b: u64) -> (r: u64)
    ensures
        r == sat_add(a, b),
{
    if a <= u64::MAX - b {
        a + b
    } else {
        u64::MAX
    }
}

/// Whether `out` holds a message that looks like `v`.
pub open spec fn emits(out: Seq<Message>, v: MessageView) -> bool {
    exists|i: int| 0 <= i < out.len() && (#[trigger] out[i])@ == v
}

/// The answer to a `Syn`: a `SynAck` with the same seqno and payload.
pub open spec fn syn_echo(stream_id: u16, m: MessageView) -> MessageView {
    match m {
        MessageView::Rel { seqno, payload, .. } => MessageView::Rel {
            kind: RelKind::SynAck,
            stream_id,
            seqno,
            payload,
        },
        MessageView::Urel { payload, .. } => MessageView::Urel { stream_id, payload },
    }
}

proof fn lemma_emits_prefix(a: Seq<Message>, b: Seq<Message>, v: MessageView)
    requires
        b.len() >= a.len(),
        b.subrange(0, a.len() as int) == a,
        emits(a, v),
    ensures
        emits(b, v),
{
    let w = choose|w: int| 0 <= w < a.len() && (#[trigger] a[w])@ == v;
    assert(b.subrange(0, a.len() as int)[w] == b[w]);
}

/// Whether `m` acknowledges everything below `seqno` on stream `stream_id`.
pub open spec fn is_ack_of(m: MessageView, stream_id: u16, seqno: u64) -> bool {
    match m {
        MessageView::Rel { kind, stream_id: id, seqno: s, .. } => kind == RelKind::DataAck && id == stream_id
            && s == seqno,
        MessageView::Urel { .. } => false,
    }
}

/// Whether `out` holds a cumulative acknowledgement of everything below
/// `seqno` on stream `stream_id`.
pub open spec fn emits_ack(out: Seq<Message>, stream_id: u16, seqno: u64) -> bool {
    exists|i: int| 0 <= i < out.len() && is_ack_of((#[trigger] out[i])@, stream_id, seqno)
}

/// Whether `m` carries data.
pub open spec fn is_data(m: MessageView) -> bool {
    m matches MessageView::Rel { kind: RelKind::Data, .. }
}

proof fn lemma_emits_ack_prefix(a: Seq<Message>, b: Seq<Message>, stream_id: u16, seqno: u64)
    requires
        b.len() >= a.len(),
        b.subrange(0, a.len() as int) == a,
        emits_ack(a, stream_id, seqno),
    ensures
        emits_ack(b, stream_id, seqno),
{
    let w = choose|w: int| 0 <= w < a.len() && is_ack_of((#[trigger] a[w])@, stream_id, seqno);
    assert(b.subrange(0, a.len() as int)[w] == b[w]);
}

/// The bytes a message carries.
pub open spec fn payload_bytes(m: Message) -> Seq<u8> {
    match m {
        Message::Rel { payload, .. } => payload@,
        Message::Urel { payload, .. } => payload@,
    }
}

/// The payloads of the packets `lo` up to, not including, `hi` in the
/// ledger `m`, one after the other in sequence order.
pub open spec fn sent_bytes(m: Map<u64, InflightEntry>, lo: u64, hi: int) -> Seq<u8>
    decreases hi - lo,
{
    if hi <= lo {
        Seq::empty()
    } else {
        sent_bytes(m, lo, hi - 1) + payload_bytes(m[(hi - 1) as u64].payload)
    }
}

proof fn lemma_sent_bytes_ext(m1: Map<u64, InflightEntry>, m2: Map<u64, InflightEntry>, lo: u64, hi: int)
    requires
        hi <= u64::MAX + 1,
        forall|k: u64| lo <= k < hi ==> (#[trigger] m1[k]).payload == m2[k].payload,
    ensures
        sent_bytes(m1, lo, hi) == sent_bytes(m2, lo, hi),
    decreases hi - lo,
{
    if hi > lo {
        lemma_sent_bytes_ext(m1, m2, lo, hi - 1);
        assert(m1[(hi - 1) as u64].payload == m2[(hi - 1) as u64].payload);
    }
}

/// The payloads of sequence numbers `lo` up to, not including, `hi`, one
/// after the other.
pub open spec fn delivered_bytes(m: Map<u64, Seq<u8>>, lo: u64, hi: int) -> Seq<u8>
    decreases hi - lo,
{
    if hi <= lo {
        Seq::empty()
    } else {
        delivered_bytes(m, lo, hi - 1) + m[(hi - 1) as u64]
    }
}

/// What one side reads is what the other side wrote: when each packet from
/// `lo` up to `hi` was accepted with the payload it was sent with, the bytes
/// that `tick` appends to the reader's buffer for that range (a
/// `delivered_bytes`) are the bytes that the writer's `tick` took from its
/// write buffer for it (a `sent_bytes`).
pub proof fn lemma_delivered_is_sent(
    sent: Map<u64, InflightEntry>,
    received: Map<u64, Seq<u8>>,
    lo: u64,
    hi: int,
)
    requires
        hi <= u64::MAX + 1,
        forall|k: u64| lo <= k < hi ==> #[trigger] received[k] == payload_bytes(sent[k].payload),
    ensures
        delivered_bytes(received, lo, hi) == sent_bytes(sent, lo, hi),
    decreases hi - lo,
{
    if hi > lo {
        lemma_delivered_is_sent(sent, received, lo, hi - 1);
        assert(received[(hi - 1) as u64] == payload_bytes(sent[(hi - 1) as u64].payload));
    }
}

/// Whether `m` is a data packet of stream `stream_id` under `seqno`,
/// carrying one to `MSS` bytes.
pub open spec fn is_segment(m: MessageView, stream_id: u16, seqno: u64) -> bool {
    match m {
        MessageView::Rel { kind, stream_id: id, seqno: s, payload } => kind == RelKind::Data && id == stream_id
            && s == seqno && 1 <= payload.len() <= MSS,
        MessageView::Urel { .. } => false,
    }
}

/// Whether `m` is a reliable message of kind `k`.
pub open spec fn is_kind(m: MessageView, k: RelKind) -> bool {
    match m {
        MessageView::Rel { kind, .. } => kind == k,
        MessageView::Urel { .. } => false,
    }
}

/// Whether `msgs` holds a reliable message of kind `k`.
pub open spec fn has_kind(msgs: Seq<Message>, k: RelKind) -> bool {
    exists|j: int| 0 <= j < msgs.len() && is_kind((#[trigger] msgs[j])@, k)
}

/// Whether the ledger `ledger` holds nothing that `m`, if an acknowledgement,
/// acknowledges: no key below its cumulative number, none that it lists.
pub open spec fn acks_cleared(m: MessageView, ledger: Map<u64, InflightEntry>) -> bool {
    match m {
        MessageView::Rel { kind, seqno, payload, .. } => kind == RelKind::DataAck ==> forall|k: u64|
            #[trigger] ledger.contains_key(k) ==> k >= seqno && !ack_list_of(payload).contains(k),
        MessageView::Urel { .. } => true,
    }
}

/// Whether every entry of `after` is in `before`, unchanged.
pub open spec fn ledger_shrinks(before: Map<u64, InflightEntry>, after: Map<u64, InflightEntry>) -> bool {
    forall|k: u64| #[trigger] after.contains_key(k) ==> before.contains_key(k) && after[k] == before[k]
}

/// Whether every acknowledgement in `out` from index `from` on carries `seqno`.
pub open spec fn acks_carry(out: Seq<Message>, from: int, stream_id: u16, seqno: u64) -> bool {
    forall|i: int| from <= i < out.len() && is_kind((#[trigger] out[i])@, RelKind::DataAck) ==> is_ack_of(
        out[i]@,
        stream_id,
        seqno,
    )
}

/// Whether the sequence numbers in flight in `m` span at least `c`: the
/// largest minus the smallest, as `last_minus_first` gives it, is `c` or more.
pub open spec fn lmf_at_least(m: Map<u64, InflightEntry>, c: nat) -> bool {
    if m.len() == 0 {
        c == 0
    } else {
        exists|lo: u64, hi: u64| {
            &&& m.contains_key(lo)
            &&& m.contains_key(hi)
            &&& forall|k: u64| #[trigger] m.contains_key(k) ==> lo <= k <= hi
            &&& ((hi - lo) as usize) >= c
        }
    }
}

proof fn lemma_lmf_same_keys(m1: Map<u64, InflightEntry>, m2: Map<u64, InflightEntry>, c1: nat, c2: nat)
    requires
        m1.dom() == m2.dom(),
        c2 <= c1,
        lmf_at_least(m1, c1),
    ensures
        lmf_at_least(m2, c2),
{
    if m1.len() != 0 {
        let (lo, hi) = choose|lo: u64, hi: u64| {
            &&& m1.contains_key(lo)
            &&& m1.contains_key(hi)
            &&& forall|k: u64| #[trigger] m1.contains_key(k) ==> lo <= k <= hi
            &&& ((hi - lo) as usize) >= c1
        };
        assert forall|k: u64| #[trigger] m2.contains_key(k) implies lo <= k <= hi by {
            assert(m1.dom().contains(k));
        }
        assert(m2.contains_key(lo) && m2.contains_key(hi));
    }
}

/// Whether `now` is so close to the end of time that a deadline after it
/// might not be representable.
pub open spec fn late(now: u64) -> bool {
    now >= u64::MAX - 60_000
}

/// The reset that a closed stream sends.
pub open spec fn rst_view(stream_id: u16) -> MessageView {
    MessageView::Rel { kind: RelKind::Rst, stream_id, seqno: 0, payload: Seq::empty() }
}

/// Whether a closed stream answers `m`: it is reliable and not a reset.
pub open spec fn answered_by_rst(m: MessageView) -> bool {
    match m {
        MessageView::Rel { kind, .. } => kind != RelKind::Rst,
        MessageView::Urel { .. } => false,
    }
}

/// How many of `msgs` a closed stream answers.
pub open spec fn rst_answers(msgs: Seq<Message>) -> nat
    decreases msgs.len(),
{
    if msgs.len() == 0 {
        0
    } else {
        rst_answers(msgs.drop_last()) + if answered_by_rst(msgs.last()@) {
            1nat
        } else {
            0nat
        }
    }
}

/// Whether a stream with handles closed has finished: nothing left to
/// send, nothing unacknowledged.
pub open spec fn flushed(queues_closed: bool, write_len: nat, unacked: nat) -> bool {
    queues_closed && write_len == 0 && unacked == 0
}

proof fn lemma_has_kind_push(a: Seq<Message>, m: Message, kd: RelKind)
    ensures
        has_kind(a.push(m), kd) <==> has_kind(a, kd) || is_kind(m@, kd),
{
    let b = a.push(m);
    if has_kind(b, kd) && !is_kind(m@, kd) {
        let w = choose|w: int| 0 <= w < b.len() && is_kind((#[trigger] b[w])@, kd);
        assert(a[w] == b[w]);
    }
    if has_kind(a, kd) {
        let w = choose|w: int| 0 <= w < a.len() && is_kind((#[trigger] a[w])@, kd);
        assert(b[w] == a[w]);
    }
    if is_kind(m@, kd) {
        assert(b[a.len() as int] == m);
    }
}

/// Whether `m` is a data packet under `seqno`.
pub open spec fn is_data_at(m: MessageView, seqno: u64) -> bool {
    match m {
        MessageView::Rel { kind, seqno: s, .. } => kind == RelKind::Data && s == seqno,
        MessageView::Urel { .. } => false,
    }
}

/// Whether packet `seqno` of ledger `m` is due at `now`: in flight, not known
/// lost, its deadline passed.
pub open spec fn due_in(m: Map<u64, InflightEntry>, seqno: u64, now: u64) -> bool {
    m.contains_key(seqno) && !m[seqno].known_lost && m[seqno].retrans_time <= now
}

/// Whether every data packet in `out` from index `from` on, with a sequence
/// number below `next`, was due in `m` at `now`.
pub open spec fn resends_due(out: Seq<Message>, from: int, next: u64, m: Map<u64, InflightEntry>, now: u64) -> bool {
    forall|w: int, s: u64| from <= w < out.len() && #[trigger] is_data_at(out[w]@, s) && s < next ==> due_in(m, s, now)
}

/// Whether `m` is a data packet carrying `payload` under `seqno`.
pub open spec fn is_data_for(m: MessageView, seqno: u64, payload: Seq<u8>) -> bool {
    match m {
        MessageView::Rel { kind, seqno: s, payload: p, .. } => kind == RelKind::Data && s == seqno && p == payload,
        MessageView::Urel { .. } => false,
    }
}

/// Every payload in `after` was already in `before` or came in a data
/// packet among `msgs`.
pub open spec fn received_from(before: Map<u64, Seq<u8>>, after: Map<u64, Seq<u8>>, msgs: Seq<Message>) -> bool {
    forall|k: u64| #[trigger] after.contains_key(k) ==> (before.contains_key(k) && after[k] == before[k])
        || exists|j: int| 0 <= j < msgs.len() && is_data_for((#[trigger] msgs[j])@, k, after[k])
}

/// Whether `m` is a `Syn`.
pub open spec fn is_syn(m: MessageView) -> bool {
    m matches MessageView::Rel { kind: RelKind::Syn, .. }
}

/// One reliable stream: handshake, reordering of what arrives, the ledger of
/// what is in flight, and congestion control, driven by `tick`.
pub struct StreamState<C: CongestionControl> {
    phase: Phase,
    stream_id: u16,
    additional_data: Vec<u8>,
    incoming: Vec<Message>,
    read_until: u64,
    reorderer: Reorderer,
    inflight: Inflight,
    next_write_seqno: u64,
    cc: C,
    received: Ghost<Map<u64, Seq<u8>>>,
    window_seen: Ghost<nat>,
    acks_reported: Ghost<nat>,
    losses_reported: Ghost<nat>,
}

impl<C: CongestionControl> StreamState<C> {
    pub closed spec fn wf(self) -> bool {
        &&& self.inflight.wf()
        &&& self.reorderer.wf()
        &&& self.read_until == self.reorderer.cursor()
        &&& forall|k: u64| #[trigger] self.inflight@.contains_key(k) ==> k < self.next_write_seqno
        &&& forall|k: u64| #[trigger] self.reorderer@.contains_key(k) ==> self.received@.contains_key(k)
            && self.received@[k] == self.reorderer@[k]
        &&& forall|k: u64| #[trigger] self.received@.contains_key(k) && k >= self.read_until
            ==> self.reorderer@.contains_key(k)
        &&& forall|k: u64| #[trigger] self.inflight@.contains_key(k) ==> is_segment(
            self.inflight@[k].payload@,
            self.stream_id,
            k,
        )
    }

    /// The payloads waiting in the reorderer.
    pub closed spec fn spec_reorderer(self) -> Map<u64, Seq<u8>> {
        self.reorderer@
    }

    /// The payload accepted for each sequence number that has arrived.
    pub closed spec fn spec_received(self) -> Map<u64, Seq<u8>> {
        self.received@
    }

    pub closed spec fn spec_phase(self) -> Phase {
        self.phase
    }

    pub closed spec fn spec_read_until(self) -> u64 {
        self.read_until
    }

    pub closed spec fn spec_stream_id(self) -> u16 {
        self.stream_id
    }

    pub closed spec fn spec_additional_data(self) -> Seq<u8> {
        self.additional_data@
    }

    /// Messages injected and not yet processed.
    pub closed spec fn spec_incoming(self) -> Seq<Message> {
        self.incoming@
    }

    /// The sequence number that the next data packet gets.
    pub closed spec fn spec_next_write_seqno(self) -> u64 {
        self.next_write_seqno
    }

    /// The window that the congestion-control policy reported when the last
    /// tick stopped sending new data.
    pub closed spec fn spec_window_seen(self) -> nat {
        self.window_seen@
    }

    /// How many acknowledged packets were reported to the policy so far.
    pub closed spec fn spec_acks_reported(self) -> nat {
        self.acks_reported@
    }

    /// How many loss events were reported to the policy so far.
    pub closed spec fn spec_losses_reported(self) -> nat {
        self.losses_reported@
    }

    pub closed spec fn spec_inflight(self) -> Inflight {
        self.inflight
    }

    fn create(stream_id: u16, additional_data: Vec<u8>, cc: C, phase: Phase) -> (r: Self)
        ensures
            r.wf(),
            r.spec_phase() == phase,
            r.spec_stream_id() == stream_id,
            r.spec_additional_data() == additional_data@,
            r.spec_incoming().len() == 0,
            r.spec_read_until() == 0,
            r.spec_inflight()@.len() == 0,
    {
        StreamState {
            phase,
            stream_id,
            additional_data,
            incoming: Vec::new(),
            read_until: 0,
            reorderer: Reorderer::new(),
            inflight: Inflight::new(),
            next_write_seqno: 0,
            cc,
            received: Ghost(Map::empty()),
            window_seen: Ghost(0),
            acks_reported: Ghost(0),
            losses_reported: Ghost(0),
        }
    }

    /// A stream of the initiator, before its handshake.
    pub fn new_client(stream_id: u16, additional_data: Vec<u8>, cc: C) -> (r: Self)
        ensures
            r.wf(),
            r.spec_phase() == Phase::Pending,
            r.spec_stream_id() == stream_id,
            r.spec_additional_data() == additional_data@,
            r.spec_incoming().len() == 0,
            r.spec_read_until() == 0,
            r.spec_inflight()@.len() == 0,
    {
        Self::create(stream_id, additional_data, cc, Phase::Pending)
    }

    /// A stream accepted from a peer's `Syn`, established at once.
    pub fn new_server(stream_id: u16, additional_data: Vec<u8>, cc: C) -> (r: Self)
        ensures
            r.wf(),
            r.spec_phase() == Phase::Established,
            r.spec_stream_id() == stream_id,
            r.spec_additional_data() == additional_data@,
            r.spec_incoming().len() == 0,
            r.spec_read_until() == 0,
            r.spec_inflight()@.len() == 0,
    {
        Self::create(stream_id, additional_data, cc, Phase::Established)
    }

    /// Queues a message from the peer for the next tick.
    pub fn inject_incoming(&mut self, msg: Message)
        ensures
            final(self).spec_incoming() == old(self).spec_incoming().push(msg),
            final(self).spec_phase() == old(self).spec_phase(),
            final(self).spec_read_until() == old(self).spec_read_until(),
            final(self).spec_stream_id() == old(self).spec_stream_id(),
            final(self).spec_inflight() == old(self).spec_inflight(),
            old(self).wf() ==> final(self).wf(),
    {
        self.incoming.push(msg);
    }

    pub fn phase(&self) -> (r: Phase)
        ensures
            r == self.spec_phase(),
    {
        self.phase
    }

    /// Every sequence number below this one has arrived.
    pub fn read_until(&self) -> (r: u64)
        ensures
            r == self.spec_read_until(),
    {
        self.read_until
    }

    pub fn stream_id(&self) -> (r: u16)
        ensures
            r == self.spec_stream_id(),
    {
        self.stream_id
    }

    /// The ledger of packets in flight.
    pub fn inflight(&self) -> (r: &Inflight)
        ensures
            *r == self.spec_inflight(),
    {
        &self.inflight
    }

    /// The congestion-control policy.
    pub fn congestion(&self) -> &C {
        &self.cc
    }

    /// Whether a closed stream has answered for long enough to be dropped.
    pub fn is_evictable(&self, now: u64) -> (r: bool)
        ensures
            r == (self.spec_phase() matches Phase::Closed { since } && now >= sat_add(since, CLOSED_LINGER_MS)),
    {
        match self.phase {
            Phase::Closed { since } => now >= add_saturating(since, CLOSED_LINGER_MS),
            _ => false,
        }
    }

    /// Applies an acknowledgement: everything below `seqno`, then each
    /// sequence number that `payload` lists; one `mark_ack` per packet that
    /// was in flight.
    fn on_data_ack(&mut self, seqno: u64, payload: &Vec<u8>, now: u64)
        requires
            old(self).wf(),
        ensures
            final(self).wf(),
            final(self).phase == old(self).phase,
            final(self).stream_id == old(self).stream_id,
            final(self).incoming == old(self).incoming,
            final(self).read_until == old(self).read_until,
            final(self).next_write_seqno == old(self).next_write_seqno,
            final(self).received == old(self).received,
            ledger_shrinks(old(self).inflight@, final(self).inflight@),
            forall|k: u64| #[trigger] final(self).inflight@.contains_key(k) ==> k >= seqno
                && !ack_list_of(payload@).contains(k),
            final(self).acks_reported@ + final(self).inflight@.len() == old(self).acks_reported@ + old(self).inflight@.len(),
            final(self).losses_reported == old(self).losses_reported,
            final(self).window_seen == old(self).window_seen,
            final(self).reorderer == old(self).reorderer,
    {
        let n = self.inflight.mark_acked_lt(seqno, now);
        proof {
            assert forall|k: u64| #[trigger] self.inflight@.contains_key(k) implies k >= seqno by {
                assert(!old(self).inflight@.dom().filter(|k: u64| k < seqno).contains(k));
            }
        }
        let mut k: usize = 0;
        while k < n
            invariant
                self.wf(),
                self.phase == old(self).phase,
                self.stream_id == old(self).stream_id,
                self.incoming == old(self).incoming,
                self.read_until == old(self).read_until,
                self.next_write_seqno == old(self).next_write_seqno,
                self.received == old(self).received,
                ledger_shrinks(old(self).inflight@, self.inflight@),
                forall|k: u64| #[trigger] self.inflight@.contains_key(k) ==> k >= seqno,
                k <= n,
                self.acks_reported@ + self.inflight@.len() + n == old(self).acks_reported@ + old(self).inflight@.len() + k,
                self.inflight@.dom().finite(),
                self.losses_reported == old(self).losses_reported,
                self.window_seen == old(self).window_seen,
                self.reorderer == old(self).reorderer,
            decreases n - k,
        {
            self.cc.mark_ack();
            self.acks_reported = Ghost(self.acks_reported@ + 1);
            k = k + 1;
        }
        let listed = acked_list(payload.as_slice());
        let mut j: usize = 0;
        while j < listed.len()
            invariant
                self.wf(),
                self.phase == old(self).phase,
                self.stream_id == old(self).stream_id,
                self.incoming == old(self).incoming,
                self.read_until == old(self).read_until,
                self.next_write_seqno == old(self).next_write_seqno,
                self.received == old(self).received,
                listed@ == ack_list_of(payload@),
                j <= listed@.len(),
                ledger_shrinks(old(self).inflight@, self.inflight@),
                forall|k: u64| #[trigger] self.inflight@.contains_key(k) ==> k >= seqno
                    && !listed@.take(j as int).contains(k),
                self.acks_reported@ + self.inflight@.len() == old(self).acks_reported@ + old(self).inflight@.len(),
                self.losses_reported == old(self).losses_reported,
                self.window_seen == old(self).window_seen,
                self.inflight@.dom().finite(),
                self.reorderer == old(self).reorderer,
            decreases listed@.len() - j,
        {
            let ghost before = self.inflight@;
            if self.inflight.mark_acked(listed[j], now) {
                self.cc.mark_ack();
                self.acks_reported = Ghost(self.acks_reported@ + 1);
            }
            proof {
                let pre = listed@.take(j as int);
                let post = listed@.take(j + 1);
                assert(post =~= pre.push(listed@[j as int]));
                assert forall|k: u64| #[trigger] self.inflight@.contains_key(k) implies k >= seqno
                    && !post.contains(k) by {
                    assert(before.contains_key(k));
                    if post.contains(k) {
                        let w = choose|w: int| 0 <= w < post.len() && #[trigger] post[w] == k;
                        if w < pre.len() {
                            assert(pre[w] == k);
                        }
                    }
                }
            }
            j = j + 1;
        }
        proof {
            assert(listed@.take(j as int) =~= listed@);
        }
    }

    /// Processes what arrived on an established stream: data goes through the
    /// reorderer into the read buffer, acknowledgements clear the ledger, a
    /// `Syn` is answered, a `Rst` closes. Data gets a cumulative ack.
    fn read_half(&mut self, queues: &mut StreamQueues, now: u64, out: &mut Vec<Message>)
        requires
            old(self).wf(),
            old(self).phase == Phase::Established,
        ensures
            final(self).wf(),
            final(self).phase == Phase::Established || final(self).phase == (Phase::Closed { since: now }),
            final(self).stream_id == old(self).stream_id,
            final(self).incoming@.len() == 0,
            final(self).read_until >= old(self).read_until,
            final(self).next_write_seqno == old(self).next_write_seqno,
            final(queues).closed == old(queues).closed,
            final(queues).connected == old(queues).connected,
            final(queues).write_stream@ == old(queues).write_stream@,
            final(queues).send_urel@ == old(queues).send_urel@,
            old(queues).read_stream@.is_prefix_of(final(queues).read_stream@),
            final(queues).read_stream@ == old(queues).read_stream@ + delivered_bytes(
                final(self).received@,
                old(self).read_until,
                final(self).read_until as int,
            ),
            received_from(old(self).received@, final(self).received@, old(self).incoming@),
            forall|k: u64| old(self).read_until <= k < final(self).read_until ==> #[trigger] final(self).received@.contains_key(k),
            !final(self).received@.contains_key(final(self).read_until),
            has_kind(old(self).incoming@, RelKind::Rst) ==> final(self).phase == (Phase::Closed { since: now }),
            !has_kind(old(self).incoming@, RelKind::Rst) ==> final(self).phase == Phase::Established,
            ledger_shrinks(old(self).inflight@, final(self).inflight@),
            final(self).acks_reported@ + final(self).inflight@.len() == old(self).acks_reported@ + old(self).inflight@.len(),
            final(self).losses_reported == old(self).losses_reported,
            final(self).window_seen == old(self).window_seen,
            old(queues).read_stream@.len() <= READ_CAP && old(self).reorderer@.len() + old(self).incoming@.len()
                <= REORDER_CAP ==> forall|j: int, k: u64| 0 <= j < old(self).incoming@.len() && is_data_at(
                (#[trigger] old(self).incoming@[j])@,
                k,
            ) && old(self).read_until <= k < u64::MAX ==> #[trigger] final(self).received@.contains_key(k),
            forall|j: int| 0 <= j < old(self).incoming@.len() ==> acks_cleared(
                (#[trigger] old(self).incoming@[j])@,
                final(self).inflight@,
            ),
            acks_carry(final(out)@, old(out)@.len() as int, old(self).stream_id, final(self).read_until),
            forall|w: int| old(out)@.len() <= w < final(out)@.len() ==> !is_kind((#[trigger] final(out)@[w])@, RelKind::Data),
            final(out)@.len() >= old(out)@.len(),
            final(out)@.subrange(0, old(out)@.len() as int) == old(out)@,
            forall|j: int| 0 <= j < old(self).incoming@.len() && is_syn(#[trigger] old(self).incoming@[j]@)
                ==> emits(final(out)@, syn_echo(old(self).stream_id, old(self).incoming@[j]@)),
            (exists|j: int| 0 <= j < old(self).incoming@.len() && is_data(#[trigger] old(self).incoming@[j]@))
                && old(queues).read_stream@.len() <= READ_CAP
                ==> emits_ack(final(out)@, old(self).stream_id, final(self).read_until),
    {
        let mut msgs: Vec<Message> = Vec::new();
        std::mem::swap(&mut msgs, &mut self.incoming);
        let mut gen_ack = false;
        let mut i: usize = 0;
        while i < msgs.len()
            invariant
                self.wf(),
                msgs@ == old(self).incoming@,
                self.phase == Phase::Established || self.phase == (Phase::Closed { since: now }),
                self.stream_id == old(self).stream_id,
                self.incoming@.len() == 0,
                self.read_until == old(self).read_until,
                self.next_write_seqno == old(self).next_write_seqno,
                i <= msgs@.len(),
                queues.closed == old(queues).closed,
                queues.connected == old(queues).connected,
                queues.write_stream@ == old(queues).write_stream@,
                queues.send_urel@ == old(queues).send_urel@,
                queues.read_stream@ == old(queues).read_stream@,
                out@.len() >= old(out)@.len(),
                out@.subrange(0, old(out)@.len() as int) == old(out)@,
                forall|j: int| 0 <= j < i && is_syn(#[trigger] msgs@[j]@)
                    ==> emits(out@, syn_echo(self.stream_id, msgs@[j]@)),
                (exists|j: int| 0 <= j < i && is_data(#[trigger] msgs@[j]@))
                    && old(queues).read_stream@.len() <= READ_CAP ==> gen_ack,
                received_from(old(self).received@, self.received@, msgs@.take(i as int)),
                has_kind(msgs@.take(i as int), RelKind::Rst) ==> self.phase == (Phase::Closed { since: now }),
                !has_kind(msgs@.take(i as int), RelKind::Rst) ==> self.phase == Phase::Established,
                ledger_shrinks(old(self).inflight@, self.inflight@),
                self.acks_reported@ + self.inflight@.len() == old(self).acks_reported@ + old(self).inflight@.len(),
                self.losses_reported == old(self).losses_reported,
                self.window_seen == old(self).window_seen,
                self.reorderer@.len() <= old(self).reorderer@.len() + i,
                forall|k: u64| #[trigger] old(self).received@.contains_key(k) ==> self.received@.contains_key(k),
                old(queues).read_stream@.len() <= READ_CAP && old(self).reorderer@.len() + msgs@.len() <= REORDER_CAP
                    ==> forall|j: int, k: u64| 0 <= j < i && is_data_at((#[trigger] msgs@[j])@, k) && old(self).read_until <= k
                    < u64::MAX ==> #[trigger] self.received@.contains_key(k),
                forall|j: int| 0 <= j < i ==> acks_cleared((#[trigger] msgs@[j])@, self.inflight@),
                forall|w: int| old(out)@.len() <= w < out@.len() ==> !is_kind((#[trigger] out@[w])@, RelKind::DataAck),
                forall|w: int| old(out)@.len() <= w < out@.len() ==> !is_kind((#[trigger] out@[w])@, RelKind::Data),
            decreases msgs@.len() - i,
        {
            let ghost before = out@;
            let ghost received_before = self.received@;
            let ghost ledger_before = self.inflight@;
            let ghost reorder_before = self.reorderer@;
            proof {
                self.reorderer.lemma_bounded();
            }
            match &msgs[i] {
                Message::Rel { kind, stream_id: _, seqno, payload } => {
                    match kind {
                        RelKind::Data => {
                            if queues.read_stream.len() <= READ_CAP {
                                let copy = payload.clone();
                                proof {
                                    assert(copy@ =~= payload@);
                                }
                                let ghost bytes = copy@;
                                if self.reorderer.insert(*seqno, copy) {
                                    self.received = Ghost(self.received@.insert(*seqno, bytes));
                                    proof {
                                        assert(self.reorderer@.dom() =~= reorder_before.dom().insert(*seqno));
                                    }
                                }
                                gen_ack = true;
                            }
                        },
                        RelKind::DataAck => {
                            self.on_data_ack(*seqno, payload, now);
                        },
                        RelKind::Syn => {
                            let reply = Message::Rel {
                                kind: RelKind::SynAck,
                                stream_id: self.stream_id,
                                seqno: *seqno,
                                payload: payload.clone(),
                            };
                            out.push(reply);
                            proof {
                                assert(out@[out@.len() - 1]@ == syn_echo(self.stream_id, msgs@[i as int]@));
                            }
                        },
                        RelKind::SynAck => {},
                        RelKind::Rst => {
                            self.phase = Phase::Closed { since: now };
                        },
                    }
                },
                Message::Urel { stream_id: _, payload } => {
                    queues.recv_urel.push_back(payload.clone());
                },
            }
            proof {
                self.reorderer.lemma_bounded();
                assert(self.reorderer@.len() <= reorder_before.len() + 1);
                if old(queues).read_stream@.len() <= READ_CAP && old(self).reorderer@.len() + msgs@.len() <= REORDER_CAP {
                    assert forall|j: int, k: u64| 0 <= j < i + 1 && is_data_at((#[trigger] msgs@[j])@, k)
                        && old(self).read_until <= k < u64::MAX implies #[trigger] self.received@.contains_key(k) by {
                        if j < i {
                            assert(received_before.contains_key(k));
                        } else {
                            if !self.received@.contains_key(k) {
                                assert(!reorder_before.contains_key(k));
                                assert(reorder_before.len() < REORDER_CAP);
                            }
                        }
                    }
                }
                assert(msgs@.take(i + 1) =~= msgs@.take(i as int).push(msgs@[i as int]));
                if has_kind(msgs@.take(i + 1), RelKind::Rst) && !is_kind(msgs@[i as int]@, RelKind::Rst) {
                    let w = choose|w: int| 0 <= w < msgs@.take(i + 1).len() && is_kind((#[trigger] msgs@.take(i + 1)[w])@, RelKind::Rst);
                    assert(w < i);
                    assert(msgs@.take(i as int)[w] == msgs@[w]);
                }
                if has_kind(msgs@.take(i as int), RelKind::Rst) {
                    let w = choose|w: int| 0 <= w < msgs@.take(i as int).len() && is_kind((#[trigger] msgs@.take(i as int)[w])@, RelKind::Rst);
                    assert(msgs@.take(i + 1)[w] == msgs@[w]);
                }
                if is_kind(msgs@[i as int]@, RelKind::Rst) {
                    assert(msgs@.take(i + 1)[i as int] == msgs@[i as int]);
                }
                assert forall|j: int| 0 <= j < i + 1 implies acks_cleared((#[trigger] msgs@[j])@, self.inflight@) by {
                    if j < i {
                        assert(acks_cleared(msgs@[j]@, ledger_before));
                        match msgs@[j]@ {
                            MessageView::Rel { kind, seqno, payload, .. } => {
                                if kind == RelKind::DataAck {
                                    assert forall|k: u64| #[trigger] self.inflight@.contains_key(k) implies k >= seqno
                                        && !ack_list_of(payload).contains(k) by {
                                        assert(ledger_before.contains_key(k));
                                    }
                                }
                            },
                            MessageView::Urel { .. } => {},
                        }
                    }
                }
                assert forall|k: u64| #[trigger] self.received@.contains_key(k) implies (old(self).received@.contains_key(k)
                    && self.received@[k] == old(self).received@[k])
                    || exists|j: int| 0 <= j < msgs@.take(i + 1).len() && is_data_for((#[trigger] msgs@.take(i + 1)[j])@, k, self.received@[k]) by {
                    if received_before.contains_key(k) && self.received@[k] == received_before[k] {
                        if !(old(self).received@.contains_key(k) && self.received@[k] == old(self).received@[k]) {
                            let j = choose|j: int| 0 <= j < msgs@.take(i as int).len() && is_data_for((#[trigger] msgs@.take(i as int)[j])@, k, received_before[k]);
                            assert(msgs@.take(i + 1)[j] == msgs@.take(i as int)[j]);
                        }
                    } else {
                        assert(msgs@.take(i + 1)[i as int] == msgs@[i as int]);
                        assert(is_data_for(msgs@[i as int]@, k, self.received@[k]));
                    }
                }
                if (exists|j: int| 0 <= j < i + 1 && is_data(#[trigger] msgs@[j]@))
                    && old(queues).read_stream@.len() <= READ_CAP {
                    let j = choose|j: int| 0 <= j < i + 1 && is_data(#[trigger] msgs@[j]@);
                    if j < i {
                        assert(exists|j: int| 0 <= j < i && is_data(#[trigger] msgs@[j]@));
                    }
                }
                assert(out@.subrange(0, before.len() as int) == before);
                assert(out@.subrange(0, old(out)@.len() as int) =~= old(out)@);
                assert forall|j: int| 0 <= j < i + 1 && is_syn(#[trigger] msgs@[j]@) implies emits(out@, syn_echo(self.stream_id, msgs@[j]@)) by {
                    if j < i {
                        let w = choose|w: int| 0 <= w < before.len() && (#[trigger] before[w])@ == syn_echo(self.stream_id, msgs@[j]@);
                        assert(out@[w] == before[w]);
                    } else {
                        assert(out@[out@.len() - 1]@ == syn_echo(self.stream_id, msgs@[i as int]@));
                    }
                }
            }
            i = i + 1;
        }
        proof {
            assert(msgs@.take(msgs@.len() as int) =~= msgs@);
        }
        let ghost out_mid = out@;
        let ghost c0 = self.reorderer.cursor();
        let ghost before_take = self.reorderer@;
        let taken = self.reorderer.take();
        proof {
            assert forall|i: int| 0 <= i < taken@.len() implies #[trigger] taken@[i].1@ == self.received@[(c0 + i) as u64] by {
                assert(before_take.contains_key(taken@[i].0));
            }
        }
        let mut t: usize = 0;
        while t < taken.len()
            invariant
                t <= taken@.len(),
                c0 == old(self).read_until,
                c0 + taken@.len() <= u64::MAX,
                forall|i: int| 0 <= i < taken@.len() ==> #[trigger] taken@[i].1@ == self.received@[(c0 + i) as u64],
                queues.closed == old(queues).closed,
                queues.connected == old(queues).connected,
                queues.write_stream@ == old(queues).write_stream@,
                queues.send_urel@ == old(queues).send_urel@,
                queues.read_stream@ == old(queues).read_stream@ + delivered_bytes(self.received@, c0, c0 + t),
            decreases taken@.len() - t,
        {
            let payload = &taken[t].1;
            let ghost base = queues.read_stream@;
            let mut b: usize = 0;
            while b < payload.len()
                invariant
                    b <= payload@.len(),
                    queues.closed == old(queues).closed,
                    queues.connected == old(queues).connected,
                    queues.write_stream@ == old(queues).write_stream@,
                    queues.send_urel@ == old(queues).send_urel@,
                    queues.read_stream@ == base + payload@.take(b as int),
                decreases payload@.len() - b,
            {
                queues.read_stream.push_back(payload[b]);
                proof {
                    assert(payload@.take(b + 1) =~= payload@.take(b as int).push(payload@[b as int]));
                    assert(queues.read_stream@ =~= base + payload@.take(b + 1));
                }
                b = b + 1;
            }
            proof {
                assert(payload@.take(b as int) =~= payload@);
                assert(taken@[t as int].1@ == self.received@[(c0 + t) as u64]);
                assert(delivered_bytes(self.received@, c0, c0 + t + 1) == delivered_bytes(self.received@, c0, c0 + t)
                    + self.received@[(c0 + t) as u64]);
                assert(queues.read_stream@ =~= old(queues).read_stream@ + delivered_bytes(self.received@, c0, c0 + t + 1));
            }
            t = t + 1;
        }
        proof {
            assert forall|k: u64| old(self).read_until <= k < self.reorderer.cursor() implies #[trigger] self.received@.contains_key(k) by {
                let i = k - c0;
                assert(taken@[i].0 == k);
                assert(before_take.contains_key(taken@[i].0));
            }
            assert(queues.read_stream@.subrange(0, old(queues).read_stream@.len() as int) =~= old(queues).read_stream@);
            assert forall|k: u64| #[trigger] self.reorderer@.contains_key(k) implies self.received@.contains_key(k)
                && self.received@[k] == self.reorderer@[k] by {
                assert(before_take.contains_key(k));
            }
        }
        self.read_until = self.reorderer.next_expected();
        if gen_ack {
            let ghost before = out@;
            let listed: Vec<u64> = Vec::new();
            out.push(Message::Rel {
                kind: RelKind::DataAck,
                stream_id: self.stream_id,
                seqno: self.read_until,
                payload: ack_payload(&listed),
            });
            proof {
                assert(is_ack_of(out@[out@.len() - 1]@, self.stream_id, self.read_until));
                assert forall|w: int| old(out)@.len() <= w < out@.len() && is_kind((#[trigger] out@[w])@, RelKind::DataAck) implies is_ack_of(out@[w]@, self.stream_id, self.read_until) by {
                    if w < out@.len() - 1 {
                        assert(out@[w] == before[w]);
                    }
                }
                assert forall|w: int| old(out)@.len() <= w < out@.len() implies !is_kind((#[trigger] out@[w])@, RelKind::Data) by {
                    if w < out@.len() - 1 {
                        assert(out@[w] == before[w]);
                    }
                }
                assert(out@.subrange(0, old(out)@.len() as int) =~= old(out)@);
                assert forall|j: int| 0 <= j < msgs@.len() && is_syn(#[trigger] msgs@[j]@) implies emits(out@, syn_echo(self.stream_id, msgs@[j]@)) by {
                    let w = choose|w: int| 0 <= w < before.len() && (#[trigger] before[w])@ == syn_echo(self.stream_id, msgs@[j]@);
                    assert(out@[w] == before[w]);
                }
            }
        }
    }

    /// Sends on an established stream: new segments of at most `MSS` bytes
    /// while the window allows, queued datagrams, then every packet whose
    /// deadline has passed, with one loss event for the whole burst.
    fn write_half(&mut self, queues: &mut StreamQueues, now: u64, out: &mut Vec<Message>)
        requires
            old(self).wf(),
        ensures
            final(self).wf(),
            final(self).phase == old(self).phase,
            final(self).stream_id == old(self).stream_id,
            final(self).incoming == old(self).incoming,
            final(self).read_until == old(self).read_until,
            final(self).received == old(self).received,
            final(queues).closed == old(queues).closed,
            final(queues).connected == old(queues).connected,
            final(queues).read_stream@ == old(queues).read_stream@,
            final(queues).write_stream@.is_suffix_of(old(queues).write_stream@),
            final(self).next_write_seqno >= old(self).next_write_seqno,
            old(queues).write_stream@ == sent_bytes(
                final(self).inflight@,
                old(self).next_write_seqno,
                final(self).next_write_seqno as int,
            ) + final(queues).write_stream@,
            forall|k: u64| #[trigger] old(self).inflight@.contains_key(k) ==> final(self).inflight@.contains_key(k)
                && final(self).inflight@[k].payload == old(self).inflight@[k].payload,
            forall|k: u64| #[trigger] final(self).inflight@.contains_key(k) ==> old(self).inflight@.contains_key(k)
                || old(self).next_write_seqno <= k < final(self).next_write_seqno,
            forall|k: u64| old(self).next_write_seqno <= k < final(self).next_write_seqno
                ==> #[trigger] final(self).inflight@.contains_key(k)
                && emits(final(out)@, final(self).inflight@[k].payload@),
            forall|k: u64| #[trigger] old(self).inflight@.contains_key(k) && !old(self).inflight@[k].known_lost
                && old(self).inflight@[k].retrans_time <= now ==> emits(final(out)@, old(self).inflight@[k].payload@),
            !late(now) ==> forall|k: u64| #[trigger] final(self).inflight@.contains_key(k)
                && !final(self).inflight@[k].known_lost ==> final(self).inflight@[k].retrans_time > now,
            forall|w: int| old(out)@.len() <= w < final(out)@.len() ==> !is_kind((#[trigger] final(out)@[w])@, RelKind::DataAck),
            final(queues).write_stream@.len() == 0 || final(self).next_write_seqno == u64::MAX || lmf_at_least(
                final(self).inflight@,
                final(self).window_seen@,
            ),
            resends_due(final(out)@, old(out)@.len() as int, old(self).next_write_seqno, old(self).inflight@, now),
            final(queues).send_urel@.len() == 0,
            final(queues).send_urel@.len() == 0,
            final(self).acks_reported == old(self).acks_reported,
            final(self).losses_reported@ <= old(self).losses_reported@ + 1,
            final(self).losses_reported@ >= old(self).losses_reported@,
            final(out)@.len() >= old(out)@.len(),
            final(out)@.subrange(0, old(out)@.len() as int) == old(out)@,
    {
        loop
            invariant
                self.wf(),
                self.phase == old(self).phase,
                self.stream_id == old(self).stream_id,
                self.incoming == old(self).incoming,
                self.read_until == old(self).read_until,
                self.received == old(self).received,
                queues.closed == old(queues).closed,
                queues.connected == old(queues).connected,
                queues.read_stream@ == old(queues).read_stream@,
                queues.write_stream@.is_suffix_of(old(queues).write_stream@),
                self.next_write_seqno >= old(self).next_write_seqno,
                forall|k: u64| old(self).next_write_seqno <= k < self.next_write_seqno ==> #[trigger] self.inflight@.contains_key(k),
                self.acks_reported == old(self).acks_reported,
                self.losses_reported == old(self).losses_reported,
                resends_due(out@, old(out)@.len() as int, old(self).next_write_seqno, old(self).inflight@, now),
                forall|k: u64| #[trigger] old(self).inflight@.contains_key(k) ==> self.inflight@.contains_key(k)
                    && self.inflight@[k] == old(self).inflight@[k],
                forall|k: u64| #[trigger] self.inflight@.contains_key(k) ==> old(self).inflight@.contains_key(k)
                    || old(self).next_write_seqno <= k < self.next_write_seqno,
                forall|k: u64| old(self).next_write_seqno <= k < self.next_write_seqno ==> emits(out@, (#[trigger] self.inflight@[k]).payload@)
                    && !self.inflight@[k].known_lost && (!late(now) ==> self.inflight@[k].retrans_time > now),
                forall|w: int| old(out)@.len() <= w < out@.len() ==> !is_kind((#[trigger] out@[w])@, RelKind::DataAck),
                old(queues).write_stream@ == sent_bytes(
                    self.inflight@,
                    old(self).next_write_seqno,
                    self.next_write_seqno as int,
                ) + queues.write_stream@,
                out@.len() >= old(out)@.len(),
                out@.subrange(0, old(out)@.len() as int) == old(out)@,
            ensures
                queues.write_stream@.len() == 0 || self.next_write_seqno == u64::MAX || lmf_at_least(
                    self.inflight@,
                    self.window_seen@,
                ),
            decreases queues.write_stream@.len(),
        {
            let spread = self.inflight.last_minus_first();
            let window = self.cc.cwnd();
            if spread >= window {
                self.window_seen = Ghost(window as nat);
                proof {
                    if self.inflight@.len() != 0 {
                        let (lo, hi) = choose|lo: u64, hi: u64| {
                            &&& self.inflight@.contains_key(lo)
                            &&& self.inflight@.contains_key(hi)
                            &&& spread == (hi - lo) as usize
                            &&& forall|k: u64| #[trigger] self.inflight@.contains_key(k) ==> lo <= k <= hi
                        };
                        assert(lmf_at_least(self.inflight@, self.window_seen@));
                    }
                }
                break;
            }
            if queues.write_stream.len() == 0 || self.next_write_seqno == u64::MAX {
                break;
            }
            let ghost ws = queues.write_stream@;
            let payload = queues.take_segment(MSS);
            proof {
                let o = old(queues).write_stream@;
                let f = queues.write_stream@;
                assert(f.len() <= o.len());
                assert(f =~= o.subrange(o.len() - f.len(), o.len() as int)) by {
                    assert(ws =~= o.subrange(o.len() - ws.len(), o.len() as int));
                }
            }
            let seqno = self.next_write_seqno;
            self.next_write_seqno = self.next_write_seqno + 1;
            let msg = Message::Rel { kind: RelKind::Data, stream_id: self.stream_id, seqno, payload };
            let ghost before = out@;
            let ghost m0 = self.inflight@;
            let ghost seg = payload@;
            out.push(msg.duplicate());
            self.inflight.insert(msg, now);
            proof {
                let m1 = self.inflight@;
                assert(out@.subrange(0, before.len() as int) =~= before);
                assert(out@[out@.len() - 1]@ == m1[seqno].payload@);
                assert forall|k: u64| old(self).next_write_seqno <= k < self.next_write_seqno implies emits(out@, (#[trigger] self.inflight@[k]).payload@)
                    && !self.inflight@[k].known_lost && (!late(now) ==> self.inflight@[k].retrans_time > now) by {
                    if k < seqno {
                        lemma_emits_prefix(before, out@, m0[k].payload@);
                    } else {
                        let rt = self.inflight.rtt_state().spec_rto();
                        assert(rt >= 10);
                    }
                }
                assert forall|w: int| old(out)@.len() <= w < out@.len() implies !is_kind((#[trigger] out@[w])@, RelKind::DataAck) by {
                    if w < before.len() {
                        assert(out@[w] == before[w]);
                    }
                }
                assert forall|w: int, s2: u64| old(out)@.len() <= w < out@.len() && #[trigger] is_data_at(out@[w]@, s2)
                    && s2 < old(self).next_write_seqno implies due_in(old(self).inflight@, s2, now) by {
                    if w < before.len() {
                        assert(out@[w] == before[w]);
                    }
                }
                lemma_sent_bytes_ext(m0, m1, old(self).next_write_seqno, seqno as int);
                assert(m1[seqno].payload == msg);
                assert(payload_bytes(msg) == seg);
                assert(sent_bytes(m1, old(self).next_write_seqno, seqno + 1) == sent_bytes(
                    m1,
                    old(self).next_write_seqno,
                    seqno as int,
                ) + seg);
                assert(ws =~= seg + queues.write_stream@);
                assert(old(queues).write_stream@ =~= sent_bytes(
                    m1,
                    old(self).next_write_seqno,
                    self.next_write_seqno as int,
                ) + queues.write_stream@);
                assert(out@.subrange(0, old(out)@.len() as int) =~= old(out)@) by {
                    assert(out@.subrange(0, before.len() as int) =~= before);
                    assert(before.subrange(0, old(out)@.len() as int) == old(out)@);
                }
            }
        }
        let ghost sent_ledger = self.inflight@;
        let ghost sent_ws = queues.write_stream@;
        let ghost out_w = out@;
        while queues.send_urel.len() > 0
            invariant
                sent_ws.len() == 0 || self.next_write_seqno == u64::MAX || lmf_at_least(sent_ledger, self.window_seen@),
                resends_due(out@, old(out)@.len() as int, old(self).next_write_seqno, old(self).inflight@, now),
                out@.len() >= out_w.len(),
                out@.subrange(0, out_w.len() as int) == out_w,
                forall|w: int| old(out)@.len() <= w < out@.len() ==> !is_kind((#[trigger] out@[w])@, RelKind::DataAck),
                queues.write_stream@ == sent_ws,
                queues.write_stream@.is_suffix_of(old(queues).write_stream@),
                queues.closed == old(queues).closed,
                queues.connected == old(queues).connected,
                queues.read_stream@ == old(queues).read_stream@,
                out@.len() >= old(out)@.len(),
                out@.subrange(0, old(out)@.len() as int) == old(out)@,
            ensures
                queues.send_urel@.len() == 0,
                sent_ws.len() == 0 || self.next_write_seqno == u64::MAX || lmf_at_least(sent_ledger, self.window_seen@),
                resends_due(out@, old(out)@.len() as int, old(self).next_write_seqno, old(self).inflight@, now),
                out@.len() >= out_w.len(),
                out@.subrange(0, out_w.len() as int) == out_w,
                forall|w: int| old(out)@.len() <= w < out@.len() ==> !is_kind((#[trigger] out@[w])@, RelKind::DataAck),
                queues.write_stream@ == sent_ws,
                queues.write_stream@.is_suffix_of(old(queues).write_stream@),
                queues.closed == old(queues).closed,
                queues.connected == old(queues).connected,
                queues.read_stream@ == old(queues).read_stream@,
                out@.len() >= old(out)@.len(),
                out@.subrange(0, old(out)@.len() as int) == old(out)@,
            decreases queues.send_urel@.len(),
        {
            match queues.send_urel.pop_front() {
                Some(d) => {
                    let ghost before = out@;
                    out.push(Message::Urel { stream_id: self.stream_id, payload: d });
                    proof {
                        assert forall|w: int| old(out)@.len() <= w < out@.len() implies !is_kind((#[trigger] out@[w])@, RelKind::DataAck) by {
                            if w < before.len() {
                                assert(out@[w] == before[w]);
                            }
                        }
                        assert forall|w: int, s2: u64| old(out)@.len() <= w < out@.len() && #[trigger] is_data_at(out@[w]@, s2)
                            && s2 < old(self).next_write_seqno implies due_in(old(self).inflight@, s2, now) by {
                            if w < before.len() {
                                assert(out@[w] == before[w]);
                            }
                        }
                        assert(out@.subrange(0, out_w.len() as int) =~= out_w) by {
                            assert(out@.subrange(0, before.len() as int) =~= before);
                            assert(before.subrange(0, out_w.len() as int) == out_w);
                        }
                        assert(out@.subrange(0, before.len() as int) =~= before);
                        assert(out@.subrange(0, old(out)@.len() as int) =~= old(out)@);
                    }
                },
                None => {
                    break;
                },
            }
        }
        let ghost out_u = out@;
        let due = self.inflight.due_before(now);
        let mut loss_marked = false;
        let mut d: usize = 0;
        while d < due.len()
            invariant
                sent_ws.len() == 0 || self.next_write_seqno == u64::MAX || lmf_at_least(sent_ledger, self.window_seen@),
                resends_due(out@, old(out)@.len() as int, old(self).next_write_seqno, old(self).inflight@, now),
                queues.send_urel@.len() == 0,
                self.acks_reported == old(self).acks_reported,
                self.losses_reported@ == old(self).losses_reported@ + if loss_marked {
                    1nat
                } else {
                    0nat
                },
                d <= due@.len(),
                due@.no_duplicates(),
                forall|k: u64| #[trigger] due@.contains(k) <==> (sent_ledger.contains_key(k) && !sent_ledger[k].known_lost
                    && sent_ledger[k].retrans_time <= now),
                forall|k: u64| #[trigger] sent_ledger.contains_key(k) <==> self.inflight@.contains_key(k),
                forall|k: u64| #[trigger] sent_ledger.contains_key(k) ==> self.inflight@[k].payload == sent_ledger[k].payload,
                forall|k: u64| #[trigger] sent_ledger.contains_key(k) && !due@.take(d as int).contains(k)
                    ==> self.inflight@[k] == sent_ledger[k],
                forall|dd: int| 0 <= dd < d ==> !self.inflight@[#[trigger] due@[dd]].known_lost
                    && (!late(now) ==> self.inflight@[due@[dd]].retrans_time > now)
                    && emits(out@, sent_ledger[due@[dd]].payload@),
                out@.len() >= out_u.len(),
                out@.subrange(0, out_u.len() as int) == out_u,
                forall|w: int| old(out)@.len() <= w < out@.len() ==> !is_kind((#[trigger] out@[w])@, RelKind::DataAck),
                forall|k: u64| old(self).next_write_seqno <= k < self.next_write_seqno ==> #[trigger] sent_ledger.contains_key(k),
                old(queues).write_stream@ == sent_bytes(
                    sent_ledger,
                    old(self).next_write_seqno,
                    self.next_write_seqno as int,
                ) + sent_ws,
                forall|k: u64| #[trigger] old(self).inflight@.contains_key(k) ==> sent_ledger.contains_key(k)
                    && sent_ledger[k] == old(self).inflight@[k],
                forall|k: u64| #[trigger] sent_ledger.contains_key(k) ==> old(self).inflight@.contains_key(k)
                    || old(self).next_write_seqno <= k < self.next_write_seqno,
                forall|k: u64| old(self).next_write_seqno <= k < self.next_write_seqno ==> emits(out_w, (#[trigger] sent_ledger[k]).payload@),
                queues.write_stream@ == sent_ws,
                queues.write_stream@.is_suffix_of(old(queues).write_stream@),
                self.next_write_seqno >= old(self).next_write_seqno,
                self.wf(),
                self.phase == old(self).phase,
                self.stream_id == old(self).stream_id,
                self.incoming == old(self).incoming,
                self.read_until == old(self).read_until,
                self.received == old(self).received,
                self.next_write_seqno == old(self).next_write_seqno || self.next_write_seqno >= old(self).next_write_seqno,
                queues.closed == old(queues).closed,
                queues.connected == old(queues).connected,
                queues.read_stream@ == old(queues).read_stream@,
                out@.len() >= old(out)@.len(),
                out@.subrange(0, old(out)@.len() as int) == old(out)@,
            decreases due@.len() - d,
        {
            let seqno = due[d];
            let ghost before = out@;
            let ghost ledger_before = self.inflight@;
            proof {
                assert(due@.contains(seqno));
                if due@.take(d as int).contains(seqno) {
                    let w = choose|w: int| 0 <= w < due@.take(d as int).len() && #[trigger] due@.take(d as int)[w] == seqno;
                    assert(due@[w] == due@[d as int]);
                }
            }
            if !loss_marked && self.cc.cwnd() >= self.inflight.last_minus_first() {
                self.cc.mark_loss();
                self.losses_reported = Ghost(self.losses_reported@ + 1);
                loss_marked = true;
            }
            proof {
                assert(self.inflight@ == ledger_before);
            }
            let rt = self.inflight.rto();
            match self.inflight.retransmit(seqno, now) {
                Some(msg) => {
                    out.push(msg);
                },
                None => {},
            }
            proof {
                let e = ledger_before[seqno];
                let f = backoff_factor(sat_add(e.retrans, 1));
                assert(10 <= rt <= 1000);
                assert(1 <= f <= 60);
                assert(rt * f >= 10 && rt * f <= 60_000) by (nonlinear_arith)
                    requires
                        10 <= rt <= 1000,
                        1 <= f <= 60,
                ;
                assert(due@.take(d + 1) =~= due@.take(d as int).push(seqno));
                assert(out@.subrange(0, before.len() as int) =~= before);
                assert(out@[out@.len() - 1]@ == sent_ledger[seqno].payload@);
                assert(is_segment(sent_ledger[seqno].payload@, self.stream_id, seqno));
                assert forall|w: int, s2: u64| old(out)@.len() <= w < out@.len() && #[trigger] is_data_at(out@[w]@, s2)
                    && s2 < old(self).next_write_seqno implies due_in(old(self).inflight@, s2, now) by {
                    if w < before.len() {
                        assert(out@[w] == before[w]);
                    } else {
                        assert(s2 == seqno);
                        assert(old(self).inflight@.contains_key(seqno));
                    }
                }
                assert forall|k: u64| #[trigger] sent_ledger.contains_key(k) && !due@.take(d + 1).contains(k)
                    implies self.inflight@[k] == sent_ledger[k] by {
                    assert(due@.take(d + 1)[d as int] == seqno);
                    assert(k != seqno);
                    if due@.take(d as int).contains(k) {
                        let w = choose|w: int| 0 <= w < due@.take(d as int).len() && #[trigger] due@.take(d as int)[w] == k;
                        assert(due@.take(d + 1)[w] == k);
                    }
                }
                assert forall|dd: int| 0 <= dd < d + 1 implies !self.inflight@[#[trigger] due@[dd]].known_lost
                    && (!late(now) ==> self.inflight@[due@[dd]].retrans_time > now)
                    && emits(out@, sent_ledger[due@[dd]].payload@) by {
                    if dd < d {
                        assert(due@[dd] != seqno);
                        lemma_emits_prefix(before, out@, sent_ledger[due@[dd]].payload@);
                    }
                }
                assert forall|w: int| old(out)@.len() <= w < out@.len() implies !is_kind((#[trigger] out@[w])@, RelKind::DataAck) by {
                    if w < before.len() {
                        assert(out@[w] == before[w]);
                    }
                }
                assert(out@.subrange(0, out_u.len() as int) =~= out_u) by {
                    assert(before.subrange(0, out_u.len() as int) == out_u);
                }
                assert(out@.subrange(0, old(out)@.len() as int) =~= old(out)@) by {
                    assert(before.subrange(0, old(out)@.len() as int) == old(out)@);
                }
            }
            d = d + 1;
        }
        proof {
            assert(due@.take(d as int) =~= due@);
            if !(sent_ws.len() == 0 || self.next_write_seqno == u64::MAX) {
                assert(sent_ledger.dom() =~= self.inflight@.dom());
                lemma_lmf_same_keys(sent_ledger, self.inflight@, self.window_seen@, self.window_seen@);
            }
            assert forall|k: u64| #[trigger] self.inflight@.contains_key(k) implies old(self).inflight@.contains_key(k)
                || old(self).next_write_seqno <= k < self.next_write_seqno by {
                assert(sent_ledger.contains_key(k));
            }
            assert forall|k: u64| old(self).next_write_seqno <= k < self.next_write_seqno implies #[trigger] self.inflight@.contains_key(k)
                && emits(out@, self.inflight@[k].payload@) by {
                assert(sent_ledger.contains_key(k));
                lemma_emits_prefix(out_w, out_u, sent_ledger[k].payload@);
                lemma_emits_prefix(out_u, out@, sent_ledger[k].payload@);
            }
            assert forall|k: u64| #[trigger] old(self).inflight@.contains_key(k) && !old(self).inflight@[k].known_lost
                && old(self).inflight@[k].retrans_time <= now implies emits(out@, old(self).inflight@[k].payload@) by {
                assert(sent_ledger[k] == old(self).inflight@[k]);
                assert(due@.contains(k));
                let dd = choose|dd: int| 0 <= dd < due@.len() && due@[dd] == k;
                assert(emits(out@, sent_ledger[due@[dd]].payload@));
            }
            if !late(now) {
                assert forall|k: u64| #[trigger] self.inflight@.contains_key(k) && !self.inflight@[k].known_lost
                    implies self.inflight@[k].retrans_time > now by {
                    if due@.contains(k) {
                        let dd = choose|dd: int| 0 <= dd < due@.len() && due@[dd] == k;
                        assert(self.inflight@[due@[dd]].retrans_time > now);
                    } else {
                        assert(sent_ledger.contains_key(k));
                        assert(!due@.take(d as int).contains(k));
                        assert(self.inflight@[k] == sent_ledger[k]);
                        if sent_ledger[k].retrans_time <= now {
                            assert(sent_ledger[k].known_lost);
                        }
                    }
                }
            }
        }
        proof {
            assert forall|k: u64| old(self).next_write_seqno <= k < self.next_write_seqno implies (#[trigger] sent_ledger[k]).payload == self.inflight@[k].payload by {
                assert(sent_ledger.contains_key(k));
            }
            lemma_sent_bytes_ext(sent_ledger, self.inflight@, old(self).next_write_seqno, self.next_write_seqno as int);
        }
    }

    /// Answers everything that reaches a closed stream, but resets, with `Rst`.
    fn drain_closed(&mut self, out: &mut Vec<Message>)
        requires
            old(self).wf(),
        ensures
            final(self).wf(),
            final(self).phase == old(self).phase,
            final(self).stream_id == old(self).stream_id,
            final(self).read_until == old(self).read_until,
            final(self).next_write_seqno == old(self).next_write_seqno,
            final(self).inflight == old(self).inflight,
            final(self).received == old(self).received,
            final(self).window_seen == old(self).window_seen,
            final(self).acks_reported == old(self).acks_reported,
            final(self).losses_reported == old(self).losses_reported,
            final(self).incoming@.len() == 0,
            final(out)@.len() == old(out)@.len() + rst_answers(old(self).incoming@),
            forall|w: int| old(out)@.len() <= w < final(out)@.len() ==> (#[trigger] final(out)@[w])@ == rst_view(
                old(self).stream_id,
            ),
            final(out)@.len() >= old(out)@.len(),
            final(out)@.subrange(0, old(out)@.len() as int) == old(out)@,
    {
        let mut msgs: Vec<Message> = Vec::new();
        std::mem::swap(&mut msgs, &mut self.incoming);
        let mut i: usize = 0;
        while i < msgs.len()
            invariant
                i <= msgs@.len(),
                msgs@ == old(self).incoming@,
                out@.len() == old(out)@.len() + rst_answers(msgs@.take(i as int)),
                forall|w: int| old(out)@.len() <= w < out@.len() ==> (#[trigger] out@[w])@ == rst_view(self.stream_id),
                out@.len() >= old(out)@.len(),
                out@.subrange(0, old(out)@.len() as int) == old(out)@,
            decreases msgs@.len() - i,
        {
            proof {
                assert(msgs@.take(i + 1).drop_last() =~= msgs@.take(i as int));
                assert(msgs@.take(i + 1).last() == msgs@[i as int]);
            }
            let answer = match &msgs[i] {
                Message::Rel { kind: RelKind::Rst, .. } => false,
                Message::Rel { .. } => true,
                Message::Urel { .. } => false,
            };
            proof {
                assert(answer == answered_by_rst(msgs@[i as int]@));
            }
            if answer {
                let ghost before = out@;
                out.push(Message::Rel { kind: RelKind::Rst, stream_id: self.stream_id, seqno: 0, payload: Vec::new() });
                proof {
                    assert(out@[out@.len() - 1]@ =~= rst_view(self.stream_id));
                    assert forall|w: int| old(out)@.len() <= w < out@.len() implies (#[trigger] out@[w])@ == rst_view(self.stream_id) by {
                        if w < before.len() {
                            assert(out@[w] == before[w]);
                        }
                    }
                    assert(out@.subrange(0, before.len() as int) =~= before);
                    assert(out@.subrange(0, old(out)@.len() as int) =~= old(out)@);
                }
            }
            i = i + 1;
        }
        proof {
            assert(msgs@.take(i as int) =~= msgs@);
        }
    }

    /// Waits for the peer's `SynAck`: it establishes the stream and marks the
    /// queues connected; a `Rst` closes it.
    fn await_syn_ack(&mut self, queues: &mut StreamQueues, now: u64)
        requires
            old(self).wf(),
            old(self).phase matches Phase::SynSent { .. },
        ensures
            final(self).wf(),
            final(self).phase == old(self).phase || final(self).phase == Phase::Established
                || final(self).phase == (Phase::Closed { since: now }),
            final(self).phase == Phase::Established ==> final(queues).connected,
            final(self).stream_id == old(self).stream_id,
            final(self).read_until == old(self).read_until,
            final(self).incoming@.len() == 0,
            final(queues).closed == old(queues).closed,
            old(queues).connected ==> final(queues).connected,
            final(queues).read_stream@ == old(queues).read_stream@,
            final(queues).write_stream@ == old(queues).write_stream@,
            final(self).inflight == old(self).inflight,
            final(self).received == old(self).received,
            final(self).next_write_seqno == old(self).next_write_seqno,
            final(self).acks_reported == old(self).acks_reported,
            final(self).losses_reported == old(self).losses_reported,
            has_kind(old(self).incoming@, RelKind::Rst) ==> final(self).phase == (Phase::Closed { since: now }),
            has_kind(old(self).incoming@, RelKind::SynAck) && !has_kind(old(self).incoming@, RelKind::Rst)
                ==> final(self).phase == Phase::Established && final(queues).connected,
            !has_kind(old(self).incoming@, RelKind::Rst) && !has_kind(old(self).incoming@, RelKind::SynAck)
                ==> final(self).phase == old(self).phase,
    {
        let mut msgs: Vec<Message> = Vec::new();
        std::mem::swap(&mut msgs, &mut self.incoming);
        let mut i: usize = 0;
        while i < msgs.len()
            invariant
                self.wf(),
                self.phase == old(self).phase || self.phase == Phase::Established
                    || self.phase == (Phase::Closed { since: now }),
                self.phase == Phase::Established ==> queues.connected,
                self.stream_id == old(self).stream_id,
                self.read_until == old(self).read_until,
                self.incoming@.len() == 0,
                queues.closed == old(queues).closed,
                old(queues).connected ==> queues.connected,
                queues.read_stream@ == old(queues).read_stream@,
                queues.write_stream@ == old(queues).write_stream@,
                i <= msgs@.len(),
                msgs@ == old(self).incoming@,
                self.inflight == old(self).inflight,
                self.received == old(self).received,
                self.next_write_seqno == old(self).next_write_seqno,
                self.acks_reported == old(self).acks_reported,
                self.losses_reported == old(self).losses_reported,
                has_kind(msgs@.take(i as int), RelKind::Rst) ==> self.phase == (Phase::Closed { since: now }),
                has_kind(msgs@.take(i as int), RelKind::SynAck) && !has_kind(msgs@.take(i as int), RelKind::Rst)
                    ==> self.phase == Phase::Established,
                !has_kind(msgs@.take(i as int), RelKind::Rst) && !has_kind(msgs@.take(i as int), RelKind::SynAck)
                    ==> self.phase == old(self).phase,
                !has_kind(msgs@.take(i as int), RelKind::Rst) ==> self.phase == old(self).phase || self.phase
                    == Phase::Established,
                old(self).phase matches Phase::SynSent { .. },
            decreases msgs@.len() - i,
        {
            proof {
                assert(msgs@.take(i + 1) =~= msgs@.take(i as int).push(msgs@[i as int]));
                assert(msgs@.take(i + 1)[i as int] == msgs@[i as int]);
                lemma_has_kind_push(msgs@.take(i as int), msgs@[i as int], RelKind::SynAck);
                lemma_has_kind_push(msgs@.take(i as int), msgs@[i as int], RelKind::Rst);
            }
            match &msgs[i] {
                Message::Rel { kind: RelKind::SynAck, .. } => {
                    match self.phase {
                        Phase::Closed { .. } => {},
                        _ => {
                            self.phase = Phase::Established;
                            queues.connected = true;
                        },
                    }
                },
                Message::Rel { kind: RelKind::Rst, .. } => {
                    self.phase = Phase::Closed { since: now };
                },
                _ => {},
            }
            i = i + 1;
        }
        proof {
            assert(msgs@.take(i as int) =~= msgs@);
        }
    }

    /// Whether a reset is queued.
    fn incoming_has_rst(&self) -> (r: bool)
        ensures
            r == has_kind(self.incoming@, RelKind::Rst),
    {
        let mut i: usize = 0;
        while i < self.incoming.len()
            invariant
                i <= self.incoming@.len(),
                forall|j: int| 0 <= j < i ==> !is_kind((#[trigger] self.incoming@[j])@, RelKind::Rst),
            decreases self.incoming@.len() - i,
        {
            let found = match &self.incoming[i] {
                Message::Rel { kind: RelKind::Rst, .. } => true,
                _ => false,
            };
            if found {
                proof {
                    assert(is_kind(self.incoming@[i as int]@, RelKind::Rst));
                }
                return true;
            }
            i = i + 1;
        }
        false
    }

    /// Drives the stream at `now` (milliseconds): returns the messages to send
    /// and the time by which the next tick is due. Calling it early is safe.
    ///
    /// `Pending` sends `Syn` carrying the additional data; `SynSent` waits for
    /// `SynAck` and resends `Syn` each second; `Established` runs the read
    /// half, then the write half, and closes once the handles are closed and
    /// everything was sent and acknowledged; `Closed` answers with `Rst` and
    /// marks the queues closed.
    #[verifier::spinoff_prover]
    #[verifier::rlimit(80)]
    pub fn tick(&mut self, queues: &mut StreamQueues, now: u64) -> (r: (Vec<Message>, u64))
        requires
            old(self).wf(),
        ensures
            final(self).wf(),
            final(self).spec_stream_id() == old(self).spec_stream_id(),
            final(self).spec_read_until() >= old(self).spec_read_until(),
            old(queues).closed ==> final(queues).closed,
            old(queues).connected ==> final(queues).connected,
            old(queues).read_stream@.is_prefix_of(final(queues).read_stream@),
            final(queues).write_stream@.is_suffix_of(old(queues).write_stream@),
            final(self).spec_phase() == Phase::Established ==> final(queues).connected,
            final(self).spec_phase() matches Phase::Closed { .. } ==> final(queues).closed,
            old(self).spec_phase() matches Phase::Closed { .. } ==> final(self).spec_phase() == old(self).spec_phase()
                && r.1 == sat_add(now, CLOSED_LINGER_MS),
            old(self).spec_phase() == Phase::Pending ==> {
                &&& final(self).spec_phase() == (Phase::SynSent { next_resend: sat_add(now, SYN_RESEND_MS) })
                &&& r.0@.len() == 1
                &&& r.0@[0]@ == (MessageView::Rel {
                    kind: RelKind::Syn,
                    stream_id: old(self).spec_stream_id(),
                    seqno: 0,
                    payload: old(self).spec_additional_data(),
                })
                &&& r.1 == sat_add(now, SYN_RESEND_MS)
            },
            acks_carry(r.0@, 0, old(self).spec_stream_id(), final(self).spec_read_until()),
            old(self).spec_losses_reported() <= final(self).spec_losses_reported() <= old(self).spec_losses_reported() + 1,
            old(self).spec_phase() == Phase::Established && !has_kind(old(self).spec_incoming(), RelKind::Rst)
                ==> final(self).spec_acks_reported() + old(self).spec_inflight()@.dom().intersect(
                final(self).spec_inflight()@.dom(),
            ).len() == old(self).spec_acks_reported() + old(self).spec_inflight()@.len(),
            old(self).spec_phase() == Phase::Pending ==> final(self).spec_incoming() == old(self).spec_incoming(),
            final(self).spec_phase() matches Phase::SynSent { next_resend } ==> r.1 == next_resend,
            final(self).spec_phase() == Phase::Established ==> r.1 <= sat_add(now, IDLE_TICK_MS) && forall|k: u64|
                #[trigger] final(self).spec_inflight()@.contains_key(k) && !final(self).spec_inflight()@[k].known_lost
                ==> r.1 <= final(self).spec_inflight()@[k].retrans_time,
            (old(self).spec_phase() matches Phase::Closed { .. }) || (old(self).spec_phase() == Phase::Established
                && has_kind(old(self).spec_incoming(), RelKind::Rst)) ==> {
                &&& final(self).spec_phase() matches Phase::Closed { .. }
                &&& final(queues).read_stream@ == old(queues).read_stream@
                &&& final(queues).write_stream@ == old(queues).write_stream@
                &&& final(self).spec_inflight() == old(self).spec_inflight()
                &&& final(self).spec_read_until() == old(self).spec_read_until()
                &&& r.0@.len() == rst_answers(old(self).spec_incoming())
                &&& forall|w: int| 0 <= w < r.0@.len() ==> (#[trigger] r.0@[w])@ == rst_view(old(self).spec_stream_id())
            },
            old(self).spec_phase() matches Phase::SynSent { .. } ==> {
                &&& has_kind(old(self).spec_incoming(), RelKind::Rst) ==> final(self).spec_phase() == (Phase::Closed {
                    since: now,
                })
                &&& has_kind(old(self).spec_incoming(), RelKind::SynAck) && !has_kind(
                    old(self).spec_incoming(),
                    RelKind::Rst,
                ) ==> final(queues).connected && (final(self).spec_phase() == Phase::Established || (
                final(self).spec_phase() == (Phase::Closed { since: now }) && flushed(
                    old(queues).closed,
                    final(queues).write_stream@.len(),
                    final(self).spec_inflight()@.len(),
                )))
                &&& !has_kind(old(self).spec_incoming(), RelKind::Rst) && !has_kind(
                    old(self).spec_incoming(),
                    RelKind::SynAck,
                ) ==> final(self).spec_phase() matches Phase::SynSent { .. }
            },
            old(self).spec_phase() == Phase::Established ==> {
                &&& final(self).spec_phase() == Phase::Established
                    || final(self).spec_phase() == (Phase::Closed { since: now })
                &&& has_kind(old(self).spec_incoming(), RelKind::Rst) ==> final(self).spec_phase() == (Phase::Closed {
                    since: now,
                })
                &&& final(self).spec_phase() == Phase::Established || has_kind(old(self).spec_incoming(), RelKind::Rst)
                    || flushed(old(queues).closed, final(queues).write_stream@.len(), final(self).spec_inflight()@.len())
                &&& !has_kind(old(self).spec_incoming(), RelKind::Rst) ==> final(queues).send_urel@.len() == 0
                &&& !has_kind(old(self).spec_incoming(), RelKind::Rst) ==> resends_due(
                    r.0@,
                    0,
                    old(self).spec_next_write_seqno(),
                    old(self).spec_inflight()@,
                    now,
                )
                &&& !has_kind(old(self).spec_incoming(), RelKind::Rst) && old(queues).read_stream@.len() <= READ_CAP
                    && old(self).spec_reorderer().len() + old(self).spec_incoming().len() <= REORDER_CAP ==> forall|j: int, k: u64|
                    0 <= j < old(self).spec_incoming().len() && is_data_at((#[trigger] old(self).spec_incoming()[j])@, k)
                    && old(self).spec_read_until() <= k < u64::MAX ==> #[trigger] final(self).spec_received().contains_key(k)
                &&& !has_kind(old(self).spec_incoming(), RelKind::Rst) ==> final(queues).write_stream@.len() == 0
                    || final(self).spec_next_write_seqno() == u64::MAX || lmf_at_least(
                    final(self).spec_inflight()@,
                    final(self).spec_window_seen(),
                )
                &&& !has_kind(old(self).spec_incoming(), RelKind::Rst) && flushed(
                    old(queues).closed,
                    final(queues).write_stream@.len(),
                    final(self).spec_inflight()@.len(),
                ) ==> final(self).spec_phase() == (Phase::Closed { since: now })
                &&& !has_kind(old(self).spec_incoming(), RelKind::Rst) ==> forall|j: int| 0 <= j < old(self).spec_incoming().len() ==> acks_cleared(
                    (#[trigger] old(self).spec_incoming()[j])@,
                    final(self).spec_inflight()@.restrict(old(self).spec_inflight()@.dom()),
                )
                &&& !has_kind(old(self).spec_incoming(), RelKind::Rst) ==> forall|k: u64| #[trigger] old(self).spec_inflight()@.contains_key(k)
                    && !old(self).spec_inflight()@[k].known_lost && old(self).spec_inflight()@[k].retrans_time <= now
                    && final(self).spec_inflight()@.contains_key(k) ==> emits(r.0@, old(self).spec_inflight()@[k].payload@)
                &&& !has_kind(old(self).spec_incoming(), RelKind::Rst) && !late(now) ==> forall|k: u64| #[trigger] final(self).spec_inflight()@.contains_key(k)
                    && !final(self).spec_inflight()@[k].known_lost ==> final(self).spec_inflight()@[k].retrans_time > now
                &&& forall|k: u64| old(self).spec_next_write_seqno() <= k < final(self).spec_next_write_seqno()
                    ==> #[trigger] final(self).spec_inflight()@.contains_key(k) && is_segment(
                    final(self).spec_inflight()@[k].payload@,
                    old(self).spec_stream_id(),
                    k,
                ) && emits(r.0@, final(self).spec_inflight()@[k].payload@)
                &&& forall|k: u64| old(self).spec_read_until() <= k < final(self).spec_read_until()
                    ==> #[trigger] final(self).spec_received().contains_key(k)
                &&& !has_kind(old(self).spec_incoming(), RelKind::Rst) ==> !final(self).spec_received().contains_key(
                    final(self).spec_read_until(),
                )
                &&& !has_kind(old(self).spec_incoming(), RelKind::Rst) ==> forall|j: int| 0 <= j < old(self).spec_incoming().len()
                    && is_syn(#[trigger] old(self).spec_incoming()[j]@)
                    ==> emits(r.0@, syn_echo(old(self).spec_stream_id(), old(self).spec_incoming()[j]@))
                &&& final(queues).read_stream@ == old(queues).read_stream@ + delivered_bytes(
                    final(self).spec_received(),
                    old(self).spec_read_until(),
                    final(self).spec_read_until() as int,
                )
                &&& received_from(old(self).spec_received(), final(self).spec_received(), old(self).spec_incoming())
                &&& final(self).spec_next_write_seqno() >= old(self).spec_next_write_seqno()
                &&& old(queues).write_stream@ == sent_bytes(
                    final(self).spec_inflight()@,
                    old(self).spec_next_write_seqno(),
                    final(self).spec_next_write_seqno() as int,
                ) + final(queues).write_stream@
                &&& (exists|j: int| 0 <= j < old(self).spec_incoming().len()
                    && is_data(#[trigger] old(self).spec_incoming()[j]@))
                    && old(queues).read_stream@.len() <= READ_CAP && !has_kind(old(self).spec_incoming(), RelKind::Rst)
                    ==> emits_ack(r.0@, old(self).spec_stream_id(), final(self).spec_read_until())
            },
    {
        let mut out: Vec<Message> = Vec::new();
        match self.phase {
            Phase::Pending => {
                out.push(Message::Rel {
                    kind: RelKind::Syn,
                    stream_id: self.stream_id,
                    seqno: 0,
                    payload: self.additional_data.clone(),
                });
                let next = add_saturating(now, SYN_RESEND_MS);
                self.phase = Phase::SynSent { next_resend: next };
                return (out, next);
            },
            Phase::SynSent { next_resend } => {
                self.await_syn_ack(queues, now);
                if self.phase matches Phase::SynSent { .. } {
                    if now >= next_resend {
                        out.push(Message::Rel {
                            kind: RelKind::Syn,
                            stream_id: self.stream_id,
                            seqno: 0,
                            payload: self.additional_data.clone(),
                        });
                        let next = add_saturating(now, SYN_RESEND_MS);
                        self.phase = Phase::SynSent { next_resend: next };
                        return (out, next);
                    }
                    return (out, next_resend);
                }
            },
            _ => {},
        }
        let ghost incoming = self.incoming@;
        let ghost was_established = self.phase == Phase::Established;
        let ghost ledger0 = self.inflight@;
        if self.phase == Phase::Established && self.incoming_has_rst() {
            self.phase = Phase::Closed { since: now };
        }
        let ghost reading = self.phase == Phase::Established;
        proof {
            assert(out@.len() == 0);
            if !was_established && !(self.phase matches Phase::Closed { .. }) {
                assert(self.phase == Phase::Established) by {
                    assert(old(self).phase matches Phase::SynSent { .. });
                }
            }
        }
        if self.phase == Phase::Established {
            queues.connected = true;
            self.read_half(queues, now, &mut out);
        }
        let ghost after_read = out@;
        let ghost read_until_after = self.read_until;
        let ghost ledger_mid = self.inflight@;
        let ghost established_mid = self.phase == Phase::Established;
        let ghost mut after_wh = out@;
        let ghost mut ledger_wh = self.inflight@;
        if self.phase == Phase::Established {
            self.write_half(queues, now, &mut out);
            proof {
                after_wh = out@;
                ledger_wh = self.inflight@;
            }
            if queues.closed && queues.write_stream.len() == 0 && self.inflight.unacked() == 0 {
                self.phase = Phase::Closed { since: now };
                out.push(Message::Rel { kind: RelKind::Rst, stream_id: self.stream_id, seqno: 0, payload: Vec::new() });
            }
        }
        let ghost after_write = out@;
        let ghost ledger_end = self.inflight@;
        proof {
            assert(queues.read_stream@.subrange(0, old(queues).read_stream@.len() as int) =~= old(queues).read_stream@);
            assert(queues.write_stream@ =~= old(queues).write_stream@.subrange(
                old(queues).write_stream@.len() - queues.write_stream@.len(),
                old(queues).write_stream@.len() as int,
            ));
            assert(after_write.subrange(0, after_read.len() as int) =~= after_read);
        }
        let deadline: u64;
        if self.phase matches Phase::Closed { .. } {
            self.drain_closed(&mut out);
            queues.closed = true;
            deadline = add_saturating(now, CLOSED_LINGER_MS);
        } else {
            let idle = add_saturating(now, IDLE_TICK_MS);
            let first = self.inflight.first_rto();
            deadline = match first {
                Some((_, t)) => if t < idle {
                    t
                } else {
                    idle
                },
                None => idle,
            };
            proof {
                assert forall|k: u64| #[trigger] self.inflight@.contains_key(k) && !self.inflight@[k].known_lost
                    implies deadline <= self.inflight@[k].retrans_time by {
                    assert(rto_pairs(self.inflight@).contains((self.inflight@[k].retrans_time, k)));
                }
            }
        }
        proof {
            assert(was_established && !has_kind(incoming, RelKind::Rst) ==> reading);
            assert(out@.subrange(0, after_write.len() as int) =~= after_write);
            assert(out@.subrange(0, after_read.len() as int) =~= after_read);
            assert forall|w: int| 0 <= w < out@.len() && is_kind((#[trigger] out@[w])@, RelKind::DataAck) implies is_ack_of(
                out@[w]@,
                self.stream_id,
                self.read_until,
            ) by {
                if w < after_read.len() {
                    assert(out@[w] == after_read[w]);
                } else if w < after_write.len() {
                    assert(out@[w] == after_write[w]);
                }
            }
            if reading {
                let nx0 = old(self).next_write_seqno;
                if was_established {
                    assert forall|w: int, s2: u64| 0 <= w < out@.len() && #[trigger] is_data_at(out@[w]@, s2) && s2 < nx0
                        implies due_in(ledger0, s2, now) by {
                        if w < after_read.len() {
                            assert(out@[w] == after_read[w]);
                            assert(!is_kind(after_read[w]@, RelKind::Data));
                        } else if w < after_wh.len() {
                            assert(out@.subrange(0, after_wh.len() as int) =~= after_wh);
                            assert(out@[w] == after_wh[w]);
                            assert(due_in(ledger_mid, s2, now));
                            assert(ledger_mid.contains_key(s2));
                        } else {
                            assert(out@[w] == after_write[w] || w >= after_write.len());
                        }
                    }
                }
                if was_established {
                    assert(ledger0.dom().intersect(self.inflight@.dom()) =~= ledger_mid.dom()) by {
                        assert forall|k: u64| #[trigger] ledger_mid.dom().contains(k) implies ledger0.dom().contains(k)
                            && self.inflight@.dom().contains(k) by {
                            assert(ledger_mid.contains_key(k));
                        }
                        assert forall|k: u64| ledger0.dom().contains(k) && #[trigger] self.inflight@.dom().contains(k)
                            implies ledger_mid.dom().contains(k) by {
                            assert(ledger0.contains_key(k));
                            assert(k < nx0);
                        }
                    }
                }
                assert(after_write.subrange(0, after_wh.len() as int) =~= after_wh);
                assert(out@.subrange(0, after_wh.len() as int) =~= after_wh);
                assert forall|k: u64| nx0 <= k < self.next_write_seqno implies #[trigger] self.inflight@.contains_key(k)
                    && is_segment(self.inflight@[k].payload@, self.stream_id, k) && emits(out@, self.inflight@[k].payload@) by {
                    assert(established_mid);
                    assert(ledger_wh.contains_key(k));
                    assert(ledger_wh == self.inflight@);
                    lemma_emits_prefix(after_wh, out@, self.inflight@[k].payload@);
                }
                if !has_kind(incoming, RelKind::Rst) {
                    assert forall|k: u64| #[trigger] ledger0.contains_key(k) && !ledger0[k].known_lost
                        && ledger0[k].retrans_time <= now && self.inflight@.contains_key(k)
                        implies emits(out@, ledger0[k].payload@) by {
                        assert(k < nx0);
                        assert(ledger_mid.contains_key(k));
                        assert(ledger_mid[k] == ledger0[k]);
                        assert(established_mid);
                        lemma_emits_prefix(after_wh, out@, ledger0[k].payload@);
                    }
                }
                assert forall|j: int| 0 <= j < incoming.len() implies acks_cleared(
                    (#[trigger] incoming[j])@,
                    self.inflight@.restrict(ledger0.dom()),
                ) by {
                    assert(acks_cleared(incoming[j]@, ledger_mid));
                    match incoming[j]@ {
                        MessageView::Rel { kind, seqno, payload, .. } => {
                            if kind == RelKind::DataAck {
                                assert forall|k: u64| #[trigger] self.inflight@.restrict(ledger0.dom()).contains_key(k)
                                    implies k >= seqno && !ack_list_of(payload).contains(k) by {
                                    assert(ledger0.contains_key(k));
                                    assert(k < nx0);
                                    assert(ledger_mid.contains_key(k));
                                }
                            }
                        },
                        MessageView::Urel { .. } => {},
                    }
                }
                assert(out@.subrange(0, after_read.len() as int) =~= after_read);
                assert forall|j: int| 0 <= j < incoming.len() && is_syn(#[trigger] incoming[j]@) implies emits(out@, syn_echo(self.stream_id, incoming[j]@)) by {
                    lemma_emits_prefix(after_read, out@, syn_echo(self.stream_id, incoming[j]@));
                }
                if (exists|j: int| 0 <= j < incoming.len() && is_data(#[trigger] incoming[j]@))
                    && old(queues).read_stream@.len() <= READ_CAP {
                    lemma_emits_ack_prefix(after_read, out@, self.stream_id, read_until_after);
                }
            }
        }
        (out, deadline)
    }
}

} // verus!
