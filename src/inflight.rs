use vstd::prelude::*;

use crate::calc::{BwCalculator, RttCalculator};
use crate::message::Message;

verus! {

/// A packet that was sent and not yet acknowledged. Times are in milliseconds.
pub struct InflightEntry {
    pub seqno: u64,
    pub send_time: u64,
    pub retrans: u64,
    pub payload: Message,
    pub retrans_time: u64,
    pub delivered: u64,
    pub delivered_time: u64,
    pub known_lost: bool,
}

/// `a + b`, or `u64::MAX` where that does not fit.
pub open spec fn sat_add(a: u64, b: u64) -> u64 {
    if a + b > u64::MAX {
        u64::MAX
    } else {
        (a + b) as u64
    }
}

/// `a - b`, or zero where `b > a`.
pub open spec fn sat_sub(a: u64, b: u64) -> u64 {
    if a >= b {
        (a - b) as u64
    } else {
        0
    }
}

/// How long a delivery-rate sample stays the best: ten round trips.
pub open spec fn rate_window(min_rtt: u64) -> u64 {
    if min_rtt * 10 > u64::MAX {
        u64::MAX
    } else {
        (min_rtt * 10) as u64
    }
}

/// How many timeouts the `n`-th retransmission waits: `2^n`, at most 60.
pub open spec fn backoff_factor(n: u64) -> u64 {
    if n == 0 {
        1
    } else if n == 1 {
        2
    } else if n == 2 {
        4
    } else if n == 3 {
        8
    } else if n == 4 {
        16
    } else if n == 5 {
        32
    } else {
        60
    }
}

/// The retransmission deadlines that a set of in-flight packets calls for:
/// one `(retrans_time, seqno)` for each packet not known to be lost.
pub open spec fn rto_pairs(m: Map<u64, InflightEntry>) -> Set<(u64, u64)> {
    Set::new(
        |p: (u64, u64)| m.contains_key(p.1) && !m[p.1].known_lost && m[p.1].retrans_time == p.0,
    )
}

/// A sequence of packets with distinct sequence numbers that holds exactly
/// the entries of `m`.
pub open spec fn segments_match(s: Seq<InflightEntry>, m: Map<u64, InflightEntry>) -> bool {
    &&& m.dom().finite()
    &&& m.dom().len() == s.len()
    &&& forall|i: int| 0 <= i < s.len() ==> m.contains_key(#[trigger] s[i].seqno) && m[s[i].seqno] == s[i]
    &&& forall|k: u64| #[trigger] m.contains_key(k) ==> exists|i: int| 0 <= i < s.len() && s[i].seqno == k
    &&& forall|i: int, j: int| 0 <= i < s.len() && 0 <= j < s.len() && i != j ==> s[i].seqno != s[j].seqno
}

proof fn lemma_segments_remove(s: Seq<InflightEntry>, m: Map<u64, InflightEntry>, i: int)
    requires
        segments_match(s, m),
        0 <= i < s.len(),
    ensures
        segments_match(s.remove(i), m.remove(s[i].seqno)),
{
    let k = s[i].seqno;
    let r = s.remove(i);
    let m2 = m.remove(k);
    assert forall|j: int| 0 <= j < r.len() implies m2.contains_key(#[trigger] r[j].seqno) && m2[r[j].seqno] == r[j] by {
        if j < i {
            assert(r[j] == s[j]);
        } else {
            assert(r[j] == s[j + 1]);
        }
    }
    assert forall|k2: u64| #[trigger] m2.contains_key(k2) implies exists|j: int| 0 <= j < r.len() && r[j].seqno == k2 by {
        assert(m.contains_key(k2));
        let j = choose|j: int| 0 <= j < s.len() && s[j].seqno == k2;
        if j < i {
            assert(r[j].seqno == k2);
        } else {
            assert(j != i);
            assert(r[j - 1].seqno == k2);
        }
    }
    assert forall|a: int, b: int| 0 <= a < r.len() && 0 <= b < r.len() && a != b implies r[a].seqno != r[b].seqno by {
        let a2 = if a < i { a } else { a + 1 };
        let b2 = if b < i { b } else { b + 1 };
        assert(r[a] == s[a2] && r[b] == s[b2]);
    }
}

proof fn lemma_segments_update(s: Seq<InflightEntry>, m: Map<u64, InflightEntry>, i: int, e: InflightEntry)
    requires
        segments_match(s, m),
        0 <= i < s.len(),
        e.seqno == s[i].seqno,
    ensures
        segments_match(s.update(i, e), m.insert(e.seqno, e)),
{
    let r = s.update(i, e);
    let m2 = m.insert(e.seqno, e);
    assert(m2.dom() == m.dom());
    assert forall|j: int| 0 <= j < r.len() implies m2.contains_key(#[trigger] r[j].seqno) && m2[r[j].seqno] == r[j] by {
        if j != i {
            assert(r[j] == s[j]);
        }
    }
    assert forall|k2: u64| #[trigger] m2.contains_key(k2) implies exists|j: int| 0 <= j < r.len() && r[j].seqno == k2 by {
        assert(m.contains_key(k2));
        let j = choose|j: int| 0 <= j < s.len() && s[j].seqno == k2;
        assert(r[j].seqno == k2);
    }
    assert forall|a: int, b: int| 0 <= a < r.len() && 0 <= b < r.len() && a != b implies r[a].seqno != r[b].seqno by {
        assert(r[a].seqno == s[a].seqno && r[b].seqno == s[b].seqno);
    }
}

proof fn lemma_segments_push(s: Seq<InflightEntry>, m: Map<u64, InflightEntry>, e: InflightEntry)
    requires
        segments_match(s, m),
        !m.contains_key(e.seqno),
    ensures
        segments_match(s.push(e), m.insert(e.seqno, e)),
{
    let r = s.push(e);
    let m2 = m.insert(e.seqno, e);
    assert forall|j: int| 0 <= j < r.len() implies m2.contains_key(#[trigger] r[j].seqno) && m2[r[j].seqno] == r[j] by {
        if j < s.len() {
            assert(r[j] == s[j]);
        }
    }
    assert forall|k2: u64| #[trigger] m2.contains_key(k2) implies exists|j: int| 0 <= j < r.len() && r[j].seqno == k2 by {
        if k2 == e.seqno {
            assert(r[s.len() as int].seqno == k2);
        } else {
            assert(m.contains_key(k2));
            let j = choose|j: int| 0 <= j < s.len() && s[j].seqno == k2;
            assert(r[j].seqno == k2);
        }
    }
    assert forall|a: int, b: int| 0 <= a < r.len() && 0 <= b < r.len() && a != b implies r[a].seqno != r[b].seqno by {
        if a < s.len() {
            assert(m.contains_key(s[a].seqno));
        }
        if b < s.len() {
            assert(m.contains_key(s[b].seqno));
        }
    }
}

/// The sender's ledger of packets in flight, keyed by sequence number, with an
/// index of retransmission deadlines.
pub struct Inflight {
    segments: Vec<InflightEntry>,
    rtos: Vec<(u64, u64)>,
    rtt: RttCalculator,
    bw: BwCalculator,
    sent: u64,
    retrans: u64,
    entries: Ghost<Map<u64, InflightEntry>>,
}

proof fn lemma_seq_remove_contains<A>(s: Seq<A>, j: int)
    requires
        0 <= j < s.len(),
        s.no_duplicates(),
    ensures
        s.remove(j).no_duplicates(),
        forall|x: A| s.remove(j).contains(x) <==> (s.contains(x) && x != s[j]),
{
    let r = s.remove(j);
    assert forall|x: A| r.contains(x) <==> (s.contains(x) && x != s[j]) by {
        if r.contains(x) {
            let k = choose|k: int| 0 <= k < r.len() && r[k] == x;
            if k < j {
                assert(s[k] == x);
            } else {
                assert(s[k + 1] == x);
            }
        }
        if s.contains(x) && x != s[j] {
            let k = choose|k: int| 0 <= k < s.len() && s[k] == x;
            if k < j {
                assert(r[k] == x);
            } else {
                assert(r[k - 1] == x);
            }
        }
    }
}

impl View for Inflight {
    type V = Map<u64, InflightEntry>;

    closed spec fn view(&self) -> Map<u64, InflightEntry> {
        self.entries@
    }
}

impl Inflight {
    /// The index of retransmission deadlines, as `(retrans_time, seqno)` pairs.
    pub closed spec fn rto_index(self) -> Set<(u64, u64)> {
        self.rtos@.to_set()
    }

    /// The round-trip estimator.
    pub closed spec fn rtt_state(self) -> RttCalculator {
        self.rtt
    }

    /// The delivery-rate estimator.
    pub closed spec fn bw_state(self) -> BwCalculator {
        self.bw
    }

    /// Packets sent, retransmissions included.
    pub closed spec fn sent_count(self) -> u64 {
        self.sent
    }

    /// Retransmissions.
    pub closed spec fn retrans_count(self) -> u64 {
        self.retrans
    }

    /// The ledger and the deadline index agree.
    pub closed spec fn wf(self) -> bool {
        let m = self.entries@;
        &&& segments_match(self.segments@, m)
        &&& forall|p: (u64, u64)| #[trigger] self.rtos@.contains(p) <==> rto_pairs(m).contains(p)
        &&& self.rtos@.no_duplicates()
    }

    /// Creates an empty ledger.
    pub fn new() -> (r: Inflight)
        ensures
            r.wf(),
            r@ == Map::<u64, InflightEntry>::empty(),
            !r.rtt_state().has_sample,
            r.bw_state().delivered == 0,
            r.sent_count() == 0,
            r.retrans_count() == 0,
    {
        let r = Inflight {
            segments: Vec::new(),
            rtos: Vec::new(),
            rtt: RttCalculator::new(),
            bw: BwCalculator::new(),
            sent: 0,
            retrans: 0,
            entries: Ghost(Map::empty()),
        };
        proof {
            assert forall|p: (u64, u64)| #[trigger] r.rtos@.contains(p) <==> rto_pairs(r.entries@).contains(p) by {
            }
        }
        r
    }

    /// The number of packets not yet acknowledged.
    pub fn unacked(&self) -> (r: usize)
        requires
            self.wf(),
        ensures
            r == self@.len(),
            self@.dom().finite(),
    {
        self.segments.len()
    }

    /// The number of packets still in flight.
    pub fn inflight(&self) -> (r: usize)
        requires
            self.wf(),
        ensures
            r == self@.len(),
            self@.dom().finite(),
    {
        self.segments.len()
    }

    fn find(&self, seqno: u64) -> (r: Option<usize>)
        requires
            self.wf(),
        ensures
            r is None <==> !self@.contains_key(seqno),
            r matches Some(i) ==> i < self.segments@.len() && self.segments@[i as int].seqno == seqno,
    {
        let mut i: usize = 0;
        while i < self.segments.len()
            invariant
                self.wf(),
                i <= self.segments@.len(),
                forall|j: int| 0 <= j < i ==> self.segments@[j].seqno != seqno,
            decreases self.segments@.len() - i,
        {
            if self.segments[i].seqno == seqno {
                return Some(i);
            }
            i = i + 1;
        }
        proof {
            if self@.contains_key(seqno) {
                let j = choose|j: int| 0 <= j < self.segments@.len() && self.segments@[j].seqno == seqno;
                assert(self.segments@[j].seqno != seqno);
            }
        }
        None
    }

    fn remove_rto(&mut self, retrans_time: u64, seqno: u64)
        requires
            old(self).rtos@.no_duplicates(),
        ensures
            final(self).rtos@.no_duplicates(),
            forall|p: (u64, u64)| #[trigger] final(self).rtos@.contains(p) <==> (old(self).rtos@.contains(p) && p != (retrans_time, seqno)),
            final(self).segments == old(self).segments,
            final(self).entries == old(self).entries,
            final(self).rtt == old(self).rtt,
            final(self).bw == old(self).bw,
            final(self).sent == old(self).sent,
            final(self).retrans == old(self).retrans,
    {
        let mut j: usize = 0;
        while j < self.rtos.len()
            invariant
                j <= self.rtos@.len(),
                self.rtos == old(self).rtos,
                old(self).rtos@.no_duplicates(),
                self.segments == old(self).segments,
                self.entries == old(self).entries,
                self.rtt == old(self).rtt,
                self.bw == old(self).bw,
                self.sent == old(self).sent,
                self.retrans == old(self).retrans,
                forall|k: int| 0 <= k < j ==> self.rtos@[k] != (retrans_time, seqno),
            decreases self.rtos@.len() - j,
        {
            let p = self.rtos[j];
            if p.0 == retrans_time && p.1 == seqno {
                proof {
                    lemma_seq_remove_contains(self.rtos@, j as int);
                }
                self.rtos.remove(j);
                return;
            }
            j = j + 1;
        }
        proof {
            assert forall|p: (u64, u64)| #[trigger] self.rtos@.contains(p) <==> (old(self).rtos@.contains(p) && p != (retrans_time, seqno)) by {
                if self.rtos@.contains(p) && p == (retrans_time, seqno) {
                    let k = choose|k: int| 0 <= k < self.rtos@.len() && self.rtos@[k] == p;
                    assert(self.rtos@[k] != (retrans_time, seqno));
                }
            }
        }
    }

    /// Inserts a freshly sent packet at `now`: it is due for retransmission
    /// one timeout later, and remembers how much had been delivered.
    pub fn insert(&mut self, msg: Message, now: u64)
        requires
            old(self).wf(),
            !old(self)@.contains_key(msg.spec_seqno()),
        ensures
            final(self).wf(),
            final(self)@.dom().finite(),
            final(self)@ == old(self)@.insert(
                msg.spec_seqno(),
                InflightEntry {
                    seqno: msg.spec_seqno(),
                    send_time: now,
                    retrans: 0,
                    payload: msg,
                    retrans_time: sat_add(now, old(self).rtt_state().spec_rto()),
                    delivered: old(self).bw_state().delivered,
                    delivered_time: old(self).bw_state().delivered_time,
                    known_lost: false,
                },
            ),
            final(self).rtt_state() == old(self).rtt_state(),
            final(self).bw_state() == old(self).bw_state(),
            final(self).sent_count() == sat_add(old(self).sent_count(), 1),
            final(self).retrans_count() == old(self).retrans_count(),
    {
        let seqno = msg.seqno();
        let rto_duration = self.rtt.rto();
        let rto: u64 = if now <= u64::MAX - rto_duration {
            now + rto_duration
        } else {
            u64::MAX
        };
        let entry = InflightEntry {
            seqno,
            send_time: now,
            retrans: 0,
            payload: msg,
            retrans_time: rto,
            delivered: self.bw.delivered,
            delivered_time: self.bw.delivered_time,
            known_lost: false,
        };
        let ghost old_rtos = self.rtos@;
        let ghost old_m = self.entries@;
        proof {
            lemma_segments_push(self.segments@, self.entries@, entry);
            assert(!old_rtos.contains((rto, seqno)));
        }
        self.entries = Ghost(self.entries@.insert(seqno, entry));
        self.segments.push(entry);
        self.rtos.push((rto, seqno));
        if self.sent < u64::MAX {
            self.sent = self.sent + 1;
        }
        proof {
            let m = self.entries@;
            assert forall|p: (u64, u64)| #[trigger] self.rtos@.contains(p) <==> rto_pairs(m).contains(p) by {
                if p == (rto, seqno) {
                    assert(self.rtos@[old_rtos.len() as int] == p);
                } else {
                    if self.rtos@.contains(p) {
                        let k = choose|k: int| 0 <= k < self.rtos@.len() && self.rtos@[k] == p;
                        assert(old_rtos[k] == p);
                        assert(old_rtos.contains(p));
                    }
                    if old_rtos.contains(p) {
                        let k = choose|k: int| 0 <= k < old_rtos.len() && old_rtos[k] == p;
                        assert(self.rtos@[k] == p);
                    }
                    assert(rto_pairs(old_m).contains(p) <==> rto_pairs(m).contains(p));
                }
            }
            assert forall|a: int, b: int| 0 <= a < self.rtos@.len() && 0 <= b < self.rtos@.len() && a != b implies self.rtos@[a] != self.rtos@[b] by {
                if a < old_rtos.len() {
                    assert(old_rtos.contains(self.rtos@[a]));
                }
                if b < old_rtos.len() {
                    assert(old_rtos.contains(self.rtos@[b]));
                }
            }
        }
    }

    /// Marks the packet `acked_seqno` acknowledged at `now`, and says whether it
    /// was in flight. A packet never retransmitted gives a round-trip sample;
    /// each acknowledged packet gives a delivery-rate sample.
    pub fn mark_acked(&mut self, acked_seqno: u64, now: u64) -> (r: bool)
        requires
            old(self).wf(),
        ensures
            final(self).wf(),
            final(self)@.dom().finite(),
            r == old(self)@.contains_key(acked_seqno),
            final(self)@ == old(self)@.remove(acked_seqno),
            final(self).sent_count() == old(self).sent_count(),
            final(self).retrans_count() == old(self).retrans_count(),
            !r ==> final(self).rtt_state() == old(self).rtt_state() && final(self).bw_state() == old(self).bw_state(),
            r ==> ({
                let e = old(self)@[acked_seqno];
                &&& final(self).rtt_state() == if e.retrans == 0 {
                    old(self).rtt_state().after_sample(sat_sub(now, e.send_time))
                } else {
                    old(self).rtt_state()
                }
                &&& final(self).bw_state() == old(self).bw_state().after_ack(
                    e.delivered,
                    e.delivered_time,
                    now,
                    rate_window(final(self).rtt_state().spec_min_rtt()),
                )
            }),
    {
        match self.find(acked_seqno) {
            None => {
                proof {
                    assert(self.entries@.remove(acked_seqno) =~= self.entries@);
                }
                false
            },
            Some(i) => {
                let ghost old_m = self.entries@;
                proof {
                    lemma_segments_remove(self.segments@, self.entries@, i as int);
                }
                let seg = self.segments.remove(i);
                self.entries = Ghost(self.entries@.remove(acked_seqno));
                if seg.retrans == 0 {
                    let sample: u64 = if now >= seg.send_time {
                        now - seg.send_time
                    } else {
                        0
                    };
                    self.rtt.record_sample(sample);
                }
                let min_rtt = self.rtt.min_rtt();
                let window: u64 = if min_rtt <= u64::MAX / 10 {
                    min_rtt * 10
                } else {
                    u64::MAX
                };
                self.bw.on_ack(seg.delivered, seg.delivered_time, now, window);
                self.remove_rto(seg.retrans_time, acked_seqno);
                proof {
                    let m = self.entries@;
                    assert forall|p: (u64, u64)| #[trigger] self.rtos@.contains(p) <==> rto_pairs(m).contains(p) by {
                        assert(rto_pairs(old_m).contains(p) <==> (m.contains_key(p.1) && rto_pairs(m).contains(p)) || p == (seg.retrans_time, acked_seqno) && !seg.known_lost);
                    }
                }
                true
            },
        }
    }

    /// Marks the packet `seqno` as known to be lost, which takes it out of the
    /// deadline index until it is retransmitted; says whether it was in flight.
    pub fn mark_lost(&mut self, seqno: u64) -> (r: bool)
        requires
            old(self).wf(),
        ensures
            final(self).wf(),
            final(self)@.dom().finite(),
            r == old(self)@.contains_key(seqno),
            final(self)@ == if r {
                old(self)@.insert(seqno, InflightEntry { known_lost: true, ..old(self)@[seqno] })
            } else {
                old(self)@
            },
            final(self).rtt_state() == old(self).rtt_state(),
            final(self).bw_state() == old(self).bw_state(),
            final(self).sent_count() == old(self).sent_count(),
            final(self).retrans_count() == old(self).retrans_count(),
    {
        match self.find(seqno) {
            None => false,
            Some(i) => {
                let ghost old_m = self.entries@;
                let retrans_time = self.segments[i].retrans_time;
                let seg = &mut self.segments[i];
                seg.known_lost = true;
                let ghost e = self.segments@[i as int];
                proof {
                    lemma_segments_update(old(self).segments@, old_m, i as int, e);
                }
                self.entries = Ghost(self.entries@.insert(seqno, e));
                self.remove_rto(retrans_time, seqno);
                proof {
                    let m = self.entries@;
                    assert forall|p: (u64, u64)| #[trigger] self.rtos@.contains(p) <==> rto_pairs(m).contains(p) by {
                        if p.1 != seqno {
                            assert(rto_pairs(old_m).contains(p) <==> rto_pairs(m).contains(p));
                        }
                    }
                }
                true
            },
        }
    }

    /// Retransmits the packet `seqno` at `now`: the next deadline is the
    /// timeout times `2^retrans`, at most 60 timeouts, away; the packet is no
    /// longer known lost. Returns a copy of the packet, or `None` if it is not
    /// in flight.
    pub fn retransmit(&mut self, seqno: u64, now: u64) -> (r: Option<Message>)
        requires
            old(self).wf(),
        ensures
            final(self).wf(),
            final(self)@.dom().finite(),
            r is None <==> !old(self)@.contains_key(seqno),
            r is None ==> *final(self) == *old(self),
            r matches Some(msg) ==> ({
                let e = old(self)@[seqno];
                let retrans = sat_add(e.retrans, 1);
                &&& msg@ == e.payload@
                &&& final(self)@ == old(self)@.insert(
                    seqno,
                    InflightEntry {
                        retrans,
                        retrans_time: sat_add(
                            now,
                            (old(self).rtt_state().spec_rto() * backoff_factor(retrans)) as u64,
                        ),
                        known_lost: false,
                        ..e
                    },
                )
                &&& final(self).sent_count() == sat_add(old(self).sent_count(), 1)
                &&& final(self).retrans_count() == sat_add(old(self).retrans_count(), 1)
            }),
            final(self).rtt_state() == old(self).rtt_state(),
            final(self).bw_state() == old(self).bw_state(),
    {
        let rto = self.rtt.rto();
        match self.find(seqno) {
            None => None,
            Some(i) => {
                let ghost old_m = self.entries@;
                let ghost old_rtos = self.rtos@;
                let old_time = self.segments[i].retrans_time;
                let old_lost = self.segments[i].known_lost;
                let seg = &mut self.segments[i];
                if seg.retrans < u64::MAX {
                    seg.retrans = seg.retrans + 1;
                }
                let factor: u64 = if seg.retrans == 0 {
                    1
                } else if seg.retrans == 1 {
                    2
                } else if seg.retrans == 2 {
                    4
                } else if seg.retrans == 3 {
                    8
                } else if seg.retrans == 4 {
                    16
                } else if seg.retrans == 5 {
                    32
                } else {
                    60
                };
                let wait: u64 = rto * factor;
                let new_time: u64 = if now <= u64::MAX - wait {
                    now + wait
                } else {
                    u64::MAX
                };
                seg.retrans_time = new_time;
                seg.known_lost = false;
                let payload = seg.payload.duplicate();
                let ghost e = self.segments@[i as int];
                proof {
                    lemma_segments_update(old(self).segments@, old_m, i as int, e);
                }
                self.entries = Ghost(self.entries@.insert(seqno, e));
                self.remove_rto(old_time, seqno);
                let ghost mid_rtos = self.rtos@;
                proof {
                    assert(!mid_rtos.contains((new_time, seqno)));
                }
                self.rtos.push((new_time, seqno));
                if self.sent < u64::MAX {
                    self.sent = self.sent + 1;
                }
                if self.retrans < u64::MAX {
                    self.retrans = self.retrans + 1;
                }
                proof {
                    let m = self.entries@;
                    assert forall|p: (u64, u64)| #[trigger] self.rtos@.contains(p) <==> rto_pairs(m).contains(p) by {
                        if p == (new_time, seqno) {
                            assert(self.rtos@[mid_rtos.len() as int] == p);
                        } else {
                            if self.rtos@.contains(p) {
                                let k = choose|k: int| 0 <= k < self.rtos@.len() && self.rtos@[k] == p;
                                assert(mid_rtos[k] == p);
                                assert(mid_rtos.contains(p));
                            }
                            if mid_rtos.contains(p) {
                                let k = choose|k: int| 0 <= k < mid_rtos.len() && mid_rtos[k] == p;
                                assert(self.rtos@[k] == p);
                            }
                            if p.1 != seqno {
                                assert(rto_pairs(old_m).contains(p) <==> rto_pairs(m).contains(p));
                            }
                        }
                    }
                    assert forall|a: int, b: int| 0 <= a < self.rtos@.len() && 0 <= b < self.rtos@.len() && a != b implies self.rtos@[a] != self.rtos@[b] by {
                        if a < mid_rtos.len() {
                            assert(mid_rtos.contains(self.rtos@[a]));
                        }
                        if b < mid_rtos.len() {
                            assert(mid_rtos.contains(self.rtos@[b]));
                        }
                    }
                }
                Some(payload)
            },
        }
    }

    /// The earliest retransmission deadline as `(seqno, time)`, the smaller
    /// seqno first among equal deadlines; packets known lost are skipped.
    pub fn first_rto(&self) -> (r: Option<(u64, u64)>)
        requires
            self.wf(),
        ensures
            r is None <==> rto_pairs(self@).is_empty(),
            r matches Some((seqno, time)) ==> {
                &&& rto_pairs(self@).contains((time, seqno))
                &&& forall|p: (u64, u64)| #[trigger] rto_pairs(self@).contains(p) ==> time < p.0 || (time == p.0 && seqno <= p.1)
            },
    {
        if self.rtos.len() == 0 {
            proof {
                if !rto_pairs(self@).is_empty() {
                    let p = rto_pairs(self@).choose();
                    assert(self.rtos@.contains(p));
                }
            }
            return None;
        }
        let mut best: (u64, u64) = self.rtos[0];
        let mut i: usize = 1;
        while i < self.rtos.len()
            invariant
                self.wf(),
                1 <= i <= self.rtos@.len(),
                self.rtos@.contains(best),
                forall|k: int| 0 <= k < i ==> best.0 < (#[trigger] self.rtos@[k]).0 || (best.0 == self.rtos@[k].0 && best.1 <= self.rtos@[k].1),
            decreases self.rtos@.len() - i,
        {
            let p = self.rtos[i];
            if p.0 < best.0 || (p.0 == best.0 && p.1 < best.1) {
                best = p;
            }
            i = i + 1;
        }
        proof {
            assert(self.rtos@.contains(self.rtos@[0]));
            assert forall|p: (u64, u64)| #[trigger] rto_pairs(self@).contains(p) implies best.0 < p.0 || (best.0 == p.0 && best.1 <= p.1) by {
                assert(self.rtos@.contains(p));
                let k = choose|k: int| 0 <= k < self.rtos@.len() && self.rtos@[k] == p;
                assert(best.0 < self.rtos@[k].0 || (best.0 == self.rtos@[k].0 && best.1 <= self.rtos@[k].1));
            }
        }
        Some((best.1, best.0))
    }

    /// The distance between the largest and the smallest sequence number in
    /// flight; zero when nothing is in flight.
    pub fn last_minus_first(&self) -> (r: usize)
        requires
            self.wf(),
        ensures
            self@.len() == 0 ==> r == 0,
            self@.len() > 0 ==> exists|lo: u64, hi: u64| {
                &&& self@.contains_key(lo)
                &&& self@.contains_key(hi)
                &&& r == (hi - lo) as usize
                &&& forall|k: u64| #[trigger] self@.contains_key(k) ==> lo <= k <= hi
            },
    {
        if self.segments.len() == 0 {
            return 0;
        }
        let mut lo: u64 = self.segments[0].seqno;
        let mut hi: u64 = lo;
        let mut i: usize = 1;
        while i < self.segments.len()
            invariant
                self.wf(),
                1 <= i <= self.segments@.len(),
                lo <= hi,
                exists|a: int| 0 <= a < self.segments@.len() && self.segments@[a].seqno == lo,
                exists|b: int| 0 <= b < self.segments@.len() && self.segments@[b].seqno == hi,
                forall|k: int| 0 <= k < i ==> lo <= (#[trigger] self.segments@[k]).seqno <= hi,
            decreases self.segments@.len() - i,
        {
            let k = self.segments[i].seqno;
            if k < lo {
                lo = k;
            }
            if k > hi {
                hi = k;
            }
            i = i + 1;
        }
        proof {
            let a = choose|a: int| 0 <= a < self.segments@.len() && self.segments@[a].seqno == lo;
            let b = choose|b: int| 0 <= b < self.segments@.len() && self.segments@[b].seqno == hi;
            assert(self@.contains_key(self.segments@[a].seqno));
            assert(self@.contains_key(self.segments@[b].seqno));
            assert forall|k: u64| #[trigger] self@.contains_key(k) implies lo <= k <= hi by {
                let j = choose|j: int| 0 <= j < self.segments@.len() && self.segments@[j].seqno == k;
                assert(lo <= self.segments@[j].seqno <= hi);
            }
        }
        (hi - lo) as usize
    }

    /// The packets in flight, not known lost, whose deadline is at or before
    /// `now`; each once.
    pub fn due_before(&self, now: u64) -> (r: Vec<u64>)
        requires
            self.wf(),
        ensures
            r@.no_duplicates(),
            forall|k: u64| #[trigger] r@.contains(k) <==> (self@.contains_key(k) && !self@[k].known_lost
                && self@[k].retrans_time <= now),
    {
        let mut r: Vec<u64> = Vec::new();
        let mut i: usize = 0;
        while i < self.segments.len()
            invariant
                self.wf(),
                i <= self.segments@.len(),
                r@.no_duplicates(),
                forall|k: u64| #[trigger] r@.contains(k) <==> exists|j: int| 0 <= j < i
                    && self.segments@[j].seqno == k && !self.segments@[j].known_lost
                    && self.segments@[j].retrans_time <= now,
            decreases self.segments@.len() - i,
        {
            let e = &self.segments[i];
            if !e.known_lost && e.retrans_time <= now {
                let ghost before = r@;
                let k = e.seqno;
                proof {
                    if before.contains(k) {
                        let j = choose|j: int| 0 <= j < i && self.segments@[j].seqno == k
                            && !self.segments@[j].known_lost && self.segments@[j].retrans_time <= now;
                        assert(self.segments@[j].seqno != self.segments@[i as int].seqno);
                    }
                }
                r.push(k);
                proof {
                    assert forall|x: u64| #[trigger] r@.contains(x) <==> exists|j: int| 0 <= j < i + 1
                        && self.segments@[j].seqno == x && !self.segments@[j].known_lost
                        && self.segments@[j].retrans_time <= now by {
                        if r@.contains(x) {
                            let a = choose|a: int| 0 <= a < r@.len() && r@[a] == x;
                            if a < before.len() {
                                assert(before[a] == x);
                                assert(before.contains(x));
                            } else {
                                assert(self.segments@[i as int].seqno == x);
                            }
                        }
                        if exists|j: int| 0 <= j < i + 1 && self.segments@[j].seqno == x
                            && !self.segments@[j].known_lost && self.segments@[j].retrans_time <= now {
                            let j = choose|j: int| 0 <= j < i + 1 && self.segments@[j].seqno == x
                                && !self.segments@[j].known_lost && self.segments@[j].retrans_time <= now;
                            if j < i {
                                assert(before.contains(x));
                                let a = choose|a: int| 0 <= a < before.len() && before[a] == x;
                                assert(r@[a] == x);
                            } else {
                                assert(r@[before.len() as int] == x);
                            }
                        }
                    }
                    assert forall|a: int, b: int| 0 <= a < r@.len() && 0 <= b < r@.len() && a != b implies r@[a] != r@[b] by {
                        if a < before.len() {
                            assert(before.contains(r@[a]));
                        }
                        if b < before.len() {
                            assert(before.contains(r@[b]));
                        }
                    }
                }
            } else {
                proof {
                    assert forall|x: u64| #[trigger] r@.contains(x) <==> exists|j: int| 0 <= j < i + 1
                        && self.segments@[j].seqno == x && !self.segments@[j].known_lost
                        && self.segments@[j].retrans_time <= now by {
                        if exists|j: int| 0 <= j < i + 1 && self.segments@[j].seqno == x
                            && !self.segments@[j].known_lost && self.segments@[j].retrans_time <= now {
                            let j = choose|j: int| 0 <= j < i + 1 && self.segments@[j].seqno == x
                                && !self.segments@[j].known_lost && self.segments@[j].retrans_time <= now;
                            assert(j < i);
                        }
                    }
                }
            }
            i = i + 1;
        }
        proof {
            assert forall|k: u64| #[trigger] r@.contains(k) <==> (self@.contains_key(k) && !self@[k].known_lost
                && self@[k].retrans_time <= now) by {
                if r@.contains(k) {
                    let j = choose|j: int| 0 <= j < i && self.segments@[j].seqno == k
                        && !self.segments@[j].known_lost && self.segments@[j].retrans_time <= now;
                    assert(self@.contains_key(self.segments@[j].seqno));
                }
                if self@.contains_key(k) && !self@[k].known_lost && self@[k].retrans_time <= now {
                    let j = choose|j: int| 0 <= j < self.segments@.len() && self.segments@[j].seqno == k;
                    assert(self.segments@[j] == self@[k]);
                }
            }
        }
        r
    }

    /// The retransmission timeout, in milliseconds.
    pub fn rto(&self) -> (r: u64)
        ensures
            r == self.rtt_state().spec_rto(),
    {
        self.rtt.rto()
    }

    /// The smallest round trip seen, in milliseconds.
    pub fn min_rtt(&self) -> (r: u64)
        ensures
            r == self.rtt_state().spec_min_rtt(),
    {
        self.rtt.min_rtt()
    }

    /// The bandwidth-delay product of the link, in packets.
    pub fn bdp(&self) -> (r: usize)
        ensures
            r == self.bw_state().spec_bdp(self.rtt_state().spec_min_rtt()) as usize,
    {
        self.bw.bdp(self.rtt.min_rtt()) as usize
    }

    /// Marks every packet below `seqno` acknowledged at `now`, as a cumulative
    /// acknowledgement does; returns how many were in flight.
    pub fn mark_acked_lt(&mut self, seqno: u64, now: u64) -> (r: usize)
        requires
            old(self).wf(),
        ensures
            final(self).wf(),
            final(self)@.dom().finite(),
            final(self)@ == old(self)@.remove_keys(old(self)@.dom().filter(|k: u64| k < seqno)),
            r == old(self)@.dom().filter(|k: u64| k < seqno).len(),
            final(self)@.len() + r == old(self)@.len(),
            r == 0 ==> final(self).rtt_state() == old(self).rtt_state() && final(self).bw_state()
                == old(self).bw_state(),
            final(self).sent_count() == old(self).sent_count(),
            final(self).retrans_count() == old(self).retrans_count(),
    {
        let ghost lt = self@.dom().filter(|k: u64| k < seqno);
        let mut to_remove: Vec<u64> = Vec::new();
        let mut i: usize = 0;
        while i < self.segments.len()
            invariant
                self.wf(),
                *self == *old(self),
                i <= self.segments@.len(),
                to_remove@.no_duplicates(),
                forall|k: u64| #[trigger] to_remove@.contains(k) <==> exists|j: int| 0 <= j < i && self.segments@[j].seqno == k && k < seqno,
            decreases self.segments@.len() - i,
        {
            let k = self.segments[i].seqno;
            if k < seqno {
                let ghost before = to_remove@;
                proof {
                    if before.contains(k) {
                        let j = choose|j: int| 0 <= j < i && self.segments@[j].seqno == k && k < seqno;
                        assert(self.segments@[j].seqno != self.segments@[i as int].seqno);
                    }
                }
                to_remove.push(k);
                proof {
                    assert forall|x: u64| #[trigger] to_remove@.contains(x) <==> exists|j: int| 0 <= j < i + 1 && self.segments@[j].seqno == x && x < seqno by {
                        if to_remove@.contains(x) {
                            let a = choose|a: int| 0 <= a < to_remove@.len() && to_remove@[a] == x;
                            if a < before.len() {
                                assert(before[a] == x);
                                assert(before.contains(x));
                            } else {
                                assert(self.segments@[i as int].seqno == x);
                            }
                        }
                        if exists|j: int| 0 <= j < i + 1 && self.segments@[j].seqno == x && x < seqno {
                            let j = choose|j: int| 0 <= j < i + 1 && self.segments@[j].seqno == x && x < seqno;
                            if j < i {
                                assert(before.contains(x));
                                let a = choose|a: int| 0 <= a < before.len() && before[a] == x;
                                assert(to_remove@[a] == x);
                            } else {
                                assert(to_remove@[before.len() as int] == x);
                            }
                        }
                    }
                    assert forall|a: int, b: int| 0 <= a < to_remove@.len() && 0 <= b < to_remove@.len() && a != b implies to_remove@[a] != to_remove@[b] by {
                        if a < before.len() {
                            assert(before.contains(to_remove@[a]));
                        }
                        if b < before.len() {
                            assert(before.contains(to_remove@[b]));
                        }
                    }
                }
            } else {
                proof {
                    assert forall|x: u64| #[trigger] to_remove@.contains(x) <==> exists|j: int| 0 <= j < i + 1 && self.segments@[j].seqno == x && x < seqno by {
                        if exists|j: int| 0 <= j < i + 1 && self.segments@[j].seqno == x && x < seqno {
                            let j = choose|j: int| 0 <= j < i + 1 && self.segments@[j].seqno == x && x < seqno;
                            assert(j < i);
                        }
                    }
                }
            }
            i = i + 1;
        }
        proof {
            assert forall|x: u64| #[trigger] to_remove@.to_set().contains(x) <==> lt.contains(x) by {
                if to_remove@.contains(x) {
                    let j = choose|j: int| 0 <= j < i && self.segments@[j].seqno == x && x < seqno;
                    assert(self@.contains_key(self.segments@[j].seqno));
                }
                if lt.contains(x) {
                    let j = choose|j: int| 0 <= j < self.segments@.len() && self.segments@[j].seqno == x;
                    assert(to_remove@.contains(x));
                }
            }
            assert(to_remove@.to_set() =~= lt);
            to_remove@.unique_seq_to_set();
        }
        let mut sum: usize = 0;
        let mut n: usize = 0;
        while n < to_remove.len()
            invariant
                self.wf(),
                n <= to_remove@.len(),
                sum == n,
                to_remove@.no_duplicates(),
                to_remove@.to_set() == lt,
                lt == old(self)@.dom().filter(|k: u64| k < seqno),
                self@ == old(self)@.remove_keys(to_remove@.subrange(0, n as int).to_set()),
                self.sent_count() == old(self).sent_count(),
                self.retrans_count() == old(self).retrans_count(),
                n == 0 ==> self.rtt_state() == old(self).rtt_state() && self.bw_state() == old(self).bw_state(),
                self@.len() + n == old(self)@.len(),
            decreases to_remove@.len() - n,
        {
            let k = to_remove[n];
            proof {
                assert(to_remove@.contains(k));
                assert(lt.contains(k));
                if to_remove@.subrange(0, n as int).to_set().contains(k) {
                    let a = choose|a: int| 0 <= a < n && to_remove@.subrange(0, n as int)[a] == k;
                    assert(to_remove@[a] == to_remove@[n as int]);
                }
            }
            let acked = self.mark_acked(k, now);
            proof {
                assert(acked);
                let pre = to_remove@.subrange(0, n as int);
                let post = to_remove@.subrange(0, n + 1);
                assert forall|x: u64| #[trigger] post.to_set().contains(x) <==> pre.to_set().insert(k).contains(x) by {
                    if post.contains(x) {
                        let a = choose|a: int| 0 <= a < post.len() && post[a] == x;
                        if a < n {
                            assert(pre[a] == x);
                        }
                    }
                    if pre.contains(x) {
                        let a = choose|a: int| 0 <= a < pre.len() && pre[a] == x;
                        assert(post[a] == x);
                    }
                    if x == k {
                        assert(post[n as int] == x);
                    }
                }
                assert(post.to_set() =~= pre.to_set().insert(k));
                assert(self@ =~= old(self)@.remove_keys(to_remove@.subrange(0, n + 1).to_set()));
            }
            sum = sum + 1;
            n = n + 1;
        }
        proof {
            assert(to_remove@.subrange(0, n as int) =~= to_remove@);
        }
        sum
    }
}

/// One step of the ledger's history: a packet sent (`insert`), a packet
/// acknowledged (`mark_acked`), everything below a number acknowledged
/// (`mark_acked_lt`), or a packet marked lost or retransmitted (`mark_lost`,
/// `retransmit`), which keeps the same packets.
pub enum LedgerOp {
    Insert(u64),
    Ack(u64),
    AckBelow(u64),
    Keep,
}

/// The sequence numbers inserted and not acknowledged since, after `ops`.
pub open spec fn live_after(ops: Seq<LedgerOp>) -> Set<u64>
    decreases ops.len(),
{
    if ops.len() == 0 {
        Set::empty()
    } else {
        let before = live_after(ops.drop_last());
        match ops.last() {
            LedgerOp::Insert(k) => before.insert(k),
            LedgerOp::Ack(k) => before.remove(k),
            LedgerOp::AckBelow(x) => before.filter(|k: u64| k >= x),
            LedgerOp::Keep => before,
        }
    }
}

/// The deadline index of a well-formed ledger holds exactly one
/// `(retrans_time, seqno)` for each packet in flight that is not known lost.
pub proof fn lemma_rto_index_matches(inf: &Inflight)
    requires
        inf.wf(),
    ensures
        inf.rto_index() == rto_pairs(inf@),
{
    assert(inf.rto_index() =~= rto_pairs(inf@));
}

/// The number of unacknowledged packets is the number of distinct sequence
/// numbers inserted and not acknowledged since: in a run of ledgers that
/// starts empty, each one obtained from the one before as `insert`,
/// `mark_acked`, `mark_acked_lt`, `mark_lost` and `retransmit` state, the
/// last holds exactly those packets.
pub proof fn lemma_unacked_counts_live(runs: Seq<Map<u64, InflightEntry>>, ops: Seq<LedgerOp>)
    requires
        runs.len() == ops.len() + 1,
        runs[0] == Map::<u64, InflightEntry>::empty(),
        forall|i: int| 0 <= i < ops.len() ==> match #[trigger] ops[i] {
            LedgerOp::Insert(k) => exists|e: InflightEntry| runs[i + 1] == runs[i].insert(k, e),
            LedgerOp::Ack(k) => runs[i + 1] == runs[i].remove(k),
            LedgerOp::AckBelow(x) => runs[i + 1] == runs[i].remove_keys(runs[i].dom().filter(|k: u64| k < x)),
            LedgerOp::Keep => runs[i + 1].dom() == runs[i].dom(),
        },
    ensures
        runs.last().dom() == live_after(ops),
        runs.last().len() == live_after(ops).len(),
    decreases ops.len(),
{
    if ops.len() == 0 {
        assert(runs.last().dom() =~= Set::<u64>::empty());
    } else {
        let n = ops.len() - 1;
        let runs2 = runs.drop_last();
        let ops2 = ops.drop_last();
        assert forall|i: int| 0 <= i < ops2.len() implies match #[trigger] ops2[i] {
            LedgerOp::Insert(k) => exists|e: InflightEntry| runs2[i + 1] == runs2[i].insert(k, e),
            LedgerOp::Ack(k) => runs2[i + 1] == runs2[i].remove(k),
            LedgerOp::AckBelow(x) => runs2[i + 1] == runs2[i].remove_keys(runs2[i].dom().filter(|k: u64| k < x)),
            LedgerOp::Keep => runs2[i + 1].dom() == runs2[i].dom(),
        } by {
            assert(ops2[i] == ops[i]);
            assert(runs2[i] == runs[i] && runs2[i + 1] == runs[i + 1]);
        }
        lemma_unacked_counts_live(runs2, ops2);
        assert(runs2.last() == runs[n]);
        assert(ops[n] == ops.last());
        match ops[n] {
            LedgerOp::Insert(k) => {
                let e = choose|e: InflightEntry| runs[n + 1] == runs[n].insert(k, e);
                assert(runs.last().dom() =~= live_after(ops));
            },
            LedgerOp::Ack(k) => {
                assert(runs.last().dom() =~= live_after(ops));
            },
            LedgerOp::AckBelow(x) => {
                assert(runs.last().dom() =~= live_after(ops));
            },
            LedgerOp::Keep => {
                assert(runs.last().dom() =~= live_after(ops));
            },
        }
    }
}

} // verus!
