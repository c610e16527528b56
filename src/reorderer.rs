use vstd::prelude::*;

verus! {

/// The most payloads a reorderer holds; further ones are dropped, and the
/// sender retransmits them.
pub const REORDER_CAP: usize = 1024;

/// Payloads that arrived out of order, waiting for the ones before them.
pub struct Reorderer {
    pkts: Vec<(u64, Vec<u8>)>,
    next_expected: u64,
    stored: Ghost<Map<u64, Seq<u8>>>,
}

/// The sequence numbers from `lo` up to, not including, `hi`.
pub open spec fn seqno_range(lo: u64, hi: int) -> Set<u64> {
    Set::new(|k: u64| lo <= k < hi)
}

/// `s` holds exactly the payloads of `m`, each under a distinct key.
pub open spec fn pkts_match(s: Seq<(u64, Vec<u8>)>, m: Map<u64, Seq<u8>>) -> bool {
    &&& m.dom().finite()
    &&& m.dom().len() == s.len()
    &&& forall|i: int| 0 <= i < s.len() ==> m.contains_key(#[trigger] s[i].0) && m[s[i].0] == s[i].1@
    &&& forall|k: u64| #[trigger] m.contains_key(k) ==> exists|i: int| 0 <= i < s.len() && s[i].0 == k
    &&& forall|i: int, j: int| 0 <= i < s.len() && 0 <= j < s.len() && i != j ==> s[i].0 != s[j].0
}

proof fn lemma_pkts_remove(s: Seq<(u64, Vec<u8>)>, m: Map<u64, Seq<u8>>, i: int)
    requires
        pkts_match(s, m),
        0 <= i < s.len(),
    ensures
        pkts_match(s.remove(i), m.remove(s[i].0)),
{
    let r = s.remove(i);
    let m2 = m.remove(s[i].0);
    assert forall|j: int| 0 <= j < r.len() implies m2.contains_key(#[trigger] r[j].0) && m2[r[j].0] == r[j].1@ by {
        if j < i {
            assert(r[j] == s[j]);
        } else {
            assert(r[j] == s[j + 1]);
        }
    }
    assert forall|k2: u64| #[trigger] m2.contains_key(k2) implies exists|j: int| 0 <= j < r.len() && r[j].0 == k2 by {
        assert(m.contains_key(k2));
        let j = choose|j: int| 0 <= j < s.len() && s[j].0 == k2;
        if j < i {
            assert(r[j].0 == k2);
        } else {
            assert(j != i);
            assert(r[j - 1].0 == k2);
        }
    }
    assert forall|a: int, b: int| 0 <= a < r.len() && 0 <= b < r.len() && a != b implies r[a].0 != r[b].0 by {
        let a2 = if a < i { a } else { a + 1 };
        let b2 = if b < i { b } else { b + 1 };
        assert(r[a] == s[a2] && r[b] == s[b2]);
    }
}

impl View for Reorderer {
    type V = Map<u64, Seq<u8>>;

    closed spec fn view(&self) -> Map<u64, Seq<u8>> {
        self.stored@
    }
}

impl Reorderer {
    /// The next sequence number to hand out.
    pub closed spec fn cursor(self) -> u64 {
        self.next_expected
    }

    pub closed spec fn wf(self) -> bool {
        &&& pkts_match(self.pkts@, self.stored@)
        &&& self.pkts@.len() <= REORDER_CAP
        &&& forall|k: u64| #[trigger] self.stored@.contains_key(k) ==> self.next_expected <= k < u64::MAX
    }

    /// Creates an empty reorderer expecting sequence number zero.
    pub fn new() -> (r: Reorderer)
        ensures
            r.wf(),
            r@ == Map::<u64, Seq<u8>>::empty(),
            r.cursor() == 0,
    {
        Reorderer { pkts: Vec::new(), next_expected: 0, stored: Ghost(Map::empty()) }
    }

    fn find(&self, seqno: u64) -> (r: Option<usize>)
        requires
            self.wf(),
        ensures
            r is None <==> !self@.contains_key(seqno),
            r matches Some(i) ==> i < self.pkts@.len() && self.pkts@[i as int].0 == seqno,
    {
        let mut i: usize = 0;
        while i < self.pkts.len()
            invariant
                self.wf(),
                i <= self.pkts@.len(),
                forall|j: int| 0 <= j < i ==> self.pkts@[j].0 != seqno,
            decreases self.pkts@.len() - i,
        {
            if self.pkts[i].0 == seqno {
                return Some(i);
            }
            i = i + 1;
        }
        proof {
            if self@.contains_key(seqno) {
                let j = choose|j: int| 0 <= j < self.pkts@.len() && self.pkts@[j].0 == seqno;
                assert(self.pkts@[j].0 != seqno);
            }
        }
        None
    }

    /// Stores `payload` under `seqno` and says whether it was new. Sequence
    /// numbers already handed out, duplicates, the largest sequence number and
    /// anything beyond the capacity are dropped.
    pub fn insert(&mut self, seqno: u64, payload: Vec<u8>) -> (r: bool)
        requires
            old(self).wf(),
        ensures
            final(self).wf(),
            r == (old(self).cursor() <= seqno < u64::MAX && !old(self)@.contains_key(seqno)
                && old(self)@.len() < REORDER_CAP),
            final(self)@ == if r {
                old(self)@.insert(seqno, payload@)
            } else {
                old(self)@
            },
            final(self).cursor() == old(self).cursor(),
    {
        if seqno < self.next_expected || seqno == u64::MAX || self.pkts.len() >= REORDER_CAP {
            return false;
        }
        if self.find(seqno).is_some() {
            return false;
        }
        let ghost s = self.pkts@;
        let ghost m = self.stored@;
        let ghost pv = payload@;
        self.pkts.push((seqno, payload));
        self.stored = Ghost(m.insert(seqno, pv));
        proof {
            let r = self.pkts@;
            let m2 = self.stored@;
            assert forall|j: int| 0 <= j < r.len() implies m2.contains_key(#[trigger] r[j].0) && m2[r[j].0] == r[j].1@ by {
                if j < s.len() {
                    assert(r[j] == s[j]);
                }
            }
            assert forall|k2: u64| #[trigger] m2.contains_key(k2) implies exists|j: int| 0 <= j < r.len() && r[j].0 == k2 by {
                if k2 == seqno {
                    assert(r[s.len() as int].0 == k2);
                } else {
                    assert(m.contains_key(k2));
                    let j = choose|j: int| 0 <= j < s.len() && s[j].0 == k2;
                    assert(r[j].0 == k2);
                }
            }
            assert forall|a: int, b: int| 0 <= a < r.len() && 0 <= b < r.len() && a != b implies r[a].0 != r[b].0 by {
                if a < s.len() {
                    assert(m.contains_key(s[a].0));
                }
                if b < s.len() {
                    assert(m.contains_key(s[b].0));
                }
            }
        }
        true
    }

    /// Hands out the run of consecutive payloads that starts at the cursor,
    /// and moves the cursor past it.
    pub fn take(&mut self) -> (r: Vec<(u64, Vec<u8>)>)
        requires
            old(self).wf(),
        ensures
            final(self).wf(),
            final(self).cursor() == old(self).cursor() + r@.len(),
            forall|i: int| 0 <= i < r@.len() ==> {
                &&& (#[trigger] r@[i]).0 == old(self).cursor() + i
                &&& old(self)@.contains_key(r@[i].0)
                &&& r@[i].1@ == old(self)@[r@[i].0]
            },
            !old(self)@.contains_key(final(self).cursor()),
            final(self)@ == old(self)@.remove_keys(seqno_range(old(self).cursor(), final(self).cursor() as int)),
    {
        let mut out: Vec<(u64, Vec<u8>)> = Vec::new();
        loop
            invariant
                self.wf(),
                self.next_expected == old(self).next_expected + out@.len(),
                forall|i: int| 0 <= i < out@.len() ==> {
                    &&& (#[trigger] out@[i]).0 == old(self).cursor() + i
                    &&& old(self)@.contains_key(out@[i].0)
                    &&& out@[i].1@ == old(self)@[out@[i].0]
                },
                self@ == old(self)@.remove_keys(seqno_range(old(self).cursor(), self.next_expected as int)),
            ensures
                !old(self)@.contains_key(self.next_expected),
            decreases self.pkts@.len(),
        {
            match self.find(self.next_expected) {
                None => {
                    proof {
                        assert(!seqno_range(old(self).cursor(), self.next_expected as int).contains(self.next_expected));
                    }
                    break;
                },
                Some(i) => {
                    let ghost cur = self.next_expected;
                    let ghost m = self.stored@;
                    proof {
                        lemma_pkts_remove(self.pkts@, self.stored@, i as int);
                    }
                    let item = self.pkts.remove(i);
                    self.stored = Ghost(m.remove(cur));
                    proof {
                        assert(m.contains_key(cur));
                        assert(cur < u64::MAX);
                    }
                    self.next_expected = self.next_expected + 1;
                    out.push(item);
                    proof {
                        assert(self@ =~= old(self)@.remove_keys(seqno_range(old(self).cursor(), self.next_expected as int)));
                        assert forall|i: int| 0 <= i < out@.len() implies {
                            &&& (#[trigger] out@[i]).0 == old(self).cursor() + i
                            &&& old(self)@.contains_key(out@[i].0)
                            &&& out@[i].1@ == old(self)@[out@[i].0]
                        } by {
                            if i == out@.len() - 1 {
                                assert(out@[i] == item);
                            }
                        }
                    }
                },
            }
        }
        out
    }

    /// The next sequence number to hand out.
    pub fn next_expected(&self) -> (r: u64)
        ensures
            r == self.cursor(),
    {
        self.next_expected
    }

    /// A well-formed reorderer holds finitely many payloads, at most its
    /// capacity.
    pub proof fn lemma_bounded(&self)
        requires
            self.wf(),
        ensures
            self@.dom().finite(),
            self@.len() <= REORDER_CAP,
    {
    }
}

} // verus!
