use vstd::prelude::*;

verus! {

/// A congestion-control policy: a window in packets that acknowledgements and
/// losses move.
pub trait CongestionControl {
    /// Gets the current window, in packets.
    fn cwnd(&self) -> usize;

    /// Reacts to the acknowledgement of a single packet.
    fn mark_ack(&mut self);

    /// Reacts to a loss event.
    fn mark_loss(&mut self);
}

/// Thousandths of a packet in one packet.
pub const MILLI: u64 = 1000;

/// The `k` of the additive increase `min(1, k / cwnd)`.
pub const HIGHSPEED_K: u64 = 32;

/// HighSpeed-style AIMD. The window is kept in thousandths of a packet: an
/// acknowledgement adds `min(1, 32 / cwnd)` packets, a loss multiplies the
/// window by 0.7, never below one packet.
pub struct Highspeed {
    cwnd_milli: u64,
}

/// Whole packets in a window of `c` thousandths, as many as a `usize` holds.
pub open spec fn packets_of(c: u64) -> nat {
    if c / MILLI > usize::MAX {
        usize::MAX as nat
    } else {
        (c / MILLI) as nat
    }
}

/// The window after one acknowledgement, in thousandths of a packet.
pub open spec fn highspeed_ack(c: u64) -> u64 {
    let inc = if c >= HIGHSPEED_K * MILLI {
        (HIGHSPEED_K * MILLI * MILLI) / (c as int)
    } else {
        MILLI as int
    };
    if c + inc > u64::MAX {
        u64::MAX
    } else {
        (c + inc) as u64
    }
}

/// The window after a loss, in thousandths of a packet.
pub open spec fn highspeed_loss(c: u64) -> u64 {
    let d = c * 7 / 10;
    if d < MILLI {
        MILLI
    } else {
        d as u64
    }
}

impl Highspeed {
    /// The window in thousandths of a packet.
    pub closed spec fn window(self) -> u64 {
        self.cwnd_milli
    }

    /// The window never falls below one packet.
    #[verifier::type_invariant]
    closed spec fn wf(self) -> bool {
        self.cwnd_milli >= MILLI
    }

    /// Creates the policy with a window of `init` packets, at least one.
    pub fn new(init: usize) -> (r: Highspeed)
        ensures
            r.window() == if init == 0 {
                MILLI as int
            } else if init as int * MILLI > u64::MAX {
                u64::MAX as int
            } else {
                init as int * MILLI
            },
    {
        let packets: u64 = if init == 0 {
            1
        } else {
            init as u64
        };
        let c: u64 = if packets > u64::MAX / MILLI {
            u64::MAX
        } else {
            packets * MILLI
        };
        Highspeed { cwnd_milli: c }
    }

    /// The window in whole packets.
    pub fn window_packets(&self) -> (r: usize)
        ensures
            r == packets_of(self.window()),
    {
        let p: u64 = self.cwnd_milli / MILLI;
        if p as u128 > usize::MAX as u128 {
            usize::MAX
        } else {
            p as usize
        }
    }

    /// Grows the window by `min(1, 32 / cwnd)` packets.
    pub fn on_ack(&mut self)
        ensures
            final(self).window() == highspeed_ack(old(self).window()),
            final(self).window() >= old(self).window(),
            final(self).window() / MILLI >= old(self).window() / MILLI,
    {
        proof {
            use_type_invariant(&*self);
        }
        let c = self.cwnd_milli;
        let inc: u64 = if c >= HIGHSPEED_K * MILLI {
            (HIGHSPEED_K * MILLI * MILLI) / c
        } else {
            MILLI
        };
        self.cwnd_milli = if c > u64::MAX - inc {
            u64::MAX
        } else {
            c + inc
        };
    }

    /// Shrinks the window to 0.7 of itself, never below one packet.
    pub fn on_loss(&mut self)
        ensures
            final(self).window() == highspeed_loss(old(self).window()),
            final(self).window() <= old(self).window(),
            final(self).window() / MILLI <= old(self).window() / MILLI,
    {
        proof {
            use_type_invariant(&*self);
        }
        let c = self.cwnd_milli;
        let d: u64 = (c / 10) * 7 + (c % 10) * 7 / 10;
        proof {
            assert((c / 10) * 7 + (c % 10) * 7 / 10 == c * 7 / 10) by (nonlinear_arith);
        }
        self.cwnd_milli = if d < MILLI {
            MILLI
        } else {
            d
        };
    }
}

impl CongestionControl for Highspeed {
    fn cwnd(&self) -> usize {
        self.window_packets()
    }

    fn mark_ack(&mut self) {
        self.on_ack()
    }

    fn mark_loss(&mut self) {
        self.on_loss()
    }
}

} // verus!
