use vstd::prelude::*;

verus! {

/// The retransmission timeout before any round trip has been measured, in
/// milliseconds; also the longest timeout.
pub const MAX_RTO_MS: u64 = 1000;

/// The shortest retransmission timeout, in milliseconds.
pub const MIN_RTO_MS: u64 = 10;

/// Round-trip estimator: minimum, smoothed value and variation, all in
/// milliseconds.
pub struct RttCalculator {
    pub has_sample: bool,
    pub min_rtt: u64,
    pub srtt: u64,
    pub rttvar: u64,
}

/// `|a - b|` for two unsigned values.
pub open spec fn abs_diff(a: u64, b: u64) -> int {
    if a >= b {
        a - b
    } else {
        b - a
    }
}

/// `x` clamped into `[lo, hi]`.
pub open spec fn clamp(x: int, lo: int, hi: int) -> int {
    if x < lo {
        lo
    } else if x > hi {
        hi
    } else {
        x
    }
}

impl RttCalculator {
    /// The estimator after one more round-trip sample: the first sample sets
    /// the smoothed value and half of it as variation; later ones move the
    /// smoothed value by an eighth and the variation by a quarter.
    pub open spec fn after_sample(self, sample: u64) -> RttCalculator {
        if !self.has_sample {
            RttCalculator { has_sample: true, min_rtt: sample, srtt: sample, rttvar: sample / 2 }
        } else {
            RttCalculator {
                has_sample: true,
                min_rtt: if sample < self.min_rtt {
                    sample
                } else {
                    self.min_rtt
                },
                srtt: ((7 * self.srtt + sample) / 8) as u64,
                rttvar: ((3 * self.rttvar + abs_diff(self.srtt, sample)) / 4) as u64,
            }
        }
    }

    /// The retransmission timeout: `srtt + 4 * rttvar`, kept between the
    /// shortest and the longest timeout.
    pub open spec fn spec_rto(self) -> u64 {
        if !self.has_sample {
            MAX_RTO_MS
        } else {
            clamp(self.srtt + 4 * self.rttvar, MIN_RTO_MS as int, MAX_RTO_MS as int) as u64
        }
    }

    /// The smallest round trip seen; before any, the longest timeout.
    pub open spec fn spec_min_rtt(self) -> u64 {
        if !self.has_sample {
            MAX_RTO_MS
        } else {
            self.min_rtt
        }
    }

    pub fn new() -> (r: RttCalculator)
        ensures
            !r.has_sample,
    {
        RttCalculator { has_sample: false, min_rtt: 0, srtt: 0, rttvar: 0 }
    }

    /// Records a round-trip sample, in milliseconds.
    pub fn record_sample(&mut self, sample: u64)
        ensures
            *final(self) == old(self).after_sample(sample),
    {
        if !self.has_sample {
            self.has_sample = true;
            self.min_rtt = sample;
            self.srtt = sample;
            self.rttvar = sample / 2;
        } else {
            if sample < self.min_rtt {
                self.min_rtt = sample;
            }
            let diff: u64 = if self.srtt >= sample {
                self.srtt - sample
            } else {
                sample - self.srtt
            };
            let srtt: u128 = (7 * (self.srtt as u128) + sample as u128) / 8;
            let rttvar: u128 = (3 * (self.rttvar as u128) + diff as u128) / 4;
            self.srtt = srtt as u64;
            self.rttvar = rttvar as u64;
        }
    }

    /// The retransmission timeout, in milliseconds.
    pub fn rto(&self) -> (r: u64)
        ensures
            r == self.spec_rto(),
            MIN_RTO_MS <= r <= MAX_RTO_MS,
    {
        if !self.has_sample {
            MAX_RTO_MS
        } else {
            let raw: u128 = self.srtt as u128 + 4 * (self.rttvar as u128);
            if raw < MIN_RTO_MS as u128 {
                MIN_RTO_MS
            } else if raw > MAX_RTO_MS as u128 {
                MAX_RTO_MS
            } else {
                raw as u64
            }
        }
    }

    /// The smallest round trip seen, in milliseconds.
    pub fn min_rtt(&self) -> (r: u64)
        ensures
            r == self.spec_min_rtt(),
    {
        if !self.has_sample {
            MAX_RTO_MS
        } else {
            self.min_rtt
        }
    }
}

/// Delivery-rate estimator in the rate-sample style: `delivered` counts the
/// packets acknowledged so far. The reported rate is the best recent sample,
/// `rate_packets` delivered over `rate_interval` milliseconds, taken at
/// `rate_time`.
pub struct BwCalculator {
    pub delivered: u64,
    pub delivered_time: u64,
    pub rate_packets: u64,
    pub rate_interval: u64,
    pub rate_time: u64,
}

impl BwCalculator {
    /// The estimator after one acknowledgement at `now`, of a packet sent when
    /// `snap_delivered` packets had been delivered, the last at `snap_time`.
    /// The new sample replaces the kept one when there is none, when it is at
    /// least as fast, or when the kept one is more than `window` old.
    pub open spec fn after_ack(self, snap_delivered: u64, snap_time: u64, now: u64, window: u64) -> BwCalculator {
        let delivered = if self.delivered < u64::MAX {
            (self.delivered + 1) as u64
        } else {
            self.delivered
        };
        let packets = delivered - snap_delivered;
        let interval = now - snap_time;
        let replace = self.rate_interval == 0 || packets * self.rate_interval >= self.rate_packets * interval
            || now - self.rate_time > window;
        if now > snap_time && delivered >= snap_delivered && replace {
            BwCalculator {
                delivered,
                delivered_time: now,
                rate_packets: packets as u64,
                rate_interval: interval as u64,
                rate_time: now,
            }
        } else {
            BwCalculator { delivered, delivered_time: now, ..self }
        }
    }

    /// Packets per round trip of `min_rtt` milliseconds at the sampled rate.
    pub open spec fn spec_bdp(self, min_rtt: u64) -> u64 {
        if self.rate_interval == 0 {
            0
        } else {
            let b = (self.rate_packets as int) * (min_rtt as int) / (self.rate_interval as int);
            if b > u64::MAX {
                u64::MAX
            } else {
                b as u64
            }
        }
    }

    pub fn new() -> (r: BwCalculator)
        ensures
            r.delivered == 0,
            r.delivered_time == 0,
            r.rate_interval == 0,
            r.rate_time == 0,
    {
        BwCalculator { delivered: 0, delivered_time: 0, rate_packets: 0, rate_interval: 0, rate_time: 0 }
    }

    /// Records the acknowledgement of one packet at `now`; samples older than
    /// `window` milliseconds give way to newer ones.
    pub fn on_ack(&mut self, snap_delivered: u64, snap_time: u64, now: u64, window: u64)
        ensures
            *final(self) == old(self).after_ack(snap_delivered, snap_time, now, window),
    {
        if self.delivered < u64::MAX {
            self.delivered = self.delivered + 1;
        }
        self.delivered_time = now;
        if now > snap_time && self.delivered >= snap_delivered {
            let packets: u64 = self.delivered - snap_delivered;
            let interval: u64 = now - snap_time;
            let p: u128 = packets as u128;
            let ri: u128 = self.rate_interval as u128;
            let rp: u128 = self.rate_packets as u128;
            let iv: u128 = interval as u128;
            proof {
                vstd::arithmetic::mul::lemma_mul_upper_bound(p as int, u64::MAX as int, ri as int, u64::MAX as int);
                vstd::arithmetic::mul::lemma_mul_upper_bound(rp as int, u64::MAX as int, iv as int, u64::MAX as int);
            }
            let stale: bool = now >= self.rate_time && now - self.rate_time > window;
            if self.rate_interval == 0 || p * ri >= rp * iv || stale {
                self.rate_packets = packets;
                self.rate_interval = interval;
                self.rate_time = now;
            }
        }
    }

    /// The bandwidth-delay product in packets, for a round trip of `min_rtt`
    /// milliseconds.
    pub fn bdp(&self, min_rtt: u64) -> (r: u64)
        ensures
            r == self.spec_bdp(min_rtt),
    {
        if self.rate_interval == 0 {
            0
        } else {
            let a: u128 = self.rate_packets as u128;
            let m: u128 = min_rtt as u128;
            proof {
                vstd::arithmetic::mul::lemma_mul_upper_bound(
                    a as int,
                    u64::MAX as int,
                    m as int,
                    u64::MAX as int,
                );
            }
            let prod: u128 = a * m;
            let b: u128 = prod / (self.rate_interval as u128);
            if b > u64::MAX as u128 {
                u64::MAX
            } else {
                b as u64
            }
        }
    }
}

} // verus!
