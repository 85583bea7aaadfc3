//! The delay-based congestion controller: base-delay history, filtered
//! current delay, smoothed round-trip time, congestion window, and
//! congestion timeout.

use vstd::prelude::*;

use crate::socket::{
    DelayDifferenceSample, DelaySample, UtpSocket, ALLOWED_INCREASE, BASE_HISTORY,
    MAX_CONGESTION_TIMEOUT, MIN_CONGESTION_TIMEOUT, MIN_CWND, MSS, TARGET,
};

verus! {

/// One minute in microseconds: the width of a base-delay slot.
pub const MINUTE_MICROSECONDS: i64 = 60_000_000;

/// Truncating division (rounding toward zero), as machine division does it.
pub open spec fn trunc_div(a: int, d: int) -> int {
    if a >= 0 {
        a / d
    } else {
        -((-a) / d)
    }
}

/// Absolute value.
pub open spec fn abs_int(a: int) -> int {
    if a >= 0 {
        a
    } else {
        -a
    }
}

/// The one-way-delay sample a base-delay slot stores.
pub open spec fn slot_delay(s: DelaySample) -> int {
    s.received_at - s.sent_at
}

/// Exponentially weighted moving average of the delay differences with
/// smoothing factor 0.333, folded oldest to newest in thousandths.
pub open spec fn ewma_diffs(w: Seq<DelayDifferenceSample>) -> int
    decreases w.len(),
{
    if w.len() == 0 {
        0
    } else {
        (333 * w.last().difference + 667 * ewma_diffs(w.drop_last())) / 1000
    }
}

/// The base delay: the sample whose absolute value is minimal, scanning the
/// most recent slot first and keeping it on ties; 0 without samples.
pub open spec fn min_base(w: Seq<DelaySample>) -> int
    decreases w.len(),
{
    if w.len() == 0 {
        0
    } else if w.len() == 1 {
        slot_delay(w[0])
    } else {
        let b = min_base(w.drop_last());
        let x = slot_delay(w.last());
        if abs_int(x) < abs_int(b) {
            x
        } else {
            b
        }
    }
}

/// How many leading current-delay samples are older than the cutoff.
pub open spec fn evict_count(w: Seq<DelayDifferenceSample>, now: int, cutoff: int) -> int
    decreases w.len(),
{
    if w.len() > 0 && now - w[0].received_at > cutoff {
        1 + evict_count(w.drop_first(), now, cutoff)
    } else {
        0
    }
}

/// The base-delay history after one sample: a fresh front slot once the
/// current one is older than a minute (the oldest of ten leaving), else the
/// current slot lowered to the smaller sample.
pub open spec fn base_delays_after(w: Seq<DelaySample>, v: int, now: int) -> Seq<DelaySample> {
    let entry = DelaySample { received_at: now as i64, sent_at: v as i64 };
    if w.len() == 0 || now - w[0].received_at > MINUTE_MICROSECONDS {
        if w.len() == BASE_HISTORY {
            seq![entry] + w.drop_last()
        } else {
            seq![entry] + w
        }
    } else if v < w[0].sent_at {
        w.update(0, entry)
    } else {
        w
    }
}

/// The current-delay list after one sample: stale samples evicted from the
/// front, the new one appended.
pub open spec fn current_delays_after(
    w: Seq<DelayDifferenceSample>,
    v: int,
    now: int,
    rtt: int,
) -> Seq<DelayDifferenceSample> {
    w.skip(evict_count(w, now, rtt * 100)).push(
        DelayDifferenceSample { received_at: now as i64, difference: v as i64 },
    )
}

/// The congestion window after one update: unchanged when the increment
/// would leave the 32-bit range, else clamped to the bytes in flight plus
/// one segment and floored at two segments.
pub open spec fn cwnd_after(cwnd: u32, curr_window: u32, qd: int, bytes: u32) -> int {
    let d = UtpSocket::cwnd_delta(qd, bytes, cwnd);
    if cwnd + d > u32::MAX {
        cwnd as int
    } else {
        let capped = if cwnd <= curr_window + ALLOWED_INCREASE * MSS {
            cwnd as int
        } else {
            curr_window + ALLOWED_INCREASE * MSS
        };
        if capped >= MIN_CWND * MSS {
            capped
        } else {
            MIN_CWND * MSS as int
        }
    }
}

/// The round-trip variance after one delay sample.
pub open spec fn rtt_var_after(rtt: int, rtt_variance: int, cd: int) -> int {
    rtt_variance + trunc_div(abs_int(rtt - cd) - rtt_variance, 4)
}

/// The smoothed round-trip time after one delay sample.
pub open spec fn rtt_after(rtt: int, cd: int) -> int {
    rtt + trunc_div(cd - rtt, 8)
}

/// The congestion timeout the updated round-trip state yields: the smoothed
/// round-trip time plus four variances, clamped to the allowed range.
pub open spec fn timeout_after(rtt: int, rtt_variance: int) -> int {
    let s = rtt + 4 * rtt_variance;
    if s < MIN_CONGESTION_TIMEOUT {
        MIN_CONGESTION_TIMEOUT as int
    } else if s > MAX_CONGESTION_TIMEOUT {
        MAX_CONGESTION_TIMEOUT as int
    } else {
        s
    }
}

/// The ewma of samples within clock range stays within clock range.
pub proof fn lemma_ewma_bounds(w: Seq<DelayDifferenceSample>)
    requires
        forall|i: int| 0 <= i < w.len() ==> 0 <= #[trigger] w[i].difference <= u32::MAX,
    ensures
        0 <= ewma_diffs(w) <= u32::MAX,
    decreases w.len(),
{
    if w.len() > 0 {
        assert(forall|i: int|
            0 <= i < w.drop_last().len() ==> 0 <= #[trigger] w.drop_last()[i].difference
                <= u32::MAX);
        lemma_ewma_bounds(w.drop_last());
        let x = w.last().difference;
        let e = ewma_diffs(w.drop_last());
        assert(0 <= 333 * x + 667 * e <= 1000 * u32::MAX) by (nonlinear_arith)
            requires
                0 <= x <= u32::MAX,
                0 <= e <= u32::MAX,
        ;
        assert(0 <= (333 * x + 667 * e) / 1000 <= u32::MAX) by (nonlinear_arith)
            requires
                0 <= 333 * x + 667 * e <= 1000 * u32::MAX,
        ;
    }
}

/// The base delay of samples within clock range stays within clock range.
pub proof fn lemma_min_base_bounds(w: Seq<DelaySample>)
    requires
        forall|i: int| 0 <= i < w.len() ==> 0 <= #[trigger] w[i].received_at <= u32::MAX,
        forall|i: int| 0 <= i < w.len() ==> 0 <= #[trigger] w[i].sent_at <= u32::MAX,
    ensures
        -(u32::MAX as int) <= min_base(w) <= u32::MAX,
    decreases w.len(),
{
    if w.len() > 1 {
        assert(forall|i: int|
            0 <= i < w.drop_last().len() ==> 0 <= #[trigger] w.drop_last()[i].received_at
                <= u32::MAX);
        assert(forall|i: int|
            0 <= i < w.drop_last().len() ==> 0 <= #[trigger] w.drop_last()[i].sent_at
                <= u32::MAX);
        lemma_min_base_bounds(w.drop_last());
    }
}

/// Truncating division by a positive constant, rounding toward zero as
/// machine division does.
fn div_trunc_i32(a: i32, d: u32) -> (r: i32)
    requires
        d > 0,
        a > i32::MIN,
    ensures
        r == trunc_div(a as int, d as int),
{
    if a >= 0 {
        ((a as u64) / (d as u64)) as i32
    } else {
        let m: u64 = ((-a) as u64) / (d as u64);
        assert(m <= (-a) as u64) by (nonlinear_arith)
            requires
                m == ((-a) as u64) / (d as u64),
                d >= 1,
        ;
        -(m as i32)
    }
}

/// Bounded factors give a bounded product.
proof fn lemma_mul_le(x: int, y: int, a: int, b: int)
    requires
        0 <= x <= a,
        0 <= y <= b,
    ensures
        0 <= x * y <= a * b,
{
    assert(0 <= x * y <= a * b) by (nonlinear_arith)
        requires
            0 <= x <= a,
            0 <= y <= b,
    ;
}

impl UtpSocket {
    /// Feeds one base-delay sample: the peer's send clock `v` against the
    /// local receive clock `now`. Opens a new one-minute slot in front when
    /// the current one is older than a minute (evicting the oldest slot of
    /// ten), else lowers the current slot to the smaller sample.
    pub fn update_base_delay(&mut self, v: i64, now: i64)
        requires
            old(self).wf(),
            0 <= v <= u32::MAX,
            0 <= now <= u32::MAX,
        ensures
            final(self).wf(),
            final(self).base_delays@ == base_delays_after(
                old(self).base_delays@,
                v as int,
                now as int,
            ),
            *final(self) == (UtpSocket { base_delays: final(self).base_delays, ..*old(self) }),
    {
        if self.base_delays.len() == 0 || now - self.base_delays[0].received_at
            > MINUTE_MICROSECONDS {
            if self.base_delays.len() == BASE_HISTORY {
                self.base_delays.pop();
                assert(self.base_delays@ =~= old(self).base_delays@.drop_last());
            }
            self.base_delays.insert(0, DelaySample { received_at: now, sent_at: v });
            assert(self.base_delays@ =~= seq![
                DelaySample { received_at: now, sent_at: v },
            ] + if old(self).base_delays@.len() == BASE_HISTORY {
                old(self).base_delays@.drop_last()
            } else {
                old(self).base_delays@
            });
        } else {
            if v < self.base_delays[0].sent_at {
                self.base_delays.set(0, DelaySample { received_at: now, sent_at: v });
            }
        }
    }

    /// Feeds one current-delay sample `v` at local clock `now`, after
    /// evicting samples older than a hundred smoothed round-trip times.
    #[verifier::loop_isolation(false)]
    pub fn update_current_delay(&mut self, v: i64, now: i64)
        requires
            old(self).wf(),
            0 <= v <= u32::MAX,
            0 <= now <= u32::MAX,
        ensures
            final(self).wf(),
            final(self).current_delays@ == current_delays_after(
                old(self).current_delays@,
                v as int,
                now as int,
                old(self).rtt as int,
            ),
            *final(self) == (UtpSocket {
                current_delays: final(self).current_delays,
                ..*old(self)
            }),
    {
        let cutoff: i64 = (self.rtt as i64) * 100;
        let ghost w0 = self.current_delays@;
        let ghost total = evict_count(w0, now as int, cutoff as int);
        let ghost mut k: int = 0;
        while self.current_delays.len() > 0 && now - self.current_delays[0].received_at > cutoff
            invariant
                self.wf(),
                0 <= k <= w0.len(),
                self.current_delays@ == w0.skip(k),
                total == k + evict_count(self.current_delays@, now as int, cutoff as int),
                *self == (UtpSocket { current_delays: self.current_delays, ..*old(self) }),
            decreases self.current_delays@.len(),
        {
            self.current_delays.remove(0);
            proof {
                k = k + 1;
            }
            assert(self.current_delays@ =~= w0.skip(k));
        }
        self.current_delays.push(DelayDifferenceSample { received_at: now, difference: v });
    }

    /// The filtered current delay: the moving average of the stored delay
    /// differences, smoothing factor 0.333.
    pub fn filtered_current_delay(&self) -> (r: i64)
        requires
            self.wf(),
        ensures
            r == ewma_diffs(self.current_delays@),
            0 <= r <= u32::MAX,
    {
        proof {
            lemma_ewma_bounds(self.current_delays@);
        }
        let mut acc: u64 = 0;
        let mut i: usize = 0;
        while i < self.current_delays.len()
            invariant
                self.wf(),
                i <= self.current_delays@.len(),
                acc == ewma_diffs(self.current_delays@.take(i as int)),
                acc <= u32::MAX,
            decreases self.current_delays@.len() - i,
        {
            proof {
                assert(0 <= self.current_delays@[i as int].difference <= u32::MAX);
                assert(self.current_delays@.take(i + 1).drop_last() =~= self.current_delays@.take(
                    i as int,
                ));
                assert(self.current_delays@.take(i + 1).last() == self.current_delays@[i as int]);
            }
            let d: u64 = self.current_delays[i].difference as u64;
            let sum: u64 = 333 * d + 667 * acc;
            acc = sum / 1000;
            proof {
                assert(acc <= u32::MAX) by (nonlinear_arith)
                    requires
                        acc == sum / 1000,
                        sum <= 1000 * (u32::MAX as u64),
                ;
            }
            i = i + 1;
        }
        proof {
            assert(self.current_delays@.take(i as int) =~= self.current_delays@);
        }
        acc as i64
    }

    /// The minimal base delay on record: local receive clock minus peer send
    /// clock of the slot with the smallest magnitude.
    pub fn min_base_delay(&self) -> (r: i64)
        requires
            self.wf(),
        ensures
            r == min_base(self.base_delays@),
            -(u32::MAX as int) <= r <= u32::MAX,
    {
        proof {
            lemma_min_base_bounds(self.base_delays@);
        }
        let mut best: i64 = 0;
        let mut i: usize = 0;
        while i < self.base_delays.len()
            invariant
                self.wf(),
                i <= self.base_delays@.len(),
                best == min_base(self.base_delays@.take(i as int)),
                -(u32::MAX as int) <= best <= u32::MAX,
            decreases self.base_delays@.len() - i,
        {
            proof {
                assert(self.base_delays@.take(i + 1).drop_last() =~= self.base_delays@.take(
                    i as int,
                ));
                assert(self.base_delays@.take(i + 1).last() == self.base_delays@[i as int]);
            }
            let x: i64 = self.base_delays[i].received_at - self.base_delays[i].sent_at;
            let xa: i64 = if x >= 0 {
                x
            } else {
                -x
            };
            let ba: i64 = if best >= 0 {
                best
            } else {
                -best
            };
            if i == 0 || xa < ba {
                best = x;
            }
            i = i + 1;
        }
        proof {
            assert(self.base_delays@.take(i as int) =~= self.base_delays@);
        }
        best
    }

    /// The queuing delay: filtered current delay minus the magnitude of the
    /// minimal base delay, the control signal of the delay-based controller.
    pub fn queuing_delay(&self) -> (r: i64)
        requires
            self.wf(),
        ensures
            r == ewma_diffs(self.current_delays@) - abs_int(min_base(self.base_delays@)),
            -(u32::MAX as int) <= r <= u32::MAX,
    {
        let filtered = self.filtered_current_delay();
        let m = self.min_base_delay();
        let ma: i64 = if m >= 0 {
            m
        } else {
            -m
        };
        filtered - ma
    }

    /// The congestion-window increment the controller computes from the
    /// queuing delay: zero at or above the target delay, else the scaled
    /// off-target share of the newly acknowledged bytes.
    pub open spec fn cwnd_delta(qd: int, bytes: u32, cwnd: u32) -> int {
        if qd >= TARGET {
            0
        } else {
            ((TARGET - qd) * bytes * MSS) / (TARGET * cwnd)
        }
    }

    /// Applies the congestion-window update for queuing delay `qd` and
    /// `bytes_newly_acked` acknowledged bytes: when the increment would push
    /// the window past its 32-bit range the update is skipped; otherwise the
    /// window is clamped to at most the bytes in flight plus one segment and
    /// to at least the window floor.
    pub fn update_congestion_window(&mut self, qd: i64, bytes_newly_acked: u32)
        requires
            old(self).wf(),
            -(u32::MAX as int) <= qd <= u32::MAX,
        ensures
            final(self).wf(),
            final(self).cwnd == cwnd_after(
                old(self).cwnd,
                old(self).curr_window,
                qd as int,
                bytes_newly_acked,
            ),
            *final(self) == (UtpSocket { cwnd: final(self).cwnd, ..*old(self) }),
    {
        let ghost d_spec = Self::cwnd_delta(qd as int, bytes_newly_acked, self.cwnd);
        let delta: u32 = if qd >= TARGET {
            0
        } else {
            let tq: i64 = TARGET - qd;
            let tqu: u128 = tq as u128;
            let byu: u128 = bytes_newly_acked as u128;
            proof {
                lemma_mul_le(tqu as int, byu as int, 0x2_0000_0000, 0xFFFF_FFFF);
            }
            let ab: u128 = tqu * byu;
            proof {
                lemma_mul_le(ab as int, MSS as int, 0x2_0000_0000int * 0xFFFF_FFFFint, MSS as int);
            }
            let num: u128 = ab * (MSS as u128);
            proof {
                lemma_mul_le(TARGET as int, self.cwnd as int, TARGET as int, 0xFFFF_FFFF);
            }
            let den: u128 = (TARGET as u128) * (self.cwnd as u128);
            proof {
                assert(den >= 1) by (nonlinear_arith)
                    requires
                        den == (TARGET as int) * (self.cwnd as int),
                        self.cwnd >= 1,
                ;
            }
            let dq: u128 = num / den;
            proof {
                assert(num == (TARGET - qd) * bytes_newly_acked * MSS) by (nonlinear_arith)
                    requires
                        ab == tqu * byu,
                        num == ab * (MSS as int),
                        tqu == TARGET - qd,
                        byu == bytes_newly_acked,
                ;
                assert(dq == d_spec);
            }
            if dq > u32::MAX as u128 {
                u32::MAX
            } else {
                dq as u32
            }
        };
        proof {
            assert((self.cwnd + delta > u32::MAX) == (self.cwnd + d_spec > u32::MAX));
            assert(delta <= d_spec);
        }
        match self.cwnd.checked_add(delta) {
            Some(_) => {
                let max_allowed_cwnd: u64 = self.curr_window as u64 + (ALLOWED_INCREASE * MSS) as u64;
                let capped: u32 = if (self.cwnd as u64) <= max_allowed_cwnd {
                    self.cwnd
                } else {
                    max_allowed_cwnd as u32
                };
                self.cwnd = if capped >= MIN_CWND * MSS {
                    capped
                } else {
                    MIN_CWND * MSS
                };
            },
            None => {},
        }
    }

    /// Applies the round-trip-time and timeout update for one delay sample
    /// `current_delay` (milliseconds): variance moves a quarter of the way
    /// toward the new deviation, the smoothed round-trip time an eighth of
    /// the way toward the sample, and the timeout is the smoothed time plus
    /// four variances, clamped to the allowed range.
    pub fn update_congestion_timeout(&mut self, current_delay: i32)
        requires
            old(self).wf(),
            -1_000_000 <= current_delay <= 1_000_000,
        ensures
            final(self).wf(),
            final(self).rtt_variance == rtt_var_after(
                old(self).rtt as int,
                old(self).rtt_variance as int,
                current_delay as int,
            ),
            final(self).rtt == rtt_after(old(self).rtt as int, current_delay as int),
            final(self).congestion_timeout == timeout_after(
                final(self).rtt as int,
                final(self).rtt_variance as int,
            ),
            MIN_CONGESTION_TIMEOUT <= final(self).congestion_timeout <= MAX_CONGESTION_TIMEOUT,
            *final(self) == (UtpSocket {
                rtt: final(self).rtt,
                rtt_variance: final(self).rtt_variance,
                congestion_timeout: final(self).congestion_timeout,
                ..*old(self)
            }),
    {
        let delta: i32 = self.rtt - current_delay;
        let da: i32 = if delta >= 0 {
            delta
        } else {
            -delta
        };
        self.rtt_variance = self.rtt_variance + div_trunc_i32(da - self.rtt_variance, 4);
        self.rtt = self.rtt + div_trunc_i32(current_delay - self.rtt, 8);
        let s: i32 = self.rtt + self.rtt_variance * 4;
        self.congestion_timeout = if s < MIN_CONGESTION_TIMEOUT as i32 {
            MIN_CONGESTION_TIMEOUT
        } else if s > MAX_CONGESTION_TIMEOUT as i32 {
            MAX_CONGESTION_TIMEOUT
        } else {
            s as u64
        };
    }
}


/// The congestion window never falls under the two-segment floor: an update
/// either clamps it to at least `MIN_CWND * MSS` or, when the increment
/// would overflow, leaves it untouched.
pub proof fn lemma_cwnd_floor(cwnd: u32, curr_window: u32, qd: int, bytes: u32)
    ensures
        cwnd_after(cwnd, curr_window, qd, bytes) >= MIN_CWND * MSS || cwnd_after(
            cwnd,
            curr_window,
            qd,
            bytes,
        ) == cwnd,
{
}

/// The congestion timeout always lands within its clamp.
pub proof fn lemma_timeout_clamped(rtt: int, rtt_variance: int)
    ensures
        MIN_CONGESTION_TIMEOUT <= timeout_after(rtt, rtt_variance) <= MAX_CONGESTION_TIMEOUT,
{
}

} // verus!
