//! Server-time tracking with an adaptive backward buffer.
//!
//! The estimate tracks the server's clock despite jitter and runs deliberately
//! behind it by `client_delay`. Server times arrive as samples; between samples the
//! estimate is extrapolated with a local monotonic clock that the driver supplies.
//!
//! Times come in as whole microseconds. Inside they are counted in grains, of which a
//! microsecond has 2^32, so that the many halvings of the feedback lose less than one
//! grain each: far less than a double-precision number of milliseconds keeps of a time of
//! day.
use vstd::prelude::*;

verus! {

/// How many samples are remembered.
pub const SAMPLE_WINDOW: usize = 16;

/// How many grains a microsecond has.
pub const GRAINS: i128 = 0x1_0000_0000;

/// How many grains half a microsecond has.
pub const HALF_GRAINS: i128 = 0x8000_0000;

/// How many grains a millisecond has.
pub const MS_GRAINS: i128 = 0x3E8_0000_0000;

/// A sample this far behind the extrapolation is stale and dropped.
pub const STALE_SAMPLE_US: i128 = 6_000_000;

pub const RUNNING_DELAY_INIT_US: i128 = 1_500_000;

pub const CLIENT_DELAY_INIT_US: i128 = 3_000_000;

pub const CLIENT_DELAY_MIN_US: i128 = 1_500_000;

pub const CLIENT_DELAY_MAX_US: i128 = 5_000_000;

/// A server time paired with the local time at which it held, both in grains.
#[derive(Debug, Clone, Copy, PartialEq, Eq, Structural)]
pub struct Capture {
    pub server: i128,
    pub perf: i128,
}

/// A capture at whole microseconds.
pub open spec fn capture_at(server_us: u64, perf_us: u64) -> Capture {
    Capture { server: (server_us * GRAINS) as i128, perf: (perf_us * GRAINS) as i128 }
}

/// How far the server clock is ahead of the local one in a capture.
pub open spec fn offset_of(c: Capture) -> int {
    c.server - c.perf
}

/// The greatest offset among captures: that of the freshest, least queued one.
pub open spec fn best_offset(captures: Seq<Capture>) -> int
    decreases captures.len(),
{
    if captures.len() <= 1 {
        offset_of(captures[0])
    } else {
        let rest = best_offset(captures.drop_last());
        if offset_of(captures.last()) >= rest {
            offset_of(captures.last())
        } else {
            rest
        }
    }
}

/// Half of a number, rounded toward zero.
pub open spec fn half(x: int) -> int {
    if x >= 0 {
        x / 2
    } else {
        -((-x) / 2)
    }
}

pub open spec fn magnitude(x: int) -> int {
    if x >= 0 {
        x
    } else {
        -x
    }
}

/// Twice the tracked jitter, within the bounds of the delay.
pub open spec fn delay_for(running_delay: int) -> int {
    if 2 * running_delay < CLIENT_DELAY_MIN_US * GRAINS {
        CLIENT_DELAY_MIN_US * GRAINS
    } else if 2 * running_delay > CLIENT_DELAY_MAX_US * GRAINS {
        CLIENT_DELAY_MAX_US * GRAINS
    } else {
        2 * running_delay
    }
}

/// The state of a clock, in grains.
pub ghost struct ClockState {
    pub captures: Seq<Capture>,
    /// Offset correction, creeping toward the truth.
    pub running_delta: int,
    /// Tracked jitter: grows fast on a spike.
    pub running_delay: int,
    /// How far the estimate runs behind.
    pub client_delay: int,
}

impl ClockState {
    /// A clock that has seen no sample.
    pub open spec fn fresh() -> ClockState {
        ClockState {
            captures: Seq::empty(),
            running_delta: 0,
            running_delay: RUNNING_DELAY_INIT_US * GRAINS,
            client_delay: CLIENT_DELAY_INIT_US * GRAINS,
        }
    }

    /// The server time extrapolated to a local time.
    pub open spec fn extrapolation(self, perf_us: u64) -> int {
        best_offset(self.captures) + perf_us * GRAINS
    }

    /// How far off a sample finds the prediction.
    pub open spec fn error(self, server_us: int, perf_us: u64) -> int {
        self.extrapolation(perf_us) + self.running_delta - server_us * GRAINS
    }

    /// The sample lies too far behind what is known already.
    pub open spec fn is_stale(self, server_us: int, perf_us: u64) -> bool {
        self.captures.len() > 0 && self.extrapolation(perf_us) - server_us * GRAINS > STALE_SAMPLE_US
            * GRAINS
    }

    /// The error is a spike: more than half the tracked jitter.
    pub open spec fn is_spike(self, server_us: int, perf_us: u64) -> bool {
        2 * magnitude(self.error(server_us, perf_us)) > self.running_delay
    }

    /// The clock after adapting to a sample, without recording it.
    pub open spec fn adapted(self, server_us: int, perf_us: u64) -> ClockState {
        if self.captures.len() == 0 {
            self
        } else if self.is_spike(server_us, perf_us) {
            let delay = self.running_delay + half(
                magnitude(self.error(server_us, perf_us)) - self.running_delay,
            );
            ClockState { running_delay: delay, client_delay: delay_for(delay), ..self }
        } else {
            ClockState {
                running_delta: self.running_delta - half(self.error(server_us, perf_us)),
                ..self
            }
        }
    }

    /// The captures with one more, trimmed to the window.
    pub open spec fn recorded(self, c: Capture) -> ClockState {
        let all = self.captures.push(c);
        ClockState {
            captures: if all.len() > SAMPLE_WINDOW {
                all.skip(1)
            } else {
                all
            },
            ..self
        }
    }

    /// The clock after a sample.
    pub open spec fn sampled(self, server_us: u64, perf_us: u64) -> ClockState {
        if self.is_stale(server_us as int, perf_us) {
            self
        } else {
            self.adapted(server_us as int, perf_us).recorded(capture_at(server_us, perf_us))
        }
    }

    /// The clock re-seated on one capture, with the jitter memory kept.
    pub open spec fn reseated(self, c: Capture) -> ClockState {
        ClockState { captures: seq![c], running_delta: 0, ..self }
    }

    /// The estimate, which runs behind the corrected extrapolation by the delay;
    /// zero before the first sample.
    pub open spec fn now(self, perf_us: u64) -> int {
        if self.captures.len() == 0 {
            0
        } else {
            self.extrapolation(perf_us) + self.running_delta - self.client_delay
        }
    }

    /// The estimate in whole milliseconds, never negative.
    pub open spec fn now_ms(self, perf_us: u64) -> u64 {
        let ms = self.now(perf_us) / (MS_GRAINS as int);
        if ms <= 0 {
            0
        } else if ms <= u64::MAX {
            ms as u64
        } else {
            u64::MAX
        }
    }
}

/// No time is further from zero than this, in grains.
const SERVER_LIMIT: i128 = 0x1000_0000_0000_0000_0000_0000_0000;

/// No correction is greater than this, in grains.
const DELTA_LIMIT: i128 = 0x1_0000_0000_0000_0000_0000_0000_0000;

/// Adaptive server-time estimator.
pub struct ClockSync {
    captures: Vec<Capture>,
    running_delta: i128,
    running_delay: i128,
    client_delay: i128,
}

impl View for ClockSync {
    type V = ClockState;

    closed spec fn view(&self) -> ClockState {
        ClockState {
            captures: self.captures@,
            running_delta: self.running_delta as int,
            running_delay: self.running_delay as int,
            client_delay: self.client_delay as int,
        }
    }
}

impl ClockSync {
    pub closed spec fn wf(&self) -> bool {
        &&& self.captures@.len() <= SAMPLE_WINDOW
        &&& forall|i: int|
            0 <= i < self.captures@.len() ==> -SERVER_LIMIT <= (
            #[trigger] self.captures@[i]).server <= SERVER_LIMIT && 0 <= self.captures@[i].perf
                <= SERVER_LIMIT
        &&& -DELTA_LIMIT <= self.running_delta <= DELTA_LIMIT
        &&& 0 <= self.running_delay <= 2 * DELTA_LIMIT
        &&& CLIENT_DELAY_MIN_US * GRAINS <= self.client_delay <= CLIENT_DELAY_MAX_US * GRAINS
    }

    /// The window is bounded, and the delay stays within its bounds.
    pub proof fn law_bounds(&self)
        requires
            self.wf(),
        ensures
            self@.captures.len() <= SAMPLE_WINDOW,
            CLIENT_DELAY_MIN_US * GRAINS <= self@.client_delay <= CLIENT_DELAY_MAX_US * GRAINS,
            self@.running_delay >= 0,
    {
    }

    pub fn new() -> (c: Self)
        ensures
            c.wf(),
            c@ == ClockState::fresh(),
    {
        let c = ClockSync {
            captures: Vec::new(),
            running_delta: 0,
            running_delay: RUNNING_DELAY_INIT_US * GRAINS,
            client_delay: CLIENT_DELAY_INIT_US * GRAINS,
        };
        assert(c@.captures =~= Seq::empty());
        c
    }

    /// The offset of the freshest capture.
    fn anchor(&self) -> (r: Option<i128>)
        requires
            self.wf(),
        ensures
            r is None <==> self.captures@.len() == 0,
            r matches Some(o) ==> o == best_offset(self.captures@) && -2 * SERVER_LIMIT <= o
                <= 2 * SERVER_LIMIT,
    {
        let n: usize = self.captures.len();
        if n == 0 {
            return None;
        }
        let mut best: i128 = self.captures[0].server - self.captures[0].perf;
        let mut i: usize = 1;
        assert(self.captures@.take(1)[0] == self.captures@[0]);
        while i < n
            invariant
                self.wf(),
                1 <= i <= n,
                n == self.captures@.len(),
                best == best_offset(self.captures@.take(i as int)),
                -2 * SERVER_LIMIT <= best <= 2 * SERVER_LIMIT,
            decreases n - i,
        {
            let offset: i128 = self.captures[i].server - self.captures[i].perf;
            proof {
                let next = self.captures@.take(i + 1);
                assert(next.drop_last() =~= self.captures@.take(i as int));
                assert(next.last() == self.captures@[i as int]);
            }
            if offset >= best {
                best = offset;
            }
            i = i + 1;
        }
        assert(self.captures@.take(n as int) =~= self.captures@);
        Some(best)
    }

    /// Take in a server time received at a local time.
    pub fn note_sample(&mut self, server_us: u64, perf_us: u64)
        requires
            old(self).wf(),
        ensures
            final(self).wf(),
            final(self)@ == old(self)@.sampled(server_us, perf_us),
    {
        let ghost o = *self;
        let server: i128 = server_us as i128 * GRAINS;
        let perf: i128 = perf_us as i128 * GRAINS;
        if let Some(offset) = self.anchor() {
            let extrapolation: i128 = offset + perf;
            if extrapolation - server > STALE_SAMPLE_US * GRAINS {
                return ;
            }
            let delta: i128 = extrapolation + self.running_delta - server;
            let size: i128 = if delta >= 0 {
                delta
            } else {
                -delta
            };
            if 2 * size > self.running_delay {
                let gap: i128 = size - self.running_delay;
                let step: i128 = if gap >= 0 {
                    gap / 2
                } else {
                    -((-gap) / 2)
                };
                self.running_delay = self.running_delay + step;
                let doubled: i128 = 2 * self.running_delay;
                self.client_delay = if doubled < CLIENT_DELAY_MIN_US * GRAINS {
                    CLIENT_DELAY_MIN_US * GRAINS
                } else if doubled > CLIENT_DELAY_MAX_US * GRAINS {
                    CLIENT_DELAY_MAX_US * GRAINS
                } else {
                    doubled
                };
            } else {
                let step: i128 = if delta >= 0 {
                    delta / 2
                } else {
                    -((-delta) / 2)
                };
                self.running_delta = self.running_delta - step;
            }
        }
        let ghost mid = *self;
        self.captures.push(Capture { server, perf });
        if self.captures.len() > SAMPLE_WINDOW {
            let ghost all = self.captures@;
            self.captures.remove(0);
            assert(self.captures@ =~= all.skip(1));
        }
        proof {
            assert(mid@.captures =~= o@.captures);
            assert(mid@ == o@.adapted(server_us as int, perf_us));
            assert(capture_at(server_us, perf_us) == (Capture { server, perf }));
            assert(self@.captures =~= mid@.recorded(Capture { server, perf }).captures);
            assert(self@ == mid@.recorded(Capture { server, perf }));
        }
    }

    /// The server-time estimate in grains, running behind by the delay; zero before any
    /// sample.
    pub fn server_now(&self, perf_us: u64) -> (grains: i128)
        requires
            self.wf(),
        ensures
            grains == self@.now(perf_us),
    {
        match self.anchor() {
            Some(offset) => offset + perf_us as i128 * GRAINS + self.running_delta
                - self.client_delay,
            None => 0,
        }
    }

    /// The server-time estimate in whole milliseconds, never negative.
    pub fn server_now_ms(&self, perf_us: u64) -> (ms: u64)
        requires
            self.wf(),
        ensures
            ms == self@.now_ms(perf_us),
    {
        let now: i128 = self.server_now(perf_us);
        if now <= 0 {
            0
        } else {
            let ms: i128 = now / MS_GRAINS;
            if ms <= 0xFFFF_FFFF_FFFF_FFFF {
                ms as u64
            } else {
                0xFFFF_FFFF_FFFF_FFFF
            }
        }
    }

    /// At least one sample has landed.
    pub fn is_synced(&self) -> (b: bool)
        ensures
            b == (self@.captures.len() > 0),
    {
        self.captures.len() > 0
    }

    /// How far the estimate runs behind, in grains.
    pub fn client_delay(&self) -> (grains: i128)
        ensures
            grains == self@.client_delay,
    {
        self.client_delay
    }

    /// Re-seat the clock on one capture.
    fn reseat(&mut self, c: Capture)
        requires
            old(self).wf(),
            -SERVER_LIMIT <= c.server <= SERVER_LIMIT,
            0 <= c.perf <= SERVER_LIMIT,
        ensures
            final(self).wf(),
            final(self)@ == old(self)@.reseated(c),
    {
        let ghost o = *self;
        let mut captures: Vec<Capture> = Vec::new();
        captures.push(c);
        self.captures = captures;
        self.running_delta = 0;
        assert(self@.captures =~= o@.reseated(c).captures);
    }

    /// Re-seat the clock after the server rejected a stamp: `client_time_us`, held against
    /// its clock at `perf_us`, was `gap_us` ahead of it, or behind.
    pub fn correct_from_drift(
        &mut self,
        ahead: bool,
        gap_us: u64,
        client_time_us: u64,
        perf_us: u64,
    )
        requires
            old(self).wf(),
        ensures
            final(self).wf(),
            final(self)@ == old(self)@.reseated(
                drifted(ahead, gap_us as int, client_time_us as int, 2 * perf_us),
            ),
    {
        let server_us: i128 = if ahead {
            client_time_us as i128 - gap_us as i128
        } else {
            client_time_us as i128 + gap_us as i128
        };
        self.reseat(Capture { server: server_us * GRAINS, perf: perf_us as i128 * GRAINS });
    }

    /// Re-seat the clock after the server rejected a stamp of whole milliseconds, which it
    /// is taken to have held against its clock halfway between two local times.
    pub fn correct_between(
        &mut self,
        ahead: bool,
        gap_ms: u64,
        client_time_ms: u64,
        sent_us: u64,
        heard_us: u64,
    )
        requires
            old(self).wf(),
        ensures
            final(self).wf(),
            final(self)@ == old(self)@.reseated(
                drifted(ahead, gap_ms * 1000, client_time_ms * 1000, sent_us + heard_us),
            ),
    {
        let server_ms: i128 = if ahead {
            client_time_ms as i128 - gap_ms as i128
        } else {
            client_time_ms as i128 + gap_ms as i128
        };
        let twice: i128 = sent_us as i128 + heard_us as i128;
        self.reseat(Capture { server: server_ms * MS_GRAINS, perf: twice * HALF_GRAINS });
    }
}

/// What a drift report says of the server's time, at half of `twice_perf_us`.
pub open spec fn drifted(
    ahead: bool,
    gap_us: int,
    client_time_us: int,
    twice_perf_us: int,
) -> Capture {
    Capture {
        server: ((if ahead {
            client_time_us - gap_us
        } else {
            client_time_us + gap_us
        }) * GRAINS) as i128,
        perf: (twice_perf_us * HALF_GRAINS) as i128,
    }
}

/// A stale sample changes nothing.
pub proof fn law_stale_is_dropped(c: ClockState, server_us: u64, perf_us: u64)
    requires
        c.is_stale(server_us as int, perf_us),
    ensures
        c.sampled(server_us, perf_us) == c,
{
}

/// Between samples the estimate advances exactly with the local clock.
pub proof fn law_extrapolates(c: ClockState, a: u64, b: u64)
    requires
        c.captures.len() > 0,
    ensures
        c.now(b) - c.now(a) == (b - a) * GRAINS,
{
}

/// On a steady clock nothing drifts: a sample that says what was predicted leaves
/// the estimate and the delay alone.
pub proof fn law_steady_clock(c: ClockState, server_us: u64, perf_us: u64)
    requires
        c.captures.len() > 0,
        c.running_delay >= 0,
        c.running_delta == 0,
        c.extrapolation(perf_us) == server_us * GRAINS,
    ensures
        c.sampled(server_us, perf_us).client_delay == c.client_delay,
        c.sampled(server_us, perf_us).running_delta == 0,
        c.sampled(server_us, perf_us).running_delay == c.running_delay,
        c.sampled(server_us, perf_us).now(perf_us) == server_us * GRAINS
            - c.client_delay,
{
    let s = c.sampled(server_us, perf_us);
    let all = c.captures.push(capture_at(server_us, perf_us));
    assert(all.drop_last() =~= c.captures);
    assert(best_offset(all) == best_offset(c.captures));
    if all.len() > SAMPLE_WINDOW {
        lemma_tail_keeps_last(all);
    }
}

/// The best offset of a window whose last capture is best survives dropping the
/// first.
proof fn lemma_tail_keeps_last(s: Seq<Capture>)
    requires
        s.len() >= 2,
        offset_of(s.last()) == best_offset(s),
    ensures
        best_offset(s.skip(1)) == best_offset(s),
{
    lemma_bounds(s);
    lemma_bounds(s.skip(1));
    let t = s.skip(1);
    assert(t[t.len() - 1] == s.last());
    let i = choose|i: int| 0 <= i < t.len() && offset_of(#[trigger] t[i]) == best_offset(t);
    assert(t[i] == s[i + 1]);
}

/// The best offset is the greatest one.
pub proof fn lemma_bounds(s: Seq<Capture>)
    requires
        s.len() > 0,
    ensures
        forall|i: int| 0 <= i < s.len() ==> offset_of(#[trigger] s[i]) <= best_offset(s),
        exists|i: int| 0 <= i < s.len() && offset_of(#[trigger] s[i]) == best_offset(s),
    decreases s.len(),
{
    if s.len() > 1 {
        let r = s.drop_last();
        lemma_bounds(r);
        assert forall|i: int| 0 <= i < s.len() implies offset_of(#[trigger] s[i]) <= best_offset(
            s,
        ) by {
            if i < r.len() {
                assert(r[i] == s[i]);
            }
        }
        if offset_of(s.last()) == best_offset(s) {
            assert(s[s.len() - 1] == s.last());
        } else {
            let i = choose|i: int| 0 <= i < r.len() && offset_of(#[trigger] r[i]) == best_offset(r);
            assert(s[i] == r[i]);
        }
    } else {
        assert(offset_of(s[0]) == best_offset(s));
    }
}

/// A spike widens the delay toward twice its size, never beyond the bounds.
pub proof fn law_spike_sets_delay(c: ClockState, server_us: u64, perf_us: u64)
    requires
        c.captures.len() > 0,
        c.running_delay >= 0,
        !c.is_stale(server_us as int, perf_us),
        c.is_spike(server_us as int, perf_us),
    ensures
        CLIENT_DELAY_MIN_US * GRAINS <= c.sampled(server_us, perf_us).client_delay
            <= CLIENT_DELAY_MAX_US * GRAINS,
        c.sampled(server_us, perf_us).client_delay == delay_for(
            c.sampled(server_us, perf_us).running_delay,
        ),
        magnitude(c.error(server_us as int, perf_us)) >= c.running_delay ==> c.sampled(
            server_us,
            perf_us,
        ).running_delay >= c.running_delay,
{
}

/// After a re-seat the estimate is the corrected time less the delay, at once.
pub proof fn law_reseat_takes_effect(
    c: ClockState,
    ahead: bool,
    gap_us: u64,
    client_time_us: u64,
    perf_us: u64,
)
    ensures
        c.reseated(drifted(ahead, gap_us as int, client_time_us as int, 2 * perf_us)).now(perf_us)
            == (if ahead {
            client_time_us - gap_us
        } else {
            client_time_us + gap_us
        }) * GRAINS - c.client_delay,
        c.reseated(
            drifted(ahead, gap_us as int, client_time_us as int, 2 * perf_us),
        ).client_delay == c.client_delay,
{
}

/// A half step is off by less than one grain: doubled, it is the step itself or one short.
pub proof fn law_half_steps_are_fine(x: int)
    ensures
        -1 <= 2 * half(x) - x <= 1,
        magnitude(2 * half(x)) <= magnitude(x),
{
}

/// What the half steps lose does not add up: two clocks whose corrections are at most `k`
/// grains apart are at most half as far apart, and one grain, after the same ordinary sample.
pub proof fn law_rounding_does_not_add_up(
    a: ClockState,
    b: ClockState,
    server_us: u64,
    perf_us: u64,
    k: int,
)
    requires
        a.captures.len() > 0,
        b == (ClockState { running_delta: b.running_delta, ..a }),
        magnitude(a.running_delta - b.running_delta) <= k,
        !a.is_stale(server_us as int, perf_us),
        !a.is_spike(server_us as int, perf_us),
        !b.is_spike(server_us as int, perf_us),
    ensures
        2 * magnitude(
            a.sampled(server_us, perf_us).running_delta - b.sampled(
                server_us,
                perf_us,
            ).running_delta,
        ) <= k + 2,
{
    law_half_steps_are_fine(a.error(server_us as int, perf_us));
    law_half_steps_are_fine(b.error(server_us as int, perf_us));
}

} // verus!
