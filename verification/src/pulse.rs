//! The client's sense of time: the local clock, the server-time estimate, and when
//! each call in flight was sent.
use vstd::prelude::*;

use crate::clock::ClockSync;
use crate::ordmap::OrdMap;
use crate::text::{chars_of, is_at, parse_u64, read_leading};

verus! {

use crate::clock::{drifted, ClockState};
use crate::text::{leading_number, number_within, stands_at};

/// The id after this one; ids stop at the last one there is.
pub open spec fn id_after(id: u32) -> u32 {
    if id < u32::MAX {
        (id + 1) as u32
    } else {
        id
    }
}

/// A product of two times, at most the greatest number there is.
pub open spec fn times(a: u64, b: u64) -> u64 {
    if a * b <= u64::MAX {
        (a * b) as u64
    } else {
        u64::MAX
    }
}

/// Milliseconds as microseconds.
pub fn thousand_times(ms: u64) -> (us: u64)
    ensures
        us == times(ms, 1000),
{
    if ms <= 18446744073709551 {
        ms * 1000
    } else {
        0xFFFF_FFFF_FFFF_FFFF
    }
}

/// What a drift rejection says: whether the client was ahead, and by how many
/// milliseconds.
pub open spec fn drift_report(error: Seq<char>) -> Option<(bool, u64)> {
    let head = "time_drift:client_"@;
    let ahead = "ahead_by="@;
    let behind = "behind_by="@;
    if !stands_at(error, head, 0) {
        None
    } else if stands_at(error, ahead, head.len() as int) {
        Some((true, leading_number(error.skip((head.len() + ahead.len()) as int))))
    } else if stands_at(error, behind, head.len() as int) {
        Some((false, leading_number(error.skip((head.len() + behind.len()) as int))))
    } else {
        None
    }
}

/// Read a drift rejection.
pub fn read_drift(error: &str) -> (r: Option<(bool, u64)>)
    ensures
        r == drift_report(error@),
{
    let chars = chars_of(error);
    let head = chars_of("time_drift:client_");
    let ahead = chars_of("ahead_by=");
    let behind = chars_of("behind_by=");
    let len: usize = chars.len();
    if !is_at(&chars, &head, 0) {
        return None;
    }
    if is_at(&chars, &ahead, head.len()) {
        assert(head@.len() + ahead@.len() <= len);
        Some((true, read_leading(&chars, head.len() + ahead.len())))
    } else if is_at(&chars, &behind, head.len()) {
        assert(head@.len() + behind@.len() <= len);
        Some((false, read_leading(&chars, head.len() + behind.len())))
    } else {
        None
    }
}

/// Clock state, the driver's local time, and the calls in flight.
pub struct Pulse {
    clock: ClockSync,
    perf_us: u64,
    clock_ms: u64,
    next_cid: u32,
    inflight: OrdMap<(u64, u64)>,
}

/// The sense of time, as values.
#[verifier::ext_equal]
pub ghost struct PulseState {
    pub clock: ClockState,
    /// The local time the driver last supplied.
    pub perf: u64,
    /// The cached server-time estimate.
    pub ms: u64,
    /// The id the next call gets.
    pub next_cid: u32,
    /// Local time and estimate at which each call in flight was sent.
    pub sent: Map<u64, (u64, u64)>,
}

impl PulseState {
    /// The state with a call id minted.
    pub open spec fn minted(self) -> PulseState {
        PulseState {
            next_cid: id_after(self.next_cid),
            sent: self.sent.insert(self.next_cid as u64, (self.perf, self.ms)),
            ..self
        }
    }

    /// The state with the ids up to `next` minted.
    pub open spec fn minted_to(self, next: u32) -> PulseState {
        PulseState {
            next_cid: next,
            sent: sent_range(self.sent, self.next_cid, next, (self.perf, self.ms)),
            ..self
        }
    }

    /// What was recorded when a call was sent; the present if nothing was.
    pub open spec fn send_instant(self, cid: u32) -> (u64, u64) {
        if self.sent.dom().contains(cid as u64) {
            self.sent[cid as u64]
        } else {
            (self.perf, self.ms)
        }
    }

    /// The state after a server time in decimal microseconds.
    pub open spec fn sampled(self, server_micros: Seq<char>) -> PulseState {
        match number_within(server_micros, u64::MAX as nat) {
            Some(us) => {
                let clock = self.clock.sampled(us as u64, self.perf);
                PulseState { clock, ms: clock.now_ms(self.perf), ..self }
            },
            None => self,
        }
    }

    /// The state after the local clock advanced.
    pub open spec fn ticked(self, perf_us: u64) -> PulseState {
        PulseState {
            perf: perf_us,
            ms: if self.clock.captures.len() > 0 {
                self.clock.now_ms(perf_us)
            } else {
                self.ms
            },
            ..self
        }
    }

    /// The state after a call was rejected: for clock drift, the clock is re-seated on
    /// the moment halfway between its sending and now.
    pub open spec fn drifted(self, cid: u32, error: Seq<char>) -> PulseState {
        match drift_report(error) {
            Some((ahead, gap_ms)) => {
                let (send_perf, send_ms) = self.send_instant(cid);
                let clock = self.clock.reseated(
                    drifted(ahead, gap_ms * 1000, send_ms * 1000, send_perf + self.perf),
                );
                PulseState { clock, ms: clock.now_ms(self.perf), ..self }
            },
            None => self,
        }
    }

    /// The state after a call was answered.
    pub open spec fn answered(self, cid: u32) -> PulseState {
        PulseState { sent: self.sent.remove(cid as u64), ..self }
    }
}

impl View for Pulse {
    type V = PulseState;

    closed spec fn view(&self) -> PulseState {
        PulseState {
            clock: self.clock@,
            perf: self.perf_us,
            ms: self.clock_ms,
            next_cid: self.next_cid,
            sent: self.inflight@,
        }
    }
}

impl Pulse {
    pub closed spec fn wf(&self) -> bool {
        self.clock.wf() && self.inflight.wf()
    }

    pub fn new() -> (p: Self)
        ensures
            p.wf(),
            p@ == (PulseState {
                clock: ClockState::fresh(),
                perf: 0,
                ms: 0,
                next_cid: 1,
                sent: Map::empty(),
            }),
    {
        Pulse {
            clock: ClockSync::new(),
            perf_us: 0,
            clock_ms: 0,
            next_cid: 1,
            inflight: OrdMap::new(),
        }
    }

    pub fn clock_ms(&self) -> (ms: u64)
        ensures
            ms == self@.ms,
    {
        self.clock_ms
    }

    pub fn perf_us(&self) -> (us: u64)
        ensures
            us == self@.perf,
    {
        self.perf_us
    }

    pub fn cid_limit(&self) -> (cid: u32)
        ensures
            cid == self@.next_cid,
    {
        self.next_cid
    }

    /// Set the server-time estimate, as a replayed session does.
    pub fn set_clock_ms(&mut self, ms: u64)
        requires
            old(self).wf(),
        ensures
            final(self).wf(),
            final(self)@ == (PulseState { ms, ..old(self)@ }),
    {
        self.clock_ms = ms;
    }

    /// Mint a call id, and remember when.
    pub fn cid(&mut self) -> (cid: u32)
        requires
            old(self).wf(),
        ensures
            final(self).wf(),
            cid == old(self)@.next_cid,
            final(self)@ == old(self)@.minted(),
    {
        let c: u32 = self.next_cid;
        if c < 0xFFFF_FFFF {
            self.next_cid = c + 1;
        }
        self.inflight.insert(c as u64, (self.perf_us, self.clock_ms));
        c
    }

    /// Take over ids that were minted elsewhere, up to `next`.
    pub fn skip_cids(&mut self, next: u32)
        requires
            old(self).wf(),
            old(self)@.next_cid <= next,
        ensures
            final(self).wf(),
            final(self)@ == old(self)@.minted_to(next),
    {
        let ghost o = *self;
        let at: (u64, u64) = (self.perf_us, self.clock_ms);
        let mut c: u32 = self.next_cid;
        while c < next
            invariant
                self.wf(),
                o.next_cid <= c <= next,
                self.clock == o.clock,
                self.perf_us == o.perf_us,
                self.clock_ms == o.clock_ms,
                at == (o.perf_us, o.clock_ms),
                self.inflight@ == sent_range(o.inflight@, o.next_cid, c, at),
            decreases next - c,
        {
            self.inflight.insert(c as u64, at);
            c = c + 1;
        }
        self.next_cid = next;
    }

    /// A call was answered.
    pub fn answered(&mut self, cid: u32)
        requires
            old(self).wf(),
        ensures
            final(self).wf(),
            final(self)@ == old(self)@.answered(cid),
    {
        self.inflight.remove(cid as u64);
    }

    /// Take in a server time in decimal microseconds; the new estimate, or nothing
    /// if the text is no number.
    pub fn sample(&mut self, server_micros: &str) -> (ms: Option<u64>)
        requires
            old(self).wf(),
        ensures
            final(self).wf(),
            final(self)@ == old(self)@.sampled(server_micros@),
            ms == if number_within(server_micros@, u64::MAX as nat) is Some {
                Some(final(self)@.ms)
            } else {
                None
            },
    {
        let chars = chars_of(server_micros);
        match parse_u64(&chars) {
            Some(us) => {
                self.clock.note_sample(us, self.perf_us);
                self.clock_ms = self.clock.server_now_ms(self.perf_us);
                Some(self.clock_ms)
            },
            None => None,
        }
    }

    /// The local clock advanced: refresh the estimate, once there is one.
    pub fn tick(&mut self, perf_us: u64)
        requires
            old(self).wf(),
        ensures
            final(self).wf(),
            final(self)@ == old(self)@.ticked(perf_us),
    {
        self.perf_us = perf_us;
        if self.clock.is_synced() {
            self.clock_ms = self.clock.server_now_ms(perf_us);
        }
    }

    /// A call was rejected for clock drift: re-seat the clock on the moment halfway
    /// between its sending and now. Any other error changes nothing.
    pub fn note_drift(&mut self, cid: u32, error: &str)
        requires
            old(self).wf(),
        ensures
            final(self).wf(),
            final(self)@ == old(self)@.drifted(cid, error@),
    {
        if let Some((ahead, gap_ms)) = read_drift(error) {
            let (send_perf, send_ms): (u64, u64) = match self.inflight.get(cid as u64) {
                Some(p) => *p,
                None => (self.perf_us, self.clock_ms),
            };
            self.clock.correct_between(ahead, gap_ms, send_ms, send_perf, self.perf_us);
            self.clock_ms = self.clock.server_now_ms(self.perf_us);
        }
    }
}

/// The send instants with the ids of a range added.
pub open spec fn sent_range(
    sent: Map<u64, (u64, u64)>,
    from: u32,
    to: u32,
    at: (u64, u64),
) -> Map<u64, (u64, u64)>
    decreases to - from,
{
    if to <= from {
        sent
    } else {
        sent_range(sent, from, (to - 1) as u32, at).insert((to - 1) as u64, at)
    }
}

} // verus!
