//! What the clock makes of samples, and what time it tells.
use vstd::prelude::*;

use crate::clock::Capture;

verus! {

use crate::clock::{best_offset, drifted, offset_of, ClockState};
use crate::pulse::{drift_report, sent_range, times, PulseState};
use crate::text::{decimal, law_decimal_round_trips, stands_at};

/// The best offset is that of some capture, and no capture has a greater one.
pub proof fn law_best_offset_is_the_greatest(captures: Seq<Capture>)
    requires
        captures.len() > 0,
    ensures
        forall|i: int|
            0 <= i < captures.len() ==> (#[trigger] captures[i]).server - captures[i].perf
                <= best_offset(captures),
        exists|i: int|
            0 <= i < captures.len() && (#[trigger] captures[i]).server - captures[i].perf
                == best_offset(captures),
    decreases captures.len(),
{
    if captures.len() == 1 {
        assert(captures[0].server - captures[0].perf == best_offset(captures));
    } else {
        let rest = captures.drop_last();
        law_best_offset_is_the_greatest(rest);
        assert(captures[captures.len() - 1] == captures.last());
        assert(forall|i: int| 0 <= i < rest.len() ==> rest[i] == #[trigger] captures[i]);
        let i = choose|i: int|
            0 <= i < rest.len() && (#[trigger] rest[i]).server - rest[i].perf == best_offset(rest);
        assert(captures[i].server - captures[i].perf == best_offset(rest));
        assert(offset_of(captures.last()) == captures.last().server - captures.last().perf);
        if offset_of(captures.last()) >= best_offset(rest) {
            assert(captures[captures.len() - 1].server - captures[captures.len() - 1].perf
                == best_offset(captures));
        }
    }
}

/// Times are kept in parts of a microsecond, of which there are this many to one.
pub open spec fn parts() -> int {
    0x1_0000_0000
}

/// A sample is taken in unless it lies more than six seconds behind what is known. The
/// latest sixteen are kept. An ordinary error moves the correction against it by half; one
/// of more than half the tracked jitter moves the jitter half way to its size instead, and
/// the delay with it to twice that, between one and a half and five seconds. The first
/// sample moves nothing.
pub proof fn law_samples_correct_the_clock(c: ClockState, server_us: u64, perf_us: u64)
    requires
        c.captures.len() <= 16,
    ensures
        ({
            let after = c.sampled(server_us, perf_us);
            let known = best_offset(c.captures) + perf_us * parts();
            let error = known + c.running_delta - server_us * parts();
            let size = if error >= 0 {
                error
            } else {
                -error
            };
            let first = c.captures.len() == 0;
            let stale = !first && known - server_us * parts() > 6_000_000 * parts();
            let spike = !first && 2 * size > c.running_delay;
            &&& stale ==> after == c
            &&& !stale ==> {
                &&& after.captures.len() == (if c.captures.len() < 16 {
                    c.captures.len() + 1
                } else {
                    16
                })
                &&& after.captures.last().server == server_us * parts()
                &&& after.captures.last().perf == perf_us * parts()
                &&& c.captures.len() < 16 ==> after.captures.drop_last() == c.captures
                &&& c.captures.len() == 16 ==> after.captures.drop_last() == c.captures.skip(1)
            }
            &&& first ==> (after.running_delta, after.running_delay, after.client_delay) == (
                c.running_delta,
                c.running_delay,
                c.client_delay,
            )
            &&& !stale && !first && !spike ==> {
                &&& after.running_delay == c.running_delay
                &&& after.client_delay == c.client_delay
                &&& -1 <= 2 * (c.running_delta - after.running_delta) - error <= 1
                &&& error >= 0 ==> 0 <= 2 * (c.running_delta - after.running_delta) <= error
                &&& error <= 0 ==> error <= 2 * (c.running_delta - after.running_delta) <= 0
            }
            &&& !stale && spike ==> {
                &&& after.running_delta == c.running_delta
                &&& -1 <= 2 * (after.running_delay - c.running_delay) - (size - c.running_delay)
                    <= 1
                &&& 2 * after.running_delay < 1_500_000 * parts() ==> after.client_delay
                    == 1_500_000 * parts()
                &&& 2 * after.running_delay > 5_000_000 * parts() ==> after.client_delay
                    == 5_000_000 * parts()
                &&& 1_500_000 * parts() <= 2 * after.running_delay <= 5_000_000 * parts()
                    ==> after.client_delay == 2 * after.running_delay
            }
        }),
{
    let after = c.sampled(server_us, perf_us);
    assert(server_us * parts() <= i128::MAX) by (nonlinear_arith)
        requires
            server_us <= u64::MAX,
            parts() == 0x1_0000_0000,
    ;
    assert(perf_us * parts() <= i128::MAX) by (nonlinear_arith)
        requires
            perf_us <= u64::MAX,
            parts() == 0x1_0000_0000,
    ;
    if !c.is_stale(server_us as int, perf_us) {
        let all = c.captures.push(crate::clock::capture_at(server_us, perf_us));
        if c.captures.len() < 16 {
            assert(after.captures =~= all);
            assert(after.captures.drop_last() =~= c.captures);
        } else {
            assert(after.captures =~= all.skip(1));
            assert(after.captures.drop_last() =~= c.captures.skip(1));
        }
    }
}

/// The clock tells the best known offset added to the local time, corrected, less the
/// delay, in whole milliseconds rounded down; nothing below zero, and zero before the first
/// sample.
pub proof fn law_clock_tells_the_corrected_time(c: ClockState, perf_us: u64)
    ensures
        ({
            let t = best_offset(c.captures) + perf_us * parts() + c.running_delta - c.client_delay;
            let ms = c.now_ms(perf_us);
            &&& c.captures.len() == 0 ==> ms == 0
            &&& c.captures.len() > 0 && t < 1000 * parts() ==> ms == 0
            &&& c.captures.len() > 0 && t >= 0 && t < u64::MAX * parts() ==> ms * (1000 * parts())
                <= t < (ms + 1) * (1000 * parts())
        }),
{
    let t = best_offset(c.captures) + perf_us * parts() + c.running_delta - c.client_delay;
    let d = 1000 * parts();
    if c.captures.len() > 0 {
        assert(c.now(perf_us) == t);
        assert(d == 0x3E8_0000_0000);
        assert(t == (t / d) * d + t % d) by (nonlinear_arith)
            requires
                d == 0x3E8_0000_0000,
        ;
        if t < d {
            assert(t / d <= 0) by (nonlinear_arith)
                requires
                    t < d,
                    d == 0x3E8_0000_0000,
            ;
        }
        if t >= 0 && t < u64::MAX * parts() {
            assert(0 <= t / d <= u64::MAX) by (nonlinear_arith)
                requires
                    0 <= t < u64::MAX * 0x1_0000_0000,
                    d == 0x3E8_0000_0000,
            ;
            let ms = c.now_ms(perf_us) as int;
            assert(ms == t / d);
            assert(ms * d <= t < (ms + 1) * d) by (nonlinear_arith)
                requires
                    ms == t / d,
                    t == (t / d) * d + t % d,
                    0 <= t % d < d,
                    d == 0x3E8_0000_0000,
            ;
        }
    } else {
        assert(c.now(perf_us) == 0);
    }
}

/// A clock that has seen nothing has no captures and no correction, a jitter of one and a
/// half seconds and a delay of three.
pub proof fn law_fresh_clock()
    ensures
        ClockState::fresh().captures.len() == 0,
        ClockState::fresh().running_delta == 0,
        ClockState::fresh().running_delay == 1_500_000 * parts(),
        ClockState::fresh().client_delay == 3_000_000 * parts(),
{
}

/// A rejection that says by how many milliseconds the client was ahead or behind is read
/// as that; any other is none.
pub proof fn law_drift_reports_are_read(gap_ms: nat, rest: Seq<char>)
    requires
        gap_ms <= u64::MAX,
        rest.len() > 0 ==> !('0' <= rest[0] <= '9'),
    ensures
        drift_report("time_drift:client_"@ + "ahead_by="@ + decimal(gap_ms) + rest) == Some(
            (true, gap_ms as u64),
        ),
        drift_report("time_drift:client_"@ + "behind_by="@ + decimal(gap_ms) + rest) == Some(
            (false, gap_ms as u64),
        ),
{
    let head = "time_drift:client_"@;
    let ahead = "ahead_by="@;
    let behind = "behind_by="@;
    let num = decimal(gap_ms);
    let a = head + ahead + num + rest;
    let b = head + behind + num + rest;
    crate::laws::firing::law_leading_number_is_read(gap_ms, rest);
    assert(a.subrange(0, head.len() as int) =~= head);
    assert(b.subrange(0, head.len() as int) =~= head);
    assert(a.subrange(head.len() as int, head.len() + ahead.len() as int) =~= ahead);
    assert(b.subrange(head.len() as int, head.len() + behind.len() as int) =~= behind);
    assert(a.skip((head.len() + ahead.len()) as int) =~= num + rest);
    assert(b.skip((head.len() + behind.len()) as int) =~= num + rest);
    assert(!stands_at(b, ahead, head.len() as int)) by {
        reveal_strlit("ahead_by=");
        reveal_strlit("behind_by=");
        let n = head.len() as int;
        assert(b[n] == behind[0]);
        if stands_at(b, ahead, n) {
            assert(b.subrange(n, n + ahead.len())[0] == ahead[0]);
        }
    }
}

/// A rejection that is no drift report leaves the clock alone.
pub proof fn law_other_rejections_leave_the_clock(p: PulseState, cid: u32, error: Seq<char>)
    requires
        !("time_drift:client_"@.len() <= error.len() && error.take(
            "time_drift:client_"@.len() as int,
        ) == "time_drift:client_"@),
    ensures
        p.drifted(cid, error) == p,
{
    let head = "time_drift:client_"@;
    if stands_at(error, head, 0) {
        assert(error.take(head.len() as int) =~= error.subrange(0, head.len() as int));
    }
}

/// A drift report re-seats the clock: half way between sending and now the server's time was
/// what the client sent, less what it was ahead, or and what it was behind. The jitter and
/// the delay are kept.
pub proof fn law_drift_report_reseats(
    p: PulseState,
    cid: u32,
    ahead: bool,
    gap_ms: u64,
    rest: Seq<char>,
)
    requires
        rest.len() > 0 ==> !('0' <= rest[0] <= '9'),
    ensures
        ({
            let error = "time_drift:client_"@ + (if ahead {
                "ahead_by="@
            } else {
                "behind_by="@
            }) + decimal(gap_ms as nat) + rest;
            let after = p.drifted(cid, error);
            let (sent_us, sent_ms) = if p.sent.dom().contains(cid as u64) {
                p.sent[cid as u64]
            } else {
                (p.perf, p.ms)
            };
            let c = after.clock.captures[0];
            &&& after.clock.captures.len() == 1
            &&& c.server == (if ahead {
                sent_ms * 1000 - gap_ms * 1000
            } else {
                sent_ms * 1000 + gap_ms * 1000
            }) * parts()
            &&& 2 * c.perf == (sent_us + p.perf) * parts()
            &&& after.clock.running_delta == 0
            &&& after.clock.running_delay == p.clock.running_delay
            &&& after.clock.client_delay == p.clock.client_delay
            &&& after.ms == after.clock.now_ms(p.perf)
            &&& (after.perf, after.next_cid, after.sent) == (p.perf, p.next_cid, p.sent)
        }),
{
    law_drift_reports_are_read(gap_ms as nat, rest);
    let (sent_us, sent_ms) = p.send_instant(cid);
    let s: int = if ahead {
        sent_ms * 1000 - gap_ms * 1000
    } else {
        sent_ms * 1000 + gap_ms * 1000
    };
    assert(i128::MIN <= s * parts() <= i128::MAX) by (nonlinear_arith)
        requires
            -0x1_0000_0000_0000_0000 * 2000 <= s <= 0x1_0000_0000_0000_0000 * 2000,
            parts() == 0x1_0000_0000,
    ;
    assert((sent_us + p.perf) * 0x8000_0000 <= i128::MAX) by (nonlinear_arith)
        requires
            0 <= sent_us + p.perf <= 2 * 0x1_0000_0000_0000_0000,
    ;
}

/// A server time in decimal microseconds is a sample at the local time of the step; what is
/// no number changes nothing.
pub proof fn law_server_times_are_samples(p: PulseState, us: u64)
    ensures
        ({
            let after = p.sampled(decimal(us as nat));
            &&& after.clock == p.clock.sampled(us, p.perf)
            &&& after.ms == after.clock.now_ms(p.perf)
            &&& (after.perf, after.next_cid, after.sent) == (p.perf, p.next_cid, p.sent)
        }),
{
    law_decimal_round_trips(us as nat);
}

/// Time passes with the local clock, and the time told follows once a sample was seen.
pub proof fn law_ticks_advance_the_time(p: PulseState, perf_us: u64)
    ensures
        p.ticked(perf_us).perf == perf_us,
        p.ticked(perf_us).clock == p.clock,
        p.ticked(perf_us).next_cid == p.next_cid,
        p.ticked(perf_us).sent == p.sent,
        p.clock.captures.len() > 0 ==> p.ticked(perf_us).ms == p.clock.now_ms(perf_us),
        p.clock.captures.len() == 0 ==> p.ticked(perf_us).ms == p.ms,
{
}

/// A call gets the next number, and the moment of its sending is recorded under it until it
/// is answered; the record of no other call changes.
pub proof fn law_calls_are_numbered(p: PulseState, other: u64)
    requires
        p.next_cid < u32::MAX,
    ensures
        p.minted().next_cid == p.next_cid + 1,
        p.minted().sent.dom().contains(p.next_cid as u64),
        p.minted().sent[p.next_cid as u64] == (p.perf, p.ms),
        other != p.next_cid ==> (p.minted().sent.dom().contains(other)
            <==> p.sent.dom().contains(other)),
        other != p.next_cid && p.sent.dom().contains(other) ==> p.minted().sent[other]
            == p.sent[other],
        (p.minted().clock, p.minted().perf, p.minted().ms) == (p.clock, p.perf, p.ms),
        !p.answered(p.next_cid).sent.dom().contains(p.next_cid as u64),
        other != p.next_cid ==> (p.answered(p.next_cid).sent.dom().contains(other)
            <==> p.sent.dom().contains(other)),
        p.answered(p.next_cid).next_cid == p.next_cid,
        p.answered(p.next_cid).clock == p.clock,
{
}

/// Of a range of calls each is recorded as sent at the same moment, and no other.
pub proof fn law_ranges_of_calls_are_recorded(
    sent: Map<u64, (u64, u64)>,
    from: u32,
    to: u32,
    at: (u64, u64),
    k: u64,
)
    ensures
        from <= k < to ==> sent_range(sent, from, to, at).dom().contains(k) && sent_range(
            sent,
            from,
            to,
            at,
        )[k] == at,
        !(from <= k < to) ==> (sent_range(sent, from, to, at).dom().contains(k)
            <==> sent.dom().contains(k)),
        !(from <= k < to) && sent.dom().contains(k) ==> sent_range(sent, from, to, at)[k]
            == sent[k],
    decreases to - from,
{
    if to > from {
        law_ranges_of_calls_are_recorded(sent, from, (to - 1) as u32, at, k);
    }
}

/// Products are exact as far as there are numbers, and the greatest number beyond.
pub proof fn law_products_saturate(a: u64, b: u64)
    ensures
        a * b <= u64::MAX ==> times(a, b) == a * b,
        a * b > u64::MAX ==> times(a, b) == u64::MAX,
{
}

} // verus!
