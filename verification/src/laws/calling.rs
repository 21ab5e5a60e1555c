//! Which calls and subscriptions go out, when, and what a reply makes of them.
use vstd::prelude::*;

use crate::codec::Codec;
use crate::needs::ZoneCall;
use crate::outbox::{Call, Outgoing, State};
use crate::subs::SubKey;
use crate::zones::{DataType, ZoneIntent, ZoneNeed};

verus! {

use crate::links::LinkState;
use crate::needs::{
    are_due, asked_again, awaits, hash_for, hash_of, post, posted, pumped, rechecked, reconciled,
    reconciled_all, replied, Asked, Asks, Reply,
};
use crate::outbox::{
    all_sent, backoff_spec, due, fresh_call, is_due_list, is_sending, later, timed,
};
use crate::pulse::PulseState;
use crate::text::decimal;
use crate::wire::{CallView, MsgView};

/// The first wait is a second; each further one is twice as long, up to thirty seconds.
pub proof fn law_waits_double(retry: u32)
    ensures
        backoff_spec(0) == 1_000_000,
        retry < 4 ==> backoff_spec((retry + 1) as u32) == 2 * backoff_spec(retry),
        retry >= 5 ==> backoff_spec(retry) == 30_000_000,
{
    vstd::arithmetic::power2::lemma2_to64();
}

/// A wait ends at the sum of two times, as far as there are times.
pub proof fn law_waits_are_added(t: u64, by: u64)
    ensures
        t + by <= u64::MAX ==> later(t, by) == t + by,
        t + by > u64::MAX ==> later(t, by) == u64::MAX,
{
}

/// A call that is sent and whose time is up goes back into the queue, once more tried, for
/// as long as that many tries wait; one whose time is not up stays as it is, and so does one
/// that is queued. What it asks stays.
pub proof fn law_lost_calls_are_queued_again<A>(c: Call<A>, now: u64)
    ensures
        ({
            let after = timed(c, now);
            let up = match c.state {
                State::Queued { .. } => false,
                State::Sent { expiry, .. } => now >= expiry,
                State::Awaiting { expiry, .. } => now >= expiry,
            };
            &&& !up ==> after == c
            &&& after.reducer == c.reducer
            &&& after.args == c.args
            &&& up && c.retry < u32::MAX ==> after.retry == c.retry + 1
            &&& up ==> (after.state matches State::Queued { send_at } && (now + backoff_spec(
                after.retry,
            ) <= u64::MAX ==> send_at == now + backoff_spec(after.retry)))
        }),
{
}

/// A call is due once it is queued and its moment has come.
pub proof fn law_queued_calls_come_due<A>(c: Call<A>, now: u64)
    ensures
        due(c, now) <==> (c.state matches State::Queued { send_at } && send_at <= now),
{
}

/// The calls that are sent wait for their replies for five seconds, under numbers counted
/// up from the first; every other call stays as it is.
pub proof fn law_sent_calls_wait_for_replies<A>(
    calls: Map<u64, Call<A>>,
    hashes: Seq<u64>,
    first: u32,
    now: u64,
    h: u64,
)
    requires
        hashes.no_duplicates(),
        forall|i: int| 0 <= i < hashes.len() ==> calls.dom().contains(#[trigger] hashes[i]),
        first + hashes.len() <= u32::MAX,
        now + 5_000_000 <= u64::MAX,
    ensures
        ({
            let after = all_sent(calls, hashes, first, now);
            &&& after.dom() == calls.dom()
            &&& !hashes.contains(h) && calls.dom().contains(h) ==> after[h] == calls[h]
            &&& forall|i: int|
                0 <= i < hashes.len() ==> {
                    let c = after[#[trigger] hashes[i]];
                    &&& c.state == (State::Sent {
                        cid: (first + i) as u32,
                        expiry: (now + 5_000_000) as u64,
                    })
                    &&& c.reducer == calls[hashes[i]].reducer
                    &&& c.args == calls[hashes[i]].args
                    &&& c.retry == calls[hashes[i]].retry
                }
        }),
    decreases hashes.len(),
{
    if hashes.len() > 0 {
        let rest = hashes.drop_last();
        let last = hashes.len() - 1;
        assert(forall|i: int| 0 <= i < rest.len() ==> #[trigger] rest[i] == hashes[i]);
        assert(hashes[last] == hashes.last());
        law_sent_calls_wait_for_replies(calls, rest, first, now, h);
        let before = all_sent(calls, rest, first, now);
        let after = all_sent(calls, hashes, first, now);
        assert(after.dom() =~= calls.dom());
        assert(!rest.contains(hashes.last())) by {
            if rest.contains(hashes.last()) {
                let k = rest.index_of(hashes.last());
                assert(hashes[k] == hashes[last]);
            }
        }
        law_sent_calls_wait_for_replies(calls, rest, first, now, hashes.last());
        assert forall|i: int| 0 <= i < hashes.len() implies {
            let c = after[#[trigger] hashes[i]];
            &&& c.state == (State::Sent {
                cid: (first + i) as u32,
                expiry: (now + 5_000_000) as u64,
            })
            &&& c.reducer == calls[hashes[i]].reducer
            &&& c.args == calls[hashes[i]].args
            &&& c.retry == calls[hashes[i]].retry
        } by {
            if i < last {
                assert(rest[i] == hashes[i]);
                assert(hashes[i] != hashes[last]);
            }
        }
        if rest.contains(h) {
            let k = rest.index_of(h);
            assert(hashes[k] == h);
        }
    }
}

/// What a zone needs is asked for by the call that is for it: where its region is not known
/// the region's, where it may exist and does not yet its own. One that is live already stays
/// live as it is; a new one may go at once. Nothing else changes.
pub proof fn law_needs_become_calls<C: Codec>(
    codec: C,
    m: Asks,
    zone: u64,
    need: ZoneNeed,
    now: u64,
    other: u64,
)
    ensures
        ({
            let after = reconciled(codec, m, zone, need, now);
            let hash = if need == ZoneNeed::Ensure {
                hash_of("ensure_region", codec.region_and_bit(zone).0)
            } else {
                hash_of("request_zone", zone)
            };
            let a = after[hash];
            &&& need == ZoneNeed::Satisfied ==> after == m
            &&& need != ZoneNeed::Satisfied ==> {
                &&& after.dom() == m.dom().insert(hash)
                &&& need == ZoneNeed::Ensure ==> a.call == (ZoneCall::Ensure { zone })
                &&& need == ZoneNeed::Request ==> a.call == (ZoneCall::Request { zone })
                &&& m.dom().contains(hash) ==> (a.state, a.retry, a.reducer) == (
                    m[hash].state,
                    m[hash].retry,
                    m[hash].reducer,
                )
                &&& !m.dom().contains(hash) ==> a.state == (State::Queued { send_at: now })
                    && a.retry == 0
                &&& !m.dom().contains(hash) && need == ZoneNeed::Ensure ==> a.reducer
                    == "ensure_region"@
                &&& !m.dom().contains(hash) && need == ZoneNeed::Request ==> a.reducer
                    == "request_zone"@
                &&& other != hash && m.dom().contains(other) ==> after[other] == m[other]
            }
        }),
{
    let after = reconciled(codec, m, zone, need, now);
    if let Some(hash) = hash_for(codec, zone, need) {
        assert(after.dom() =~= m.dom().insert(hash));
    }
}

/// A pump sends every call that is due, in the order of their hashes and under numbers
/// counted up: a request for its zone, or the making known of its zone's region, at the
/// present time.
pub proof fn law_pump_sends_what_is_due(
    before: Asks,
    after: Asks,
    p0: PulseState,
    p1: PulseState,
    out: Seq<MsgView>,
)
    requires
        pumped(before, after, p0, p1, out),
        before.dom().finite(),
        p0.next_cid + before.dom().len() <= u32::MAX,
    ensures
        exists|hashes: Seq<u64>| #[trigger]
            sends(before, p0, hashes, out) && p1.next_cid == p0.next_cid + hashes.len(),
        (p1.clock, p1.perf, p1.ms) == (p0.clock, p0.perf, p0.ms),
{
    let hashes = choose|hashes: Seq<u64>|
        {
            &&& #[trigger] are_due(rechecked(before, p0.perf), p0.perf, hashes)
            &&& after == posted(rechecked(before, p0.perf), hashes, p0.next_cid, p0.perf)
            &&& p1 == p0.minted_to((p0.next_cid + hashes.len()) as u32)
            &&& out == post(before, hashes, p0.next_cid, p0.ms)
        };
    let m = rechecked(before, p0.perf);
    assert forall|h: u64| #[trigger] hashes.contains(h) <==> before.dom().contains(h) && is_due_at(
        before[h],
        p0.perf,
    ) by {
        if before.dom().contains(h) {
            let c = before[h];
            assert(m[h] == if crate::outbox::expiry_of(c.state) matches Some(expiry) && p0.perf
                >= expiry {
                asked_again(c, p0.perf)
            } else {
                c
            });
            lemma_backoff_is_a_wait(if c.retry < u32::MAX {
                (c.retry + 1) as u32
            } else {
                u32::MAX
            });
        }
    }
    lemma_few(before.dom(), hashes);
    assert forall|i: int| 0 <= i < out.len() implies #[trigger] carries(
        before,
        p0,
        hashes,
        out,
        i,
    ) by {
        assert(hashes.contains(hashes[i]));
    }
    assert(sends(before, p0, hashes, out));
}

proof fn lemma_backoff_is_a_wait(retry: u32)
    ensures
        backoff_spec(retry) > 0,
{
    crate::outbox::law_backoff_is_bounded(retry);
}

proof fn lemma_few(s: Set<u64>, hashes: Seq<u64>)
    requires
        s.finite(),
        forall|h: u64| #[trigger] hashes.contains(h) ==> s.contains(h),
        crate::ordmap::ascending(hashes),
    ensures
        hashes.len() <= s.len(),
{
    assert(hashes.no_duplicates());
    hashes.unique_seq_to_set();
    assert(hashes.to_set().subset_of(s));
    vstd::set_lib::lemma_len_subset(hashes.to_set(), s);
}

/// The call is queued for a moment that has come. (One whose time is up is queued again for
/// later, or, where there is no later moment, for the last.)
pub open spec fn is_due_at(a: Asked, now: u64) -> bool {
    match a.state {
        State::Queued { send_at } => send_at <= now,
        State::Sent { expiry, .. } => expiry <= now && now == u64::MAX,
        State::Awaiting { expiry, .. } => expiry <= now && now == u64::MAX,
    }
}

/// Frame `i` sends the `i`-th call.
pub open spec fn carries(
    m: Asks,
    p: PulseState,
    hashes: Seq<u64>,
    out: Seq<MsgView>,
    i: int,
) -> bool {
    out[i] matches MsgView::Call { cid, call } && cid == p.next_cid + i && match m[hashes[i]].call {
        ZoneCall::Request { zone } => call == (CallView::RequestZone {
            client_time_ms: p.ms,
            macro_zone: zone,
        }),
        ZoneCall::Ensure { zone } => call == (CallView::EnsureRegion {
            client_time_ms: p.ms,
            macro_zone: zone,
        }),
    }
}

/// The frames send the listed calls, which are those that are due, by ascending hash.
pub open spec fn sends(m: Asks, p: PulseState, hashes: Seq<u64>, out: Seq<MsgView>) -> bool {
    &&& forall|i: int, j: int|
        0 <= i < j < hashes.len() ==> #[trigger] hashes[i] < #[trigger] hashes[j]
    &&& forall|h: u64| #[trigger]
        hashes.contains(h) <==> m.dom().contains(h) && is_due_at(m[h], p.perf)
    &&& out.len() == hashes.len()
    &&& forall|i: int| 0 <= i < out.len() ==> #[trigger] carries(m, p, hashes, out, i)
}

/// A call that was answered is done; one that failed is queued again, once more tried, for
/// as long as that many tries wait; one that was promised waits as long as promised. No
/// other call changes.
pub proof fn law_replies_settle_calls(
    before: Asks,
    after: Asks,
    cid: u32,
    reply: Reply,
    now: u64,
    h: u64,
    other: u64,
)
    requires
        replied(before, after, cid, reply, now),
        before.dom().contains(h),
        match before[h].state {
            State::Queued { .. } => false,
            State::Sent { cid: c, .. } => c == cid,
            State::Awaiting { cid: c, .. } => c == cid,
        },
        other != h,
    ensures
        after.dom().contains(other) <==> before.dom().contains(other),
        before.dom().contains(other) ==> after[other] == before[other],
        reply is Done <==> !after.dom().contains(h),
        reply is Failed ==> {
            &&& after[h].call == before[h].call
            &&& before[h].retry < u32::MAX ==> after[h].retry == before[h].retry + 1
            &&& after[h].state matches State::Queued { send_at } && (now + backoff_spec(
                after[h].retry,
            ) <= u64::MAX ==> send_at == now + backoff_spec(after[h].retry))
        },
        reply matches Reply::Promise { timeout_us } ==> {
            &&& after[h].call == before[h].call
            &&& after[h].retry == before[h].retry
            &&& after[h].state matches State::Awaiting { cid: c, expiry } && c == cid && (now
                + timeout_us <= u64::MAX ==> expiry == now + timeout_us)
        },
{
    assert(awaits(before, h, cid));
}

/// Opening a subscription that is not open sends one for the zone's rows of that table under
/// the next number; closing it again sends the end of that same number; opening what is open
/// and closing what is not sends nothing.
pub proof fn law_subscriptions_are_closed_by_their_number(
    l: LinkState,
    zone: u64,
    data: DataType,
    other: SubKey,
)
    requires
        l.next_sid < u32::MAX,
        other != (zone, data),
    ensures
        ({
            let k = (zone, data);
            let open = ZoneIntent::Subscribe { zone, data, on: true };
            let close = ZoneIntent::Subscribe { zone, data, on: false };
            let opened = l.after(open);
            &&& !l.zones.dom().contains(k) ==> {
                &&& l.frame(open) == Some(
                    MsgView::Sub {
                        sid: l.next_sid,
                        table: if data == DataType::Card {
                            "cards"@
                        } else {
                            "zones"@
                        },
                        filter: Some("macro_zone = "@ + decimal(zone as nat)),
                    },
                )
                &&& opened.next_sid == l.next_sid + 1
                &&& opened.frame(close) == Some(MsgView::Unsub { sid: l.next_sid })
                &&& l.frame(close) is None
            }
            &&& l.zones.dom().contains(k) ==> l.frame(open) is None && opened == l
            &&& opened.zones.dom().contains(k)
            &&& !opened.after(close).zones.dom().contains(k)
            &&& opened.after(close).frame(close) is None
            &&& opened.zones.dom().contains(other) <==> l.zones.dom().contains(other)
            &&& l.zones.dom().contains(other) ==> opened.zones[other] == l.zones[other]
                && opened.after(close).zones[other] == l.zones[other]
            &&& opened.regions == l.regions
        }),
{
}

/// The same of a region, which is always subscribed anew.
pub proof fn law_regions_are_closed_by_their_number(l: LinkState, region: u64, other: u64)
    requires
        l.next_sid < u32::MAX,
        other != region,
    ensures
        ({
            let open = ZoneIntent::Region { region, subscribed: true };
            let close = ZoneIntent::Region { region, subscribed: false };
            let opened = l.after(open);
            &&& l.frame(open) == Some(
                MsgView::Sub {
                    sid: l.next_sid,
                    table: "regions"@,
                    filter: Some("macro_region = "@ + decimal(region as nat)),
                },
            )
            &&& opened.next_sid == l.next_sid + 1
            &&& opened.frame(close) == Some(MsgView::Unsub { sid: l.next_sid })
            &&& !l.regions.dom().contains(region) ==> l.frame(close) is None
            &&& !opened.after(close).regions.dom().contains(region)
            &&& opened.regions.dom().contains(other) <==> l.regions.dom().contains(other)
            &&& l.regions.dom().contains(other) ==> opened.regions[other] == l.regions[other]
            &&& opened.zones == l.zones
        }),
{
}

/// Decisions are carried out one after the other, each in the state that those before left.
pub proof fn law_decisions_are_carried_out_in_order(
    l: LinkState,
    first: Seq<ZoneIntent>,
    x: ZoneIntent,
)
    ensures
        l.after_all(Seq::empty()) == l,
        l.frames(Seq::empty()).len() == 0,
        l.after_all(first.push(x)) == l.after_all(first).after(x),
        l.after_all(first).frame(x) is None ==> l.frames(first.push(x)) == l.frames(first),
        l.after_all(first).frame(x) matches Some(f) ==> l.frames(first.push(x)) == l.frames(
            first,
        ).push(f),
{
    assert(first.push(x).drop_last() =~= first);
}

/// A call that is asked for anew has not been tried and may go at once.
pub proof fn law_new_calls_may_go_at_once<A>(reducer: String, args: A, now: u64)
    ensures
        ({
            let c = fresh_call(reducer, args, now);
            c.reducer == reducer && c.args == args && c.retry == 0 && due(c, now) && (
            c.state matches State::Queued { send_at } && send_at == now)
        }),
{
}

/// What goes out are the calls that are due, each once, by ascending hash, under numbers
/// counted up, to the reducer that each is for.
pub proof fn law_outbox_sends_what_is_due<A: Clone>(
    calls: Map<u64, Call<A>>,
    now: u64,
    hashes: Seq<u64>,
    first: u32,
    out: Seq<Outgoing<A>>,
    h: u64,
    i: int,
)
    requires
        is_due_list(calls, now, hashes),
        is_sending(calls, hashes, first, out),
        0 <= i < out.len(),
    ensures
        out.len() == hashes.len(),
        hashes.contains(h) <==> calls.dom().contains(h) && (calls[h].state matches State::Queued {
            send_at,
        } && send_at <= now),
        forall|a: int, b: int| 0 <= a < b < hashes.len() ==> hashes[a] < hashes[b],
        out[i].cid == first + i,
        out[i].reducer == calls[hashes[i]].reducer,
        cloned::<A>(calls[hashes[i]].args, out[i].args),
{
}

/// Everything that zones need is asked for, one zone after the other.
pub proof fn law_needs_are_looked_at_in_turn<C: Codec>(
    codec: C,
    m: Asks,
    first: Seq<(u64, ZoneNeed)>,
    zone: u64,
    need: ZoneNeed,
    now: u64,
)
    ensures
        reconciled_all(codec, m, Seq::empty(), now) == m,
        reconciled_all(codec, m, first.push((zone, need)), now) == reconciled(
            codec,
            reconciled_all(codec, m, first, now),
            zone,
            need,
            now,
        ),
{
    assert(first.push((zone, need)).drop_last() =~= first);
}

} // verus!
