//! What the zones still need from the server, as calls that are retried until they
//! take.
//!
//! Each zone's need follows from its region's bits alone. A need becomes a call in
//! the outbox; a call that no tracked zone needs any more is retired.
use vstd::prelude::*;

use crate::codec::Codec;
use crate::ordmap::OrdMap;
use crate::outbox::{call_hash, Outbox, State};
use crate::pulse::Pulse;
use crate::wire::{ClientCall, ClientMsg};
use crate::zones::{ZoneManager, ZoneNeed};

verus! {

use crate::ordmap::{ascending, lemma_prefix};
use crate::outbox::{
    all_sent, all_timed, backoff_spec, cid_of, due, expiry_of, is_due_list, is_sending, later,
    Call, INFLIGHT_TTL_US,
};
use crate::pulse::PulseState;
use crate::wire::{msgs, CallView, MsgView};
use std::collections::hash_map::DefaultHasher;
use vstd::bytes::spec_u64_to_le_bytes;
use vstd::std_specs::hash::DefaultHasherAdditionalSpecFns;
use vstd::string::StringSliceAdditionalSpecFns;

/// A call on behalf of a zone.
#[derive(Debug, Clone, Copy, PartialEq, Eq, Structural)]
pub enum ZoneCall {
    /// Spawn the zone.
    Request { zone: u64 },
    /// Make the zone's region known.
    Ensure { zone: u64 },
}

/// The hash of a call by reducer and key.
pub open spec fn hash_of(reducer: &str, key: u64) -> u64 {
    DefaultHasher::spec_finish(
        seq![reducer.spec_bytes(), seq![0xFFu8], spec_u64_to_le_bytes(key)],
    )
}

/// A live call: of which reducer and for which zone, how often retried, and where it
/// stands.
pub ghost struct Asked {
    pub reducer: Seq<char>,
    pub call: ZoneCall,
    pub retry: u32,
    pub state: State,
}

/// The live calls by request hash.
pub type Asks = Map<u64, Asked>;

/// A call of the outbox.
pub open spec fn asked(c: Call<ZoneCall>) -> Asked {
    Asked { reducer: c.reducer@, call: c.args, retry: c.retry, state: c.state }
}

/// The calls of the outbox.
pub open spec fn asks(calls: Map<u64, Call<ZoneCall>>) -> Asks {
    calls.map_values(|c: Call<ZoneCall>| asked(c))
}

/// The calls with one asked for: a live one keeps its state, a new one may go at
/// once.
pub open spec fn wanted(
    m: Asks,
    hash: u64,
    reducer: Seq<char>,
    call: ZoneCall,
    now: u64,
) -> Asks {
    if m.dom().contains(hash) {
        m.insert(hash, Asked { call, ..m[hash] })
    } else {
        m.insert(hash, Asked { reducer, call, retry: 0, state: State::Queued { send_at: now } })
    }
}

/// The hash of the call that a zone's need asks for, if it asks for one.
pub open spec fn hash_for<C: Codec>(codec: C, zone: u64, need: ZoneNeed) -> Option<u64> {
    match need {
        ZoneNeed::Ensure => Some(hash_of("ensure_region", codec.region_and_bit(zone).0)),
        ZoneNeed::Request => Some(hash_of("request_zone", zone)),
        ZoneNeed::Satisfied => None,
    }
}

/// One of the needs asks for the call.
pub open spec fn is_needed<C: Codec>(codec: C, needs: Seq<(u64, ZoneNeed)>, hash: u64) -> bool {
    exists|i: int|
        0 <= i < needs.len() && hash_for(codec, (#[trigger] needs[i]).0, needs[i].1) == Some(hash)
}

/// The calls without those that nothing needs any more.
pub open spec fn retired<C: Codec>(codec: C, m: Asks, needs: Seq<(u64, ZoneNeed)>) -> Asks {
    m.restrict(Set::new(|h: u64| is_needed(codec, needs, h)))
}

/// The calls after one zone's need was looked at.
pub open spec fn reconciled<C: Codec>(
    codec: C,
    m: Asks,
    zone: u64,
    need: ZoneNeed,
    now: u64,
) -> Asks {
    match (need, hash_for(codec, zone, need)) {
        (ZoneNeed::Ensure, Some(hash)) => wanted(
            m,
            hash,
            "ensure_region"@,
            ZoneCall::Ensure { zone },
            now,
        ),
        (ZoneNeed::Request, Some(hash)) => wanted(
            m,
            hash,
            "request_zone"@,
            ZoneCall::Request { zone },
            now,
        ),
        _ => m,
    }
}

/// The calls after a list of needs was looked at.
pub open spec fn reconciled_all<C: Codec>(
    codec: C,
    m: Asks,
    needs: Seq<(u64, ZoneNeed)>,
    now: u64,
) -> Asks
    decreases needs.len(),
{
    if needs.len() == 0 {
        m
    } else {
        let (zone, need) = needs.last();
        reconciled(codec, reconciled_all(codec, m, needs.drop_last(), now), zone, need, now)
    }
}

/// `needs` lists what every tracked zone needs, by ascending zone.
pub open spec fn is_need_list<C: Codec>(zones: ZoneManager<C>, needs: Seq<(u64, ZoneNeed)>) -> bool {
    &&& forall|a: int, b: int|
        0 <= a < b < needs.len() ==> (#[trigger] needs[a]).0 < (#[trigger] needs[b]).0
    &&& forall|i: int|
        0 <= i < needs.len() ==> zones.tiers().dom().contains((#[trigger] needs[i]).0)
            && needs[i].1 == zones.need(needs[i].0)
    &&& forall|z: u64| #[trigger]
        zones.tiers().dom().contains(z) ==> needs.contains((z, zones.need(z)))
}

/// The calls after the needs of all zones were looked at: what no zone needs is retired,
/// then what they need is asked for.
pub open spec fn follows_needs<C: Codec>(zones: ZoneManager<C>, before: Asks, after: Asks, now: u64) -> bool {
    exists|needs: Seq<(u64, ZoneNeed)>|
        #![trigger is_need_list(zones, needs)]
        is_need_list(zones, needs) && after == reconciled_all(
            zones.codec(),
            retired(zones.codec(), before, needs),
            needs,
            now,
        )
}

/// A call queued again at `now`, one retry further.
pub open spec fn asked_again(a: Asked, now: u64) -> Asked {
    let retry = if a.retry < u32::MAX {
        (a.retry + 1) as u32
    } else {
        u32::MAX
    };
    Asked { retry, state: State::Queued { send_at: later(now, backoff_spec(retry)) }, ..a }
}

/// The calls after a look at their timeouts.
pub open spec fn rechecked(m: Asks, now: u64) -> Asks {
    m.map_values(
        |a: Asked|
            if expiry_of(a.state) matches Some(expiry) && now >= expiry {
                asked_again(a, now)
            } else {
                a
            },
    )
}

/// `hashes` lists the calls that are due, ascending.
pub open spec fn are_due(m: Asks, now: u64, hashes: Seq<u64>) -> bool {
    &&& ascending(hashes)
    &&& forall|h: u64| #[trigger]
        hashes.contains(h) <==> m.dom().contains(h) && (m[h].state matches State::Queued { send_at }
            && now >= send_at)
}

/// The calls after the listed ones were sent under consecutive ids.
pub open spec fn posted(m: Asks, hashes: Seq<u64>, first_cid: u32, now: u64) -> Asks
    decreases hashes.len(),
{
    if hashes.len() == 0 {
        m
    } else {
        let before = posted(m, hashes.drop_last(), first_cid, now);
        let h = hashes.last();
        before.insert(
            h,
            Asked {
                state: State::Sent {
                    cid: (first_cid + hashes.len() - 1) as u32,
                    expiry: later(now, INFLIGHT_TTL_US),
                },
                ..before[h]
            },
        )
    }
}

/// The call a zone call puts on the wire.
pub open spec fn wire_call(call: ZoneCall, ms: u64) -> CallView {
    match call {
        ZoneCall::Request { zone } => CallView::RequestZone { client_time_ms: ms, macro_zone: zone },
        ZoneCall::Ensure { zone } => CallView::EnsureRegion { client_time_ms: ms, macro_zone: zone },
    }
}

/// The frames that send the listed calls.
pub open spec fn post(m: Asks, hashes: Seq<u64>, first_cid: u32, ms: u64) -> Seq<MsgView> {
    Seq::new(
        hashes.len(),
        |i: int|
            MsgView::Call { cid: (first_cid + i) as u32, call: wire_call(m[hashes[i]].call, ms) },
    )
}

/// There are ids left for every live call.
pub open spec fn has_room(m: Asks, next_cid: u32) -> bool {
    next_cid + m.dom().len() <= u32::MAX
}

/// Everything that is due goes out; nothing while the ids run short.
pub open spec fn pumped(
    before: Asks,
    after: Asks,
    p0: PulseState,
    p1: PulseState,
    out: Seq<MsgView>,
) -> bool {
    if has_room(before, p0.next_cid) {
        exists|hashes: Seq<u64>|
            {
                &&& #[trigger] are_due(rechecked(before, p0.perf), p0.perf, hashes)
                &&& after == posted(rechecked(before, p0.perf), hashes, p0.next_cid, p0.perf)
                &&& p1 == p0.minted_to((p0.next_cid + hashes.len()) as u32)
                &&& out == post(before, hashes, p0.next_cid, p0.ms)
            }
    } else {
        after == before && p1 == p0 && out == Seq::<MsgView>::empty()
    }
}

/// The call in flight under an id.
pub open spec fn awaits(m: Asks, hash: u64, cid: u32) -> bool {
    m.dom().contains(hash) && cid_of(m[hash].state) == Some(cid)
}

/// What a reply says.
pub ghost enum Reply {
    Done,
    Failed,
    Promise { timeout_us: u64 },
}

/// The calls after a reply at `now`: done, again with back-off, or held. A reply to
/// another call changes nothing.
pub open spec fn replied(before: Asks, after: Asks, cid: u32, reply: Reply, now: u64) -> bool {
    &&& forall|h: u64| #[trigger]
        awaits(before, h, cid) ==> after == match reply {
            Reply::Done => before.remove(h),
            Reply::Failed => before.insert(h, asked_again(before[h], now)),
            Reply::Promise { timeout_us } => before.insert(
                h,
                Asked {
                    state: State::Awaiting { cid, expiry: later(now, timeout_us) },
                    ..before[h]
                },
            ),
        }
    &&& (forall|h: u64| !(#[trigger] awaits(before, h, cid))) ==> after == before
}

/// Calls on behalf of zones.
pub struct Needs {
    outbox: Outbox<ZoneCall>,
}

impl View for Needs {
    type V = Asks;

    closed spec fn view(&self) -> Asks {
        asks(self.outbox.calls())
    }
}

impl Needs {
    pub closed spec fn wf(&self) -> bool {
        self.outbox.wf()
    }

    /// Every id in flight is below this one.
    pub open spec fn ids_below(&self, next_cid: u32) -> bool {
        forall|h: u64| #[trigger]
            self@.dom().contains(h) ==> (cid_of(self@[h].state) matches Some(c) ==> c < next_cid)
    }

    pub fn new() -> (n: Self)
        ensures
            n.wf(),
            n@ == Asks::empty(),
    {
        let n = Needs { outbox: Outbox::new() };
        assert(n@ =~= Asks::empty());
        n
    }

    fn want(&mut self, hash: u64, reducer: &str, call: ZoneCall, now: u64)
        requires
            old(self).wf(),
        ensures
            final(self).wf(),
            final(self)@ == wanted(old(self)@, hash, reducer@, call, now),
            forall|next: u32| #[trigger]
                old(self).ids_below(next) ==> final(self).ids_below(next),
    {
        let ghost o = *self;
        self.outbox.want(hash, reducer, call, now);
        assert(self@ =~= wanted(o@, hash, reducer@, call, now));
    }

    fn done(&mut self, hash: u64)
        requires
            old(self).wf(),
        ensures
            final(self).wf(),
            final(self)@ == old(self)@.remove(hash),
            forall|next: u32| #[trigger]
                old(self).ids_below(next) ==> final(self).ids_below(next),
    {
        let ghost o = *self;
        self.outbox.done(hash);
        assert(self@ =~= o@.remove(hash));
    }

    /// The hashes of the calls that a list of needs asks for.
    fn needed<C: Codec>(zones: &ZoneManager<C>, needs: &Vec<(u64, ZoneNeed)>) -> (hashes: OrdMap<()>)
        requires
            zones.wf(),
        ensures
            hashes.wf(),
            forall|h: u64| #[trigger]
                hashes@.dom().contains(h) <==> is_needed(zones.codec(), needs@, h),
    {
        let ghost codec = zones.codec();
        let n: usize = needs.len();
        let mut hashes: OrdMap<()> = OrdMap::new();
        let mut i: usize = 0;
        while i < n
            invariant
                zones.wf(),
                codec == zones.codec(),
                n == needs@.len(),
                i <= n,
                hashes.wf(),
                forall|h: u64| #[trigger]
                    hashes@.dom().contains(h) <==> exists|j: int|
                        0 <= j < i && hash_for(codec, (#[trigger] needs@[j]).0, needs@[j].1)
                            == Some(h),
            decreases n - i,
        {
            let (zone, need) = needs[i];
            let ghost before = hashes@;
            match need {
                ZoneNeed::Ensure => {
                    hashes.insert(call_hash("ensure_region", zones.region_of(zone)), ());
                },
                ZoneNeed::Request => {
                    hashes.insert(call_hash("request_zone", zone), ());
                },
                ZoneNeed::Satisfied => {},
            }
            proof {
                assert(needs@[i as int] == (zone, need));
                assert forall|h: u64| #[trigger] hashes@.dom().contains(h) <==> exists|j: int|
                    0 <= j < i + 1 && hash_for(codec, (#[trigger] needs@[j]).0, needs@[j].1)
                        == Some(h) by {
                    assert(before.dom().contains(h) <==> exists|j: int|
                        0 <= j < i && hash_for(codec, (#[trigger] needs@[j]).0, needs@[j].1)
                            == Some(h));
                }
            }
            i = i + 1;
        }
        hashes
    }

    /// Retire the calls whose hash is not listed.
    fn keep_only(&mut self, needed: &OrdMap<()>)
        requires
            old(self).wf(),
            needed.wf(),
        ensures
            final(self).wf(),
            final(self)@ == old(self)@.restrict(needed@.dom()),
            forall|next: u32| #[trigger]
                old(self).ids_below(next) ==> final(self).ids_below(next),
    {
        let ghost o = self@;
        let live = self.outbox.hashes();
        assert(o.dom() =~= self.outbox.calls().dom());
        let n: usize = live.len();
        let mut i: usize = 0;
        while i < n
            invariant
                self.wf(),
                needed.wf(),
                n == live@.len(),
                i <= n,
                forall|h: u64| #[trigger] live@.contains(h) <==> o.dom().contains(h),
                forall|h: u64| #[trigger]
                    self@.dom().contains(h) <==> o.dom().contains(h) && (needed@.dom().contains(h)
                        || !live@.take(i as int).contains(h)),
                forall|h: u64| #[trigger] self@.dom().contains(h) ==> self@[h] == o[h],
                forall|next: u32| #[trigger]
                    old(self).ids_below(next) ==> self.ids_below(next),
            decreases n - i,
        {
            let h: u64 = live[i];
            let ghost before = self@;
            if !needed.contains_key(h) {
                self.done(h);
            }
            proof {
                lemma_prefix(live@, i as int);
                assert forall|x: u64| #[trigger] self@.dom().contains(x) <==> o.dom().contains(x)
                    && (needed@.dom().contains(x) || !live@.take(i + 1).contains(x)) by {
                    assert(before.dom().contains(x) <==> o.dom().contains(x) && (
                    needed@.dom().contains(x) || !live@.take(i as int).contains(x)));
                }
            }
            i = i + 1;
        }
        assert(live@.take(n as int) =~= live@);
        assert(self@ =~= o.restrict(needed@.dom()));
    }

    /// Turn what the zones need into calls, and retire the calls that no zone needs.
    pub fn reconcile<C: Codec>(&mut self, zones: &ZoneManager<C>, now: u64)
        requires
            old(self).wf(),
            zones.wf(),
        ensures
            final(self).wf(),
            follows_needs(*zones, old(self)@, final(self)@, now),
            forall|next: u32| #[trigger]
                old(self).ids_below(next) ==> final(self).ids_below(next),
    {
        let needs = zones.zone_needs();
        let ghost codec = zones.codec();
        let needed = Self::needed(zones, &needs);
        let ghost m0 = self@;
        self.keep_only(&needed);
        let ghost o = self@;
        proof {
            assert(needed@.dom() =~= Set::new(|h: u64| is_needed(codec, needs@, h)));
            assert(o == retired(codec, m0, needs@));
        }
        let n: usize = needs.len();
        let mut i: usize = 0;
        assert(needs@.take(0) =~= Seq::empty());
        while i < n
            invariant
                self.wf(),
                zones.wf(),
                codec == zones.codec(),
                n == needs@.len(),
                i <= n,
                self@ == reconciled_all(codec, o, needs@.take(i as int), now),
                forall|next: u32| #[trigger]
                    old(self).ids_below(next) ==> self.ids_below(next),
            decreases n - i,
        {
            let (zone, need) = needs[i];
            proof {
                assert(needs@.take(i + 1).drop_last() =~= needs@.take(i as int));
                assert(needs@.take(i + 1).last() == (zone, need));
            }
            match need {
                ZoneNeed::Ensure => {
                    let hash: u64 = call_hash("ensure_region", zones.region_of(zone));
                    self.want(hash, "ensure_region", ZoneCall::Ensure { zone }, now);
                },
                ZoneNeed::Request => {
                    let hash: u64 = call_hash("request_zone", zone);
                    self.want(hash, "request_zone", ZoneCall::Request { zone }, now);
                },
                ZoneNeed::Satisfied => {},
            }
            i = i + 1;
        }
        assert(needs@.take(n as int) =~= needs@);
        assert(is_need_list(*zones, needs@));
    }

    /// Send every call that is due.
    pub fn pump(&mut self, pulse: &mut Pulse) -> (out: Vec<ClientMsg>)
        requires
            old(self).wf(),
            old(pulse).wf(),
            old(self).ids_below(old(pulse)@.next_cid),
        ensures
            final(self).wf(),
            final(pulse).wf(),
            final(self).ids_below(final(pulse)@.next_cid),
            pumped(old(self)@, final(self)@, old(pulse)@, final(pulse)@, msgs(out@)),
    {
        let ghost o = *self;
        let ghost p0 = pulse@;
        let perf: u64 = pulse.perf_us();
        let ms: u64 = pulse.clock_ms();
        let mut next: u32 = pulse.cid_limit();
        let mut out: Vec<ClientMsg> = Vec::new();
        let live: u128 = self.outbox.len() as u128;
        proof {
            assert(o@.dom() =~= o.outbox.calls().dom());
            assert(msgs(out@) =~= Seq::empty());
        }
        if next as u128 + live > 0xFFFF_FFFF {
            return out;
        }
        proof {
            o.lemma_ids(next);
        }
        let sends = self.outbox.pump(perf, &mut next);
        let ghost hashes = choose|hashes: Seq<u64>|
            #![trigger is_due_list(all_timed(o.outbox.calls(), perf), perf, hashes)]
            is_due_list(all_timed(o.outbox.calls(), perf), perf, hashes) && is_sending(
                o.outbox.calls(),
                hashes,
                p0.next_cid,
                sends@,
            ) && self.outbox.calls() == all_sent(
                all_timed(o.outbox.calls(), perf),
                hashes,
                p0.next_cid,
                perf,
            );
        pulse.skip_cids(next);
        proof {
            self.lemma_ids(next);
            let timed_calls = all_timed(o.outbox.calls(), perf);
            assert(asks(timed_calls) =~= rechecked(o@, perf));
            assert(are_due(rechecked(o@, perf), perf, hashes)) by {
                assert forall|h: u64| #[trigger] hashes.contains(h) <==> rechecked(
                    o@,
                    perf,
                ).dom().contains(h) && (rechecked(o@, perf)[h].state matches State::Queued {
                    send_at,
                } && perf >= send_at) by {
                    assert(asks(timed_calls).dom().contains(h) == timed_calls.dom().contains(h));
                    if timed_calls.dom().contains(h) {
                        assert(asks(timed_calls)[h] == asked(timed_calls[h]));
                    }
                }
            }
            assert forall|j: int| 0 <= j < hashes.len() implies o.outbox.calls().dom().contains(
                #[trigger] hashes[j],
            ) by {
                assert(hashes.contains(hashes[j]));
            }
            lemma_posted(timed_calls, hashes, p0.next_cid, perf);
        }
        let n: usize = sends.len();
        let mut i: usize = 0;
        while i < n
            invariant
                n == sends@.len(),
                i <= n,
                out@.len() == i,
                is_sending(o.outbox.calls(), hashes, p0.next_cid, sends@),
                p0.next_cid + n <= u32::MAX,
                ms == p0.ms,
                o@ == asks(o.outbox.calls()),
                forall|j: int|
                    0 <= j < hashes.len() ==> o.outbox.calls().dom().contains(#[trigger] hashes[j]),
                forall|j: int|
                    0 <= j < i ==> (#[trigger] out@[j])@ == (MsgView::Call {
                        cid: (p0.next_cid + j) as u32,
                        call: wire_call(o@[hashes[j]].call, ms),
                    }),
            decreases n - i,
        {
            let cid: u32 = sends[i].cid;
            let args: ZoneCall = sends[i].args;
            assert(o@[hashes[i as int]].call == args) by {
                assert(o.outbox.calls().dom().contains(hashes[i as int]));
                assert(cloned::<ZoneCall>(o.outbox.calls()[hashes[i as int]].args, args));
            }
            let call = match args {
                ZoneCall::Request { zone } => ClientCall::RequestZone {
                    client_time_ms: ms,
                    macro_zone: zone,
                },
                ZoneCall::Ensure { zone } => ClientCall::EnsureRegion {
                    client_time_ms: ms,
                    macro_zone: zone,
                },
            };
            out.push(ClientMsg::Call { cid, call });
            i = i + 1;
        }
        assert(msgs(out@) =~= post(o@, hashes, p0.next_cid, p0.ms));
        out
    }

    /// The ids in flight, told by the calls.
    proof fn lemma_ids(&self, next_cid: u32)
        requires
            self.wf(),
        ensures
            self.ids_below(next_cid) <==> self.outbox.ids_below(next_cid),
    {
        self.outbox.lemma_ids_below(next_cid);
        assert(self@.dom() =~= self.outbox.calls().dom());
        if self.ids_below(next_cid) {
            assert forall|h: u64| #[trigger] self.outbox.calls().dom().contains(h) implies (cid_of(
                self.outbox.calls()[h].state,
            ) matches Some(c) ==> c < next_cid) by {
                assert(self@.dom().contains(h));
                assert(self@[h] == asked(self.outbox.calls()[h]));
            }
        }
    }

    /// A call went through.
    pub fn on_ok(&mut self, cid: u32, now: u64)
        requires
            old(self).wf(),
        ensures
            final(self).wf(),
            replied(old(self)@, final(self)@, cid, Reply::Done, now),
            forall|next: u32| #[trigger]
                old(self).ids_below(next) ==> final(self).ids_below(next),
    {
        let ghost o = *self;
        self.outbox.on_ok(cid);
        proof {
            assert forall|h: u64| o.outbox.in_flight(h, cid) == #[trigger] awaits(o@, h, cid) by {}
            assert forall|h: u64| #[trigger] awaits(o@, h, cid) implies self@ == o@.remove(h) by {
                assert(o.outbox.in_flight(h, cid));
                assert(self@ =~= o@.remove(h));
            }
            if forall|h: u64| !(#[trigger] awaits(o@, h, cid)) {
                assert forall|h: u64| !(#[trigger] o.outbox.in_flight(h, cid)) by {
                    assert(!awaits(o@, h, cid));
                }
                assert(self@ =~= o@);
            }
        }
    }

    /// A call failed.
    pub fn on_err(&mut self, cid: u32, now: u64)
        requires
            old(self).wf(),
        ensures
            final(self).wf(),
            replied(old(self)@, final(self)@, cid, Reply::Failed, now),
            forall|next: u32| #[trigger]
                old(self).ids_below(next) ==> final(self).ids_below(next),
    {
        let ghost o = *self;
        self.outbox.on_err(cid, now);
        proof {
            assert forall|h: u64| o.outbox.in_flight(h, cid) == #[trigger] awaits(o@, h, cid) by {}
            assert forall|h: u64| #[trigger] awaits(o@, h, cid) implies self@ == o@.insert(
                h,
                asked_again(o@[h], now),
            ) by {
                assert(o.outbox.in_flight(h, cid));
                assert(self@ =~= o@.insert(h, asked_again(o@[h], now)));
            }
            if forall|h: u64| !(#[trigger] awaits(o@, h, cid)) {
                assert forall|h: u64| !(#[trigger] o.outbox.in_flight(h, cid)) by {
                    assert(!awaits(o@, h, cid));
                }
                assert(self@ =~= o@);
            }
        }
    }

    /// A call will be resolved by a promised time.
    pub fn on_promise(&mut self, cid: u32, timeout_us: u64, now: u64)
        requires
            old(self).wf(),
        ensures
            final(self).wf(),
            replied(old(self)@, final(self)@, cid, (Reply::Promise { timeout_us }), now),
            forall|next: u32| #[trigger]
                old(self).ids_below(next) ==> final(self).ids_below(next),
    {
        let ghost o = *self;
        self.outbox.on_promise(cid, timeout_us, now);
        proof {
            assert forall|h: u64| o.outbox.in_flight(h, cid) == #[trigger] awaits(o@, h, cid) by {}
            assert forall|h: u64| #[trigger] awaits(o@, h, cid) implies self@ == o@.insert(
                h,
                Asked { state: State::Awaiting { cid, expiry: later(now, timeout_us) }, ..o@[h] },
            ) by {
                assert(o.outbox.in_flight(h, cid));
                assert(self@ =~= o@.insert(
                    h,
                    Asked { state: State::Awaiting { cid, expiry: later(now, timeout_us) }, ..o@[h] },
                ));
            }
            if forall|h: u64| !(#[trigger] awaits(o@, h, cid)) {
                assert forall|h: u64| !(#[trigger] o.outbox.in_flight(h, cid)) by {
                    assert(!awaits(o@, h, cid));
                }
                assert(self@ =~= o@);
            }
            assert forall|next: u32| #[trigger] o.ids_below(next) implies self.ids_below(next) by {
                assert forall|h: u64| #[trigger] self@.dom().contains(h) implies (cid_of(
                    self@[h].state,
                ) matches Some(c) ==> c < next) by {
                    if exists|g: u64| awaits(o@, g, cid) {
                        let g = choose|g: u64| awaits(o@, g, cid);
                        assert(o@.dom().contains(g));
                    }
                    assert(o@.dom().contains(h));
                }
            }
        }
    }
}

/// Sending commutes with looking at the calls as values.
proof fn lemma_posted(calls: Map<u64, Call<ZoneCall>>, hashes: Seq<u64>, first_cid: u32, now: u64)
    requires
        forall|j: int| 0 <= j < hashes.len() ==> calls.dom().contains(#[trigger] hashes[j]),
    ensures
        all_sent(calls, hashes, first_cid, now).dom() == calls.dom(),
        asks(all_sent(calls, hashes, first_cid, now)) == posted(asks(calls), hashes, first_cid, now),
    decreases hashes.len(),
{
    if hashes.len() > 0 {
        let init = hashes.drop_last();
        assert forall|j: int| 0 <= j < init.len() implies calls.dom().contains(
            #[trigger] init[j],
        ) by {
            assert(calls.dom().contains(hashes[j]));
        }
        lemma_posted(calls, init, first_cid, now);
        let h = hashes.last();
        assert(calls.dom().contains(hashes[hashes.len() - 1]));
        let before = all_sent(calls, init, first_cid, now);
        assert(asks(before)[h] == asked(before[h]));
        assert(all_sent(calls, hashes, first_cid, now).dom() =~= calls.dom());
        assert(asks(all_sent(calls, hashes, first_cid, now)) =~= posted(
            asks(calls),
            hashes,
            first_cid,
            now,
        ));
    }
}

/// Asking again for a call that is in flight leaves it in flight: nothing is sent
/// twice.
pub proof fn law_live_call_is_not_restarted(
    m: Asks,
    hash: u64,
    reducer: Seq<char>,
    call: ZoneCall,
    now: u64,
)
    requires
        m.dom().contains(hash),
    ensures
        wanted(m, hash, reducer, call, now)[hash].state == m[hash].state,
        wanted(m, hash, reducer, call, now)[hash].retry == m[hash].retry,
{
}

/// The call is needed: a tracked zone may exist and does not yet, or its region is unknown.
pub open spec fn zone_needs_call<C: Codec>(zones: ZoneManager<C>, zone: u64, hash: u64) -> bool {
    zones.tiers().dom().contains(zone) && hash_for(zones.codec(), zone, zones.need(zone)) == Some(
        hash,
    )
}

/// What is asked for is exactly what the tracked zones need: a need that is met, and one of
/// a zone that was left, is retired.
pub proof fn law_only_needs_are_asked<C: Codec>(
    zones: ZoneManager<C>,
    before: Asks,
    after: Asks,
    now: u64,
    hash: u64,
)
    requires
        follows_needs(zones, before, after, now),
    ensures
        after.dom().contains(hash) <==> exists|z: u64| zone_needs_call(zones, z, hash),
{
    let codec = zones.codec();
    let needs = choose|needs: Seq<(u64, ZoneNeed)>|
        #![trigger is_need_list(zones, needs)]
        is_need_list(zones, needs) && after == reconciled_all(
            codec,
            retired(codec, before, needs),
            needs,
            now,
        );
    lemma_reconciled_dom(codec, retired(codec, before, needs), needs, now, hash);
    if is_needed(codec, needs, hash) {
        let i = choose|i: int|
            0 <= i < needs.len() && hash_for(codec, (#[trigger] needs[i]).0, needs[i].1) == Some(
                hash,
            );
        assert(zone_needs_call(zones, needs[i].0, hash));
    }
    if exists|z: u64| zone_needs_call(zones, z, hash) {
        let z = choose|z: u64| zone_needs_call(zones, z, hash);
        let i = needs.index_of((z, zones.need(z)));
        assert(needs[i] == (z, zones.need(z)));
    }
}

proof fn lemma_reconciled_dom<C: Codec>(
    codec: C,
    m: Asks,
    needs: Seq<(u64, ZoneNeed)>,
    now: u64,
    hash: u64,
)
    ensures
        reconciled_all(codec, m, needs, now).dom().contains(hash) <==> m.dom().contains(hash)
            || is_needed(codec, needs, hash),
    decreases needs.len(),
{
    if needs.len() > 0 {
        let rest = needs.drop_last();
        lemma_reconciled_dom(codec, m, rest, now, hash);
        if is_needed(codec, rest, hash) {
            let i = choose|i: int|
                0 <= i < rest.len() && hash_for(codec, (#[trigger] rest[i]).0, rest[i].1) == Some(
                    hash,
                );
            assert(needs[i] == rest[i]);
        }
        assert(needs[needs.len() - 1] == needs.last());
        if is_needed(codec, needs, hash) {
            let i = choose|i: int|
                0 <= i < needs.len() && hash_for(codec, (#[trigger] needs[i]).0, needs[i].1)
                    == Some(hash);
            if i < rest.len() {
                assert(rest[i] == needs[i]);
            }
        }
    }
}

} // verus!
