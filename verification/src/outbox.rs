//! Fault-tolerant outbound calls.
//!
//! A call is sent at most once while in flight, and only the server's response, or
//! a timeout, decides what happens next: `ok` retires it, an error queues it again
//! with exponential back-off, a promise holds it until the promised time. Times are
//! local monotonic microseconds.
use std::collections::hash_map::DefaultHasher;
use std::hash::Hasher;
use vstd::prelude::*;

use crate::ordmap::OrdMap;

verus! {

use crate::ordmap::{ascending, lemma_prefix};
use vstd::arithmetic::power2::pow2;
use vstd::bytes::spec_u64_to_le_bytes;
use vstd::std_specs::hash::DefaultHasherAdditionalSpecFns;
use vstd::string::StringSliceAdditionalSpecFns;

/// A sent call with no response is taken for lost after this long.
pub const INFLIGHT_TTL_US: u64 = 5_000_000;

/// Back-off of the first attempt; it doubles with every retry.
pub const BACKOFF_BASE_US: u64 = 1_000_000;

/// Back-off never exceeds this.
pub const BACKOFF_CAP_US: u64 = 30_000_000;

/// The same logical request across attempts: a hash of the reducer and a key, fed
/// byte for byte as `str` and `u64` feed themselves to a hasher.
pub fn call_hash(reducer: &str, key: u64) -> (h: u64)
    ensures
        h == DefaultHasher::spec_finish(
            seq![reducer.spec_bytes(), seq![0xFFu8], spec_u64_to_le_bytes(key)],
        ),
{
    let mut hasher = DefaultHasher::new();
    hasher.write(reducer.as_bytes());
    let end: [u8; 1] = [0xFF];
    hasher.write(&end);
    let bytes: Vec<u8> = vstd::bytes::u64_to_le_bytes(key);
    hasher.write(bytes.as_slice());
    proof {
        assert(end@ =~= seq![0xFFu8]);
        assert(hasher@ =~= seq![reducer.spec_bytes(), seq![0xFFu8], spec_u64_to_le_bytes(key)]);
    }
    hasher.finish()
}

/// The sum of two times, at most the last one there is.
pub open spec fn later(t: u64, by: u64) -> u64 {
    if t + by <= u64::MAX {
        (t + by) as u64
    } else {
        u64::MAX
    }
}

/// How long to wait before attempt number `retry`.
pub open spec fn backoff_spec(retry: u32) -> u64 {
    let doubled = BACKOFF_BASE_US * pow2(if retry < 8 {
        retry as nat
    } else {
        8
    });
    if doubled < BACKOFF_CAP_US {
        doubled as u64
    } else {
        BACKOFF_CAP_US
    }
}

pub fn backoff(retry: u32) -> (us: u64)
    ensures
        us == backoff_spec(retry),
{
    let mut us: u64 = BACKOFF_BASE_US;
    let n: u32 = if retry < 8 {
        retry
    } else {
        8
    };
    let mut i: u32 = 0;
    proof {
        vstd::arithmetic::power2::lemma2_to64();
    }
    while i < n
        invariant
            i <= n <= 8,
            us == BACKOFF_BASE_US * pow2(i as nat),
            pow2(i as nat) <= 256,
        decreases n - i,
    {
        proof {
            vstd::arithmetic::power2::lemma_pow2_unfold((i + 1) as nat);
            vstd::arithmetic::power2::lemma2_to64();
            if i < 7 {
                vstd::arithmetic::power2::lemma_pow2_strictly_increases((i + 1) as nat, 8);
            }
        }
        us = us * 2;
        i = i + 1;
    }
    if us < BACKOFF_CAP_US {
        us
    } else {
        BACKOFF_CAP_US
    }
}

/// Where a call stands.
#[derive(Debug, Clone, Copy, PartialEq, Eq, Structural)]
pub enum State {
    /// Waiting to be sent, no earlier than `send_at`.
    Queued { send_at: u64 },
    /// Sent; taken for lost past `expiry`.
    Sent { cid: u32, expiry: u64 },
    /// The server promised to resolve it by `expiry`.
    Awaiting { cid: u32, expiry: u64 },
}

/// The call id a state is waiting on.
pub open spec fn cid_of(s: State) -> Option<u32> {
    match s {
        State::Queued { .. } => None,
        State::Sent { cid, .. } => Some(cid),
        State::Awaiting { cid, .. } => Some(cid),
    }
}

/// When a state gives up waiting.
pub open spec fn expiry_of(s: State) -> Option<u64> {
    match s {
        State::Queued { .. } => None,
        State::Sent { expiry, .. } => Some(expiry),
        State::Awaiting { expiry, .. } => Some(expiry),
    }
}

/// One call: what to send, how often it was retried, and where it stands.
pub struct Call<A> {
    pub reducer: String,
    /// The arguments without what is stamped afresh on every attempt.
    pub args: A,
    pub retry: u32,
    pub state: State,
}

/// A call to emit now.
pub struct Outgoing<A> {
    pub cid: u32,
    pub reducer: String,
    pub args: A,
}

/// The call queued again at `now`, one retry further.
pub open spec fn requeued<A>(c: Call<A>, now: u64) -> Call<A> {
    let retry = if c.retry < u32::MAX {
        (c.retry + 1) as u32
    } else {
        u32::MAX
    };
    Call { retry, state: State::Queued { send_at: later(now, backoff_spec(retry)) }, ..c }
}

/// The call after a look at its timeout.
pub open spec fn timed<A>(c: Call<A>, now: u64) -> Call<A> {
    if expiry_of(c.state) matches Some(expiry) && now >= expiry {
        requeued(c, now)
    } else {
        c
    }
}

/// The call is queued and its time has come.
pub open spec fn due<A>(c: Call<A>, now: u64) -> bool {
    c.state matches State::Queued { send_at } && now >= send_at
}

/// Every call after a look at its timeout.
pub open spec fn all_timed<A>(calls: Map<u64, Call<A>>, now: u64) -> Map<u64, Call<A>> {
    calls.map_values(|c: Call<A>| timed(c, now))
}

/// `hashes` lists the calls that are due, ascending.
pub open spec fn is_due_list<A>(calls: Map<u64, Call<A>>, now: u64, hashes: Seq<u64>) -> bool {
    &&& ascending(hashes)
    &&& forall|h: u64| #[trigger]
        hashes.contains(h) <==> calls.dom().contains(h) && due(calls[h], now)
}

/// The calls after the listed ones were sent under consecutive ids.
pub open spec fn all_sent<A>(
    calls: Map<u64, Call<A>>,
    hashes: Seq<u64>,
    first_cid: u32,
    now: u64,
) -> Map<u64, Call<A>>
    decreases hashes.len(),
{
    if hashes.len() == 0 {
        calls
    } else {
        let before = all_sent(calls, hashes.drop_last(), first_cid, now);
        let h = hashes.last();
        before.insert(
            h,
            Call {
                state: State::Sent {
                    cid: (first_cid + hashes.len() - 1) as u32,
                    expiry: later(now, INFLIGHT_TTL_US),
                },
                ..before[h]
            },
        )
    }
}

/// `out` sends the listed calls under consecutive ids.
pub open spec fn is_sending<A: Clone>(
    calls: Map<u64, Call<A>>,
    hashes: Seq<u64>,
    first_cid: u32,
    out: Seq<Outgoing<A>>,
) -> bool {
    &&& out.len() == hashes.len()
    &&& forall|i: int|
        0 <= i < out.len() ==> (#[trigger] out[i]).cid == first_cid + i && out[i].reducer
            == calls[hashes[i]].reducer && cloned::<A>(calls[hashes[i]].args, out[i].args)
}

/// Outbound calls by request hash, and the ids of those in flight.
pub struct Outbox<A> {
    calls: OrdMap<Call<A>>,
    by_cid: OrdMap<u64>,
}

impl<A: Clone> Outbox<A> {
    /// The live calls.
    pub closed spec fn calls(&self) -> Map<u64, Call<A>> {
        self.calls@
    }

    pub closed spec fn wf(&self) -> bool {
        &&& self.calls.wf()
        &&& self.by_cid.wf()
        &&& forall|h: u64| #[trigger]
            self.calls@.dom().contains(h) ==> (cid_of(self.calls@[h].state) matches Some(cid)
                ==> self.by_cid@.dom().contains(cid as u64) && self.by_cid@[cid as u64] == h)
        &&& forall|c: u64| #[trigger]
            self.by_cid@.dom().contains(c) ==> c <= u32::MAX && self.calls@.dom().contains(
                self.by_cid@[c],
            ) && cid_of(self.calls@[self.by_cid@[c]].state) == Some(c as u32)
    }

    /// No two calls are in flight under one id.
    pub proof fn law_ids_are_unique(&self, a: u64, b: u64)
        requires
            self.wf(),
            self.calls().dom().contains(a),
            self.calls().dom().contains(b),
            cid_of(self.calls()[a].state) is Some,
            cid_of(self.calls()[a].state) == cid_of(self.calls()[b].state),
        ensures
            a == b,
    {
    }

    /// A sound outbox holds finitely many calls.
    pub proof fn lemma_wf(&self)
        requires
            self.wf(),
        ensures
            self.calls().dom().finite(),
    {
        self.calls.lemma_ks();
    }

    pub fn new() -> (ob: Self)
        ensures
            ob.wf(),
            ob.calls() == Map::<u64, Call<A>>::empty(),
    {
        Outbox { calls: OrdMap::new(), by_cid: OrdMap::new() }
    }

    /// How many calls are live.
    pub fn len(&self) -> (n: usize)
        requires
            self.wf(),
        ensures
            n == self.calls().dom().len(),
    {
        proof {
            self.calls.lemma_ks();
        }
        self.calls.len()
    }

    /// The hashes of the live calls, ascending.
    pub fn hashes(&self) -> (out: Vec<u64>)
        requires
            self.wf(),
        ensures
            ascending(out@),
            forall|h: u64| #[trigger] out@.contains(h) <==> self.calls().dom().contains(h),
    {
        proof {
            self.calls.lemma_ks();
        }
        let n: usize = self.calls.len();
        let mut out: Vec<u64> = Vec::new();
        let mut i: usize = 0;
        while i < n
            invariant
                self.wf(),
                n == self.calls.ks().len(),
                i <= n,
                out@ == self.calls.ks().take(i as int),
            decreases n - i,
        {
            out.push(self.calls.key_at(i));
            i = i + 1;
            assert(out@ =~= self.calls.ks().take(i as int));
        }
        assert(out@ =~= self.calls.ks());
        out
    }

    /// Ask for a call. A call that is already live only takes the new arguments;
    /// a new one may be sent at once.
    pub fn want(&mut self, hash: u64, reducer: &str, args: A, now: u64)
        requires
            old(self).wf(),
        ensures
            final(self).wf(),
            old(self).calls().dom().contains(hash) ==> final(self).calls() == old(
                self).calls().insert(hash, (Call { args, ..old(self).calls()[hash] })),
            !old(self).calls().dom().contains(hash) ==> exists|name: String|
                name@ == reducer@ && final(self).calls() == old(self).calls().insert(
                    hash,
                    #[trigger] fresh_call(name, args, now),
                ),
    {
        let ghost o = *self;
        match self.calls.remove(hash) {
            Some(c) => {
                let next = Call { args, reducer: c.reducer, retry: c.retry, state: c.state };
                self.calls.insert(hash, next);
                proof {
                    assert(self.calls@ =~= o.calls@.insert(
                        hash,
                        Call { args, ..o.calls@[hash] },
                    ));
                }
            },
            None => {
                let name: String = reducer.to_owned();
                let ghost n = name;
                self.calls.insert(
                    hash,
                    Call { reducer: name, args, retry: 0, state: State::Queued { send_at: now } },
                );
                proof {
                    assert(self.calls@ =~= o.calls@.insert(hash, fresh_call(n, args, now)));
                }
            },
        }
    }

    /// Retire a call that is no longer wanted.
    pub fn done(&mut self, hash: u64)
        requires
            old(self).wf(),
        ensures
            final(self).wf(),
            final(self).calls() == old(self).calls().remove(hash),
    {
        if let Some(c) = self.calls.remove(hash) {
            match c.state {
                State::Sent { cid, .. } | State::Awaiting { cid, .. } => {
                    self.by_cid.remove(cid as u64);
                },
                State::Queued { .. } => {},
            }
        }
    }

    /// The call is live.
    pub fn is_queued(&self, hash: u64) -> (b: bool)
        requires
            self.wf(),
        ensures
            b == self.calls().dom().contains(hash),
    {
        self.calls.contains_key(hash)
    }

    /// The call in flight under `cid`.
    pub open spec fn in_flight(&self, hash: u64, cid: u32) -> bool {
        self.calls().dom().contains(hash) && cid_of(self.calls()[hash].state) == Some(cid)
    }

    /// `ok`: the call reached its goal and is retired. An unknown id changes nothing.
    pub fn on_ok(&mut self, cid: u32)
        requires
            old(self).wf(),
        ensures
            final(self).wf(),
            forall|h: u64| #[trigger]
                old(self).in_flight(h, cid) ==> final(self).calls() == old(self).calls().remove(h),
            (forall|h: u64| !(#[trigger] old(self).in_flight(h, cid))) ==> final(self).calls()
                == old(self).calls(),
    {
        let ghost o = *self;
        proof {
            assert forall|h: u64| #[trigger] o.in_flight(h, cid) implies o.by_cid@.dom().contains(
                cid as u64,
            ) && o.by_cid@[cid as u64] == h by {}
        }
        if let Some(hash) = self.by_cid.remove(cid as u64) {
            assert(o.in_flight(hash, cid));
            self.calls.remove(hash);
        }
    }

    /// An error: the call is queued again with back-off. An unknown id changes
    /// nothing.
    pub fn on_err(&mut self, cid: u32, now: u64)
        requires
            old(self).wf(),
        ensures
            final(self).wf(),
            forall|h: u64| #[trigger]
                old(self).in_flight(h, cid) ==> final(self).calls() == old(self).calls().insert(
                    h,
                    requeued(old(self).calls()[h], now),
                ),
            (forall|h: u64| !(#[trigger] old(self).in_flight(h, cid))) ==> final(self).calls()
                == old(self).calls(),
    {
        let ghost o = *self;
        proof {
            assert forall|h: u64| #[trigger] o.in_flight(h, cid) implies o.by_cid@.dom().contains(
                cid as u64,
            ) && o.by_cid@[cid as u64] == h by {}
        }
        if let Some(hash) = self.by_cid.remove(cid as u64) {
            assert(o.in_flight(hash, cid));
            if let Some(c) = self.calls.remove(hash) {
                let next = requeue(c, now);
                self.calls.insert(hash, next);
                assert(self.calls@ =~= o.calls@.insert(hash, requeued(o.calls@[hash], now)));
            }
        }
    }

    /// A promise: the call is held until the promised time. An unknown id changes
    /// nothing.
    pub fn on_promise(&mut self, cid: u32, timeout_us: u64, now: u64)
        requires
            old(self).wf(),
        ensures
            final(self).wf(),
            forall|h: u64| #[trigger]
                old(self).in_flight(h, cid) ==> final(self).calls() == old(self).calls().insert(
                    h,
                    (Call {
                        state: State::Awaiting { cid, expiry: later(now, timeout_us) },
                        ..old(self).calls()[h]
                    }),
                ),
            (forall|h: u64| !(#[trigger] old(self).in_flight(h, cid))) ==> final(self).calls()
                == old(self).calls(),
    {
        let ghost o = *self;
        proof {
            assert forall|h: u64| #[trigger] o.in_flight(h, cid) implies o.by_cid@.dom().contains(
                cid as u64,
            ) && o.by_cid@[cid as u64] == h by {}
        }
        let found: Option<u64> = match self.by_cid.get(cid as u64) {
            Some(h) => Some(*h),
            None => None,
        };
        if let Some(hash) = found {
            assert(o.in_flight(hash, cid));
            if let Some(c) = self.calls.remove(hash) {
                let expiry: u64 = now.saturating_add(timeout_us);
                let next = Call {
                    reducer: c.reducer,
                    args: c.args,
                    retry: c.retry,
                    state: State::Awaiting { cid, expiry },
                };
                self.calls.insert(hash, next);
                assert(self.calls@ =~= o.calls@.insert(
                    hash,
                    Call {
                        state: State::Awaiting { cid, expiry: later(now, timeout_us) },
                        ..o.calls@[hash]
                    },
                ));
            }
        }
    }
}

/// A call that was just asked for.
pub open spec fn fresh_call<A>(reducer: String, args: A, now: u64) -> Call<A> {
    Call { reducer, args, retry: 0, state: State::Queued { send_at: now } }
}

/// Queue a call again, one retry further.
fn requeue<A>(c: Call<A>, now: u64) -> (r: Call<A>)
    ensures
        r == requeued(c, now),
{
    let retry: u32 = c.retry.saturating_add(1);
    let send_at: u64 = now.saturating_add(backoff(retry));
    Call { reducer: c.reducer, args: c.args, retry, state: State::Queued { send_at } }
}

impl<A: Clone> Outbox<A> {
    /// Queue again every call whose time in flight is up.
    fn sweep(&mut self, now: u64)
        requires
            old(self).wf(),
        ensures
            final(self).wf(),
            final(self).calls() == all_timed(old(self).calls(), now),
            forall|c: u64| #[trigger]
                final(self).by_cid@.dom().contains(c) ==> old(self).by_cid@.dom().contains(c),
    {
        let ghost o = *self;
        let ghost f = |c: Call<A>| timed(c, now);
        proof {
            self.calls.lemma_ks();
        }
        let n: usize = self.calls.len();
        let ghost ks = self.calls.ks();
        let mut i: usize = 0;
        while i < n
            invariant
                self.wf(),
                o.wf(),
                n == ks.len(),
                i <= n,
                self.calls.ks() == ks,
                self.calls@.dom() == o.calls@.dom(),
                ascending(ks),
                forall|h: u64| #[trigger] o.calls@.dom().contains(h) <==> ks.contains(h),
                forall|j: int|
                    0 <= j < i ==> self.calls@[#[trigger] ks[j]] == timed(o.calls@[ks[j]], now),
                forall|j: int| i <= j < n ==> self.calls@[#[trigger] ks[j]] == o.calls@[ks[j]],
                forall|c: u64| #[trigger]
                    self.by_cid@.dom().contains(c) ==> o.by_cid@.dom().contains(c),
            decreases n - i,
        {
            let ghost before = *self;
            let h: u64 = self.calls.key_at(i);
            assert(ks[i as int] == h);
            let state: State = self.calls.val_at(i).state;
            let lost: Option<u32> = match state {
                State::Sent { cid, expiry } | State::Awaiting { cid, expiry } => if now >= expiry {
                    Some(cid)
                } else {
                    None
                },
                State::Queued { .. } => None,
            };
            if let Some(cid) = lost {
                self.by_cid.remove(cid as u64);
                match self.calls.get_mut(h) {
                    Some(c) => {
                        let retry: u32 = c.retry.saturating_add(1);
                        let send_at: u64 = now.saturating_add(backoff(retry));
                        c.retry = retry;
                        c.state = State::Queued { send_at };
                    },
                    None => {},
                }
                proof {
                    assert(self.calls@.dom() =~= o.calls@.dom());
                    assert(self.calls@[h] == timed(o.calls@[h], now));
                    assert forall|x: u64| #[trigger] self.calls@.dom().contains(x) implies (cid_of(
                        self.calls@[x].state,
                    ) matches Some(c) ==> self.by_cid@.dom().contains(c as u64)
                        && self.by_cid@[c as u64] == x) by {
                        if x != h {
                            assert(before.calls@.dom().contains(x));
                        }
                    }
                    assert forall|c: u64| #[trigger] self.by_cid@.dom().contains(c) implies c
                        <= u32::MAX && self.calls@.dom().contains(self.by_cid@[c]) && cid_of(
                        self.calls@[self.by_cid@[c]].state,
                    ) == Some(c as u32) by {
                        assert(before.by_cid@.dom().contains(c));
                        assert(self.by_cid@[c] != h);
                    }
                }
            }
            i = i + 1;
        }
        proof {
            assert(self.calls@ =~= all_timed(o.calls@, now)) by {
                assert forall|h: u64| o.calls@.dom().contains(h) implies self.calls@[h] == timed(
                    o.calls@[h],
                    now,
                ) by {
                    let j = ks.index_of(h);
                    assert(ks[j] == h);
                }
            }
        }
    }

    /// The calls that are due, ascending.
    fn due_list(&self, now: u64) -> (hashes: Vec<u64>)
        requires
            self.wf(),
        ensures
            is_due_list(self.calls(), now, hashes@),
            hashes@.len() <= self.calls().dom().len(),
    {
        proof {
            self.calls.lemma_ks();
        }
        let n: usize = self.calls.len();
        let mut hashes: Vec<u64> = Vec::new();
        let mut i: usize = 0;
        while i < n
            invariant
                self.wf(),
                n == self.calls.ks().len(),
                i <= n,
                hashes@.len() <= i,
                ascending(self.calls.ks()),
                ascending(hashes@),
                forall|m: int|
                    0 <= m < hashes@.len() ==> self.calls@.dom().contains(#[trigger] hashes@[m])
                        && due(self.calls@[hashes@[m]], now) && (i < n ==> hashes@[m]
                        < self.calls.ks()[i as int]),
                forall|m: int|
                    0 <= m < i && due(self.calls@[#[trigger] self.calls.ks()[m]], now)
                        ==> hashes@.contains(self.calls.ks()[m]),
            decreases n - i,
        {
            let h: u64 = self.calls.key_at(i);
            let ghost before = hashes@;
            let ready: bool = match self.calls.val_at(i).state {
                State::Queued { send_at } => now >= send_at,
                State::Sent { .. } | State::Awaiting { .. } => false,
            };
            if ready {
                hashes.push(h);
                assert(hashes@[before.len() as int] == h);
            }
            proof {
                assert forall|m: int| 0 <= m < i + 1 && due(
                    self.calls@[#[trigger] self.calls.ks()[m]],
                    now,
                ) implies hashes@.contains(self.calls.ks()[m]) by {
                    if m < i {
                        let a = before.index_of(self.calls.ks()[m]);
                        assert(hashes@[a] == before[a]);
                    }
                }
            }
            i = i + 1;
        }
        proof {
            assert forall|h: u64| #[trigger] hashes@.contains(h) <==> self.calls@.dom().contains(h)
                && due(self.calls@[h], now) by {
                if hashes@.contains(h) {
                    let m = hashes@.index_of(h);
                    assert(hashes@[m] == h);
                }
                if self.calls@.dom().contains(h) {
                    let m = self.calls.ks().index_of(h);
                    assert(self.calls.ks()[m] == h);
                }
            }
        }
        hashes
    }

    /// Every id in flight is below `next_cid`.
    pub closed spec fn ids_below(&self, next_cid: u32) -> bool {
        forall|c: u64| #[trigger] self.by_cid@.dom().contains(c) ==> c < next_cid
    }

    /// What it means that every id in flight is below `next_cid`.
    pub proof fn lemma_ids_below(&self, next_cid: u32)
        requires
            self.wf(),
        ensures
            self.ids_below(next_cid) <==> forall|h: u64| #[trigger]
                self.calls().dom().contains(h) ==> (cid_of(self.calls()[h].state) matches Some(c)
                    ==> c < next_cid),
    {
        if forall|h: u64| #[trigger]
            self.calls().dom().contains(h) ==> (cid_of(self.calls()[h].state) matches Some(c) ==> c
                < next_cid) {
            assert forall|c: u64| #[trigger] self.by_cid@.dom().contains(c) implies c < next_cid by {
                assert(self.calls().dom().contains(self.by_cid@[c]));
            }
        }
        if self.ids_below(next_cid) {
            assert forall|h: u64| #[trigger] self.calls().dom().contains(h) implies (cid_of(
                self.calls()[h].state,
            ) matches Some(c) ==> c < next_cid) by {
                if cid_of(self.calls()[h].state) is Some {
                    let c = cid_of(self.calls()[h].state)->0;
                    assert(self.by_cid@.dom().contains(c as u64));
                }
            }
        }
    }

    /// Queue again what has timed out, then emit every call that is due, under ids
    /// counted up from `next_cid`.
    pub fn pump(&mut self, now: u64, next_cid: &mut u32) -> (out: Vec<Outgoing<A>>)
        requires
            old(self).wf(),
            old(self).ids_below(*old(next_cid)),
            *old(next_cid) + old(self).calls().dom().len() <= u32::MAX,
        ensures
            final(self).wf(),
            final(self).ids_below(*final(next_cid)),
            *final(next_cid) == *old(next_cid) + out@.len(),
            exists|hashes: Seq<u64>| #[trigger]
                is_due_list(all_timed(old(self).calls(), now), now, hashes) && is_sending(
                    old(self).calls(),
                    hashes,
                    *old(next_cid),
                    out@,
                ) && final(self).calls() == all_sent(
                    all_timed(old(self).calls(), now),
                    hashes,
                    *old(next_cid),
                    now,
                ),
    {
        let ghost o = *self;
        let ghost first = *next_cid;
        self.sweep(now);
        let ghost mid = *self;
        proof {
            o.calls.lemma_ks();
            mid.calls.lemma_ks();
            assert(mid.calls().dom() =~= o.calls().dom());
        }
        let hashes = self.due_list(now);
        proof {
            assert(hashes@.take(0) =~= Seq::empty());
        }
        let n: usize = hashes.len();
        let mut out: Vec<Outgoing<A>> = Vec::new();
        let mut i: usize = 0;
        while i < n
            invariant
                self.wf(),
                o.wf(),
                mid.wf(),
                i <= n,
                n == hashes@.len(),
                first + n <= u32::MAX,
                *next_cid == first + i,
                mid.calls() == all_timed(o.calls(), now),
                is_due_list(mid.calls(), now, hashes@),
                self.ids_below(*next_cid),
                out@.len() == i,
                self.calls() == all_sent(mid.calls(), hashes@.take(i as int), first, now),
                self.calls().dom() == mid.calls().dom(),
                forall|h: u64| #[trigger]
                    mid.calls().dom().contains(h) && !hashes@.take(i as int).contains(h)
                        ==> self.calls()[h] == mid.calls()[h],
                forall|j: int|
                    0 <= j < i ==> (#[trigger] out@[j]).cid == first + j && out@[j].reducer
                        == o.calls()[hashes@[j]].reducer && cloned::<A>(
                        o.calls()[hashes@[j]].args,
                        out@[j].args,
                    ),
            decreases n - i,
        {
            let hash: u64 = hashes[i];
            let cid: u32 = *next_cid;
            let ghost before = *self;
            let ghost done = hashes@.take(i as int);
            proof {
                assert(hashes@.contains(hash));
                assert(!done.contains(hash)) by {
                    if done.contains(hash) {
                        let j = done.index_of(hash);
                        assert(hashes@[j] == hash);
                    }
                }
                assert(before.calls()[hash] == mid.calls()[hash]);
                assert(hashes@.take(i + 1).drop_last() =~= done);
                assert(hashes@.take(i + 1).last() == hash);
                assert(!before.by_cid@.dom().contains(cid as u64));
            }
            match self.calls.get_mut(hash) {
                Some(c) => {
                    let args = c.args.clone();
                    let reducer = c.reducer.clone();
                    c.state = State::Sent { cid, expiry: now.saturating_add(INFLIGHT_TTL_US) };
                    out.push(Outgoing { cid, reducer, args });
                },
                None => {},
            }
            self.by_cid.insert(cid as u64, hash);
            *next_cid = cid + 1;
            proof {
                assert(mid.calls()[hash].args == o.calls()[hash].args);
                assert(mid.calls()[hash].reducer == o.calls()[hash].reducer);
                assert(self.calls() =~= all_sent(mid.calls(), hashes@.take(i + 1), first, now));
                assert(self.calls().dom() =~= mid.calls().dom());
                assert forall|h: u64| #[trigger]
                    mid.calls().dom().contains(h) && !hashes@.take(i + 1).contains(h) implies self.calls()[h]
                    == mid.calls()[h] by {
                    assert(hashes@.take(i + 1)[i as int] == hash);
                    if done.contains(h) {
                        let j = done.index_of(h);
                        assert(hashes@.take(i + 1)[j] == h);
                    }
                }
                assert forall|x: u64| #[trigger] self.calls@.dom().contains(x) implies (cid_of(
                    self.calls@[x].state,
                ) matches Some(c) ==> self.by_cid@.dom().contains(c as u64)
                    && self.by_cid@[c as u64] == x) by {
                    if x != hash {
                        assert(before.calls@.dom().contains(x));
                    }
                }
                assert forall|c: u64| #[trigger] self.by_cid@.dom().contains(c) implies c <= u32::MAX
                    && self.calls@.dom().contains(self.by_cid@[c]) && cid_of(
                    self.calls@[self.by_cid@[c]].state,
                ) == Some(c as u32) by {
                    if c != cid as u64 {
                        assert(before.by_cid@.dom().contains(c));
                        assert(due(before.calls@[hash], now));
                        assert(before.by_cid@[c] != hash);
                    }
                }
            }
            i = i + 1;
        }
        proof {
            assert(hashes@.take(n as int) =~= hashes@);
            assert(is_sending(o.calls(), hashes@, first, out@));
        }
        out
    }
}

/// A call in flight is not sent again before its time is up.
pub proof fn law_in_flight_is_not_resent<A>(c: Call<A>, now: u64)
    requires
        expiry_of(c.state) is Some,
        now < expiry_of(c.state)->0,
    ensures
        timed(c, now) == c,
        !due(timed(c, now), now),
{
}

/// What a pump sends, and that it sends everything at once: each call goes out at most
/// once, under ids counted up; a call in flight whose time is not up stays where it is, and
/// one whose time is up backs off first; and pumping again at the same moment sends nothing.
pub proof fn law_second_pump_is_empty<A: Clone>(
    before: Map<u64, Call<A>>,
    after: Map<u64, Call<A>>,
    hashes: Seq<u64>,
    first_cid: u32,
    out: Seq<Outgoing<A>>,
    now: u64,
)
    requires
        now < u64::MAX,
        is_due_list(all_timed(before, now), now, hashes),
        is_sending(before, hashes, first_cid, out),
        after == all_sent(all_timed(before, now), hashes, first_cid, now),
    ensures
        hashes.no_duplicates(),
        forall|i: int| 0 <= i < out.len() ==> (#[trigger] out[i]).cid == first_cid + i,
        forall|h: u64| #[trigger]
            hashes.contains(h) ==> before.dom().contains(h) && expiry_of(before[h].state) is None,
        after.dom() == before.dom(),
        is_due_list(all_timed(after, now), now, Seq::empty()),
{
    let swept = all_timed(before, now);
    assert forall|h: u64| #[trigger] hashes.contains(h) implies before.dom().contains(h)
        && expiry_of(before[h].state) is None by {
        assert(swept[h] == timed(before[h], now));
        if expiry_of(before[h].state) is Some {
            law_backoff_is_bounded(requeued(before[h], now).retry);
        }
    }
    assert(hashes.no_duplicates());
    assert forall|j: int| 0 <= j < hashes.len() implies swept.dom().contains(#[trigger] hashes[j]) by {
        assert(hashes.contains(hashes[j]));
    }
    lemma_sent(swept, hashes, first_cid, now);
    assert(after.dom() =~= before.dom());
    assert forall|h: u64| !(all_timed(after, now).dom().contains(h) && #[trigger] due(
        all_timed(after, now)[h],
        now,
    )) by {
        if after.dom().contains(h) {
            assert(all_timed(after, now)[h] == timed(after[h], now));
            if !hashes.contains(h) {
                assert(after[h] == swept[h]);
                assert(swept[h] == timed(before[h], now));
                assert(!due(swept[h], now));
            }
        }
    }
}

/// Sending marks the listed calls as sent, and no others.
proof fn lemma_sent<A>(calls: Map<u64, Call<A>>, hashes: Seq<u64>, first_cid: u32, now: u64)
    requires
        forall|j: int| 0 <= j < hashes.len() ==> calls.dom().contains(#[trigger] hashes[j]),
    ensures
        all_sent(calls, hashes, first_cid, now).dom() == calls.dom(),
        forall|h: u64| #[trigger]
            calls.dom().contains(h) ==> if hashes.contains(h) {
                all_sent(calls, hashes, first_cid, now)[h].state matches State::Sent {
                    expiry,
                    ..
                } && expiry == later(now, INFLIGHT_TTL_US)
            } else {
                all_sent(calls, hashes, first_cid, now)[h] == calls[h]
            },
    decreases hashes.len(),
{
    if hashes.len() > 0 {
        let rest = hashes.drop_last();
        assert forall|j: int| 0 <= j < rest.len() implies calls.dom().contains(#[trigger] rest[j]) by {
            assert(rest[j] == hashes[j]);
        }
        lemma_sent(calls, rest, first_cid, now);
        assert(calls.dom().contains(hashes[hashes.len() - 1]));
        assert(all_sent(calls, hashes, first_cid, now).dom() =~= calls.dom());
        lemma_prefix(hashes, hashes.len() - 1);
        assert(hashes.take(hashes.len() as int) =~= hashes);
        assert(hashes.take(hashes.len() - 1) =~= rest);
    }
}

/// Nothing latches: a queued call is due once its time has come, and a call in
/// flight whose reply never comes is due again within the back-off cap of its
/// expiry.
pub proof fn law_nothing_latches<A>(c: Call<A>, sweep: u64, t: u64)
    requires
        expiry_of(c.state) matches Some(expiry) ==> sweep >= expiry,
        cid_of(c.state) is None ==> due(c, t),
        t >= later(sweep, BACKOFF_CAP_US),
    ensures
        due(timed(c, sweep), t),
{
    law_backoff_is_bounded(timed(c, sweep).retry);
}

/// Back-off lies between the base and the cap.
pub proof fn law_backoff_is_bounded(retry: u32)
    ensures
        BACKOFF_BASE_US <= backoff_spec(retry) <= BACKOFF_CAP_US,
{
    let k: nat = if retry < 8 {
        retry as nat
    } else {
        8
    };
    vstd::arithmetic::power2::lemma_pow2_pos(k);
}

/// Back-off never shrinks with more retries.
pub proof fn law_backoff_grows(a: u32, b: u32)
    requires
        a <= b,
    ensures
        backoff_spec(a) <= backoff_spec(b),
{
    let x: nat = if a < 8 {
        a as nat
    } else {
        8
    };
    let y: nat = if b < 8 {
        b as nat
    } else {
        8
    };
    if x < y {
        vstd::arithmetic::power2::lemma_pow2_strictly_increases(x, y);
    }
}

/// A call that failed waits out its back-off, and is due after it.
pub proof fn law_failure_backs_off<A>(c: Call<A>, now: u64, t: u64)
    requires
        c.retry < u32::MAX,
    ensures
        due(requeued(c, now), t) <==> t >= later(now, backoff_spec((c.retry + 1) as u32)),
{
}

} // verus!
