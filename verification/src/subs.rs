//! The table of open zone subscriptions, and the regions they hold.
use vstd::prelude::*;

use crate::codec::Codec;
use crate::ordmap::OrdMap;
use crate::zones::{should_close, DataType, RegionBits, SubState, ZoneIntent, ZoneTier};

verus! {

use crate::ordmap::ascending;
use crate::zones::tolerance;

/// A subscription is named by its zone and what it streams.
pub type SubKey = (u64, DataType);

/// A tier asks for this subscription: cards while Active or Hot, tiles while the
/// zone is tracked at all.
pub open spec fn wants(data: DataType, tier: Option<ZoneTier>) -> bool {
    match data {
        DataType::Card => tier == Some(ZoneTier::Active) || tier == Some(ZoneTier::Hot),
        DataType::Zone => tier is Some,
    }
}

/// A map as a partial function.
pub open spec fn lookup<K, V>(m: Map<K, V>, k: K) -> Option<V> {
    if m.dom().contains(k) {
        Some(m[k])
    } else {
        None
    }
}

/// Every entry of `a` is in `b`.
pub open spec fn within<K, V>(a: Map<K, V>, b: Map<K, V>) -> bool {
    forall|k: K| #[trigger] a.dom().contains(k) ==> b.dom().contains(k) && a[k] == b[k]
}

/// What becomes of a subscription when its zone's tier is looked at again. Being
/// wanted opens and refreshes it; ceasing to be wanted makes it a candidate, as of
/// now; a candidate stays what it was.
pub open spec fn retuned(sub: Option<SubState>, wanted: bool, now: u64) -> Option<SubState> {
    if wanted {
        Some(SubState { wanted: true, last_present_ms: now, updates_since_present: 0 })
    } else {
        match sub {
            Some(s) => if s.wanted {
                Some(SubState { wanted: false, last_present_ms: now, updates_since_present: 0 })
            } else {
                Some(s)
            },
            None => None,
        }
    }
}

/// Every subscription looked at again under the given tiers.
pub open spec fn touched(
    before: Map<SubKey, SubState>,
    tiers: Map<u64, ZoneTier>,
    now: u64,
) -> Map<SubKey, SubState> {
    Map::new(
        |k: SubKey| retuned(lookup(before, k), wants(k.1, lookup(tiers, k.0)), now) is Some,
        |k: SubKey| retuned(lookup(before, k), wants(k.1, lookup(tiers, k.0)), now)->0,
    )
}

/// What becomes of a subscription when an update arrives on it. Only a candidate
/// is affected: it counts the update, and closes once it has had too many.
pub open spec fn jostled(sub: Option<SubState>, now: u64) -> Option<SubState> {
    match sub {
        Some(s) => {
            if s.wanted {
                Some(s)
            } else {
                let since = if now >= s.last_present_ms {
                    (now - s.last_present_ms) as u64
                } else {
                    0
                };
                if s.updates_since_present + 1 > tolerance(since) {
                    None
                } else {
                    Some(
                        SubState {
                            updates_since_present: (s.updates_since_present + 1) as u32,
                            ..s
                        },
                    )
                }
            }
        },
        None => None,
    }
}

/// The regions in which a tile subscription is open.
pub open spec fn regions_in<C: Codec>(codec: C, keys: Set<SubKey>) -> Set<u64> {
    Set::new(|r: u64| exists|z: u64| #[trigger] holds_region(codec, keys, z, r))
}

/// The tile subscription of `zone` is open and lies in region `r`.
pub open spec fn holds_region<C: Codec>(codec: C, keys: Set<SubKey>, zone: u64, r: u64) -> bool {
    keys.contains((zone, DataType::Zone)) && codec.region_and_bit(zone).0 == r
}

/// `x` is what changes between the open subscriptions `before` and `after`.
pub open spec fn is_change<C: Codec>(
    codec: C,
    before: Set<SubKey>,
    after: Set<SubKey>,
    x: ZoneIntent,
) -> bool {
    match x {
        ZoneIntent::Subscribe { zone, data, on } => if on {
            after.contains((zone, data)) && !before.contains((zone, data))
        } else {
            before.contains((zone, data)) && !after.contains((zone, data))
        },
        ZoneIntent::Region { region, subscribed } => if subscribed {
            regions_in(codec, after).contains(region) && !regions_in(codec, before).contains(region)
        } else {
            regions_in(codec, before).contains(region) && !regions_in(codec, after).contains(region)
        },
    }
}

/// `x` should not come before `y`: a subscription is not closed before another is opened,
/// and a zone's tiles are not opened before its cards.
pub open spec fn out_of_turn(x: ZoneIntent, y: ZoneIntent) -> bool {
    match (x, y) {
        (
            ZoneIntent::Subscribe { zone: a, data: c, on: p },
            ZoneIntent::Subscribe { zone: b, data: d, on: q },
        ) => (!p && q) || (p && q && a == b && c == DataType::Zone && d == DataType::Card),
        _ => false,
    }
}

/// What is said of a region follows at once on the tile subscription that is the first to
/// hold it, or was the last.
pub open spec fn led<C: Codec>(codec: C, said: Seq<ZoneIntent>, i: int) -> bool {
    match said[i] {
        ZoneIntent::Region { region, subscribed } => i > 0 && (said[i - 1] matches ZoneIntent::Subscribe {
            zone,
            data,
            on,
        } && data == DataType::Zone && on == subscribed && codec.region_and_bit(zone).0 == region),
        ZoneIntent::Subscribe { .. } => true,
    }
}

/// The intents come in a sound order.
pub open spec fn in_turn<C: Codec>(codec: C, said: Seq<ZoneIntent>) -> bool {
    &&& forall|i: int| 0 <= i < said.len() ==> #[trigger] led(codec, said, i)
    &&& forall|i: int, j: int|
        0 <= i < j < said.len() ==> !out_of_turn(#[trigger] said[i], #[trigger] said[j])
}

/// Subscriptions are closed in the order in which they were last present.
pub open spec fn closes_oldest_first(said: Seq<ZoneIntent>, states: Map<SubKey, SubState>) -> bool {
    forall|i: int, j: int|
        0 <= i < j < said.len() ==> closed_in_order(#[trigger] said[i], #[trigger] said[j], states)
}

/// If both close a subscription, the first was present no later than the second.
pub open spec fn closed_in_order(
    x: ZoneIntent,
    y: ZoneIntent,
    states: Map<SubKey, SubState>,
) -> bool {
    match (x, y) {
        (
            ZoneIntent::Subscribe { zone: a, data: c, on: p },
            ZoneIntent::Subscribe { zone: b, data: d, on: q },
        ) => !p && !q ==> states[(a, c)].last_present_ms <= states[(b, d)].last_present_ms,
        _ => true,
    }
}

/// The intents say exactly what changed, each thing once and in a sound order.
pub open spec fn announces<C: Codec>(
    codec: C,
    said: Seq<ZoneIntent>,
    before: Set<SubKey>,
    after: Set<SubKey>,
) -> bool {
    &&& said.no_duplicates()
    &&& in_turn(codec, said)
    &&& forall|x: ZoneIntent| #[trigger] said.contains(x) <==> is_change(codec, before, after, x)
}

/// The tile subscription of a zone.
pub open spec fn tile_key(zone: u64) -> SubKey {
    (zone, DataType::Zone)
}

/// The ceiling was enforced: only candidates went, the least recently present
/// first, and no more of them than it took.
pub open spec fn evicted(
    before: Map<SubKey, SubState>,
    after: Map<SubKey, SubState>,
    cap: nat,
) -> bool {
    &&& within(after, before)
    &&& forall|k: SubKey| #[trigger]
        before.dom().contains(k) && !after.dom().contains(k) ==> !before[k].wanted
    &&& forall|k: SubKey, c: SubKey|
        before.dom().contains(k) && !after.dom().contains(k) && after.dom().contains(c)
            && !after[c].wanted ==> (#[trigger] before[k]).last_present_ms <= (
        #[trigger] after[c]).last_present_ms
    &&& before.dom().len() <= cap ==> after == before
    &&& before.dom().len() > cap ==> after.dom().len() >= cap
    &&& after.dom().len() > cap ==> forall|k: SubKey| #[trigger]
        after.dom().contains(k) ==> after[k].wanted
}

/// Open subscriptions, the regions they hold, what is known of those regions, and
/// the decisions not yet drained.
pub struct SubTable {
    card: OrdMap<SubState>,
    zone: OrdMap<SubState>,
    held: OrdMap<OrdMap<()>>,
    bits: OrdMap<RegionBits>,
    intents: Vec<ZoneIntent>,
}

impl SubTable {
    spec fn of(&self, data: DataType) -> Map<u64, SubState> {
        match data {
            DataType::Card => self.card@,
            DataType::Zone => self.zone@,
        }
    }

    /// The open subscriptions.
    pub closed spec fn subs(&self) -> Map<SubKey, SubState> {
        Map::new(
            |k: SubKey| self.of(k.1).dom().contains(k.0),
            |k: SubKey| self.of(k.1)[k.0],
        )
    }

    /// The known bits per region.
    pub closed spec fn bits(&self) -> Map<u64, RegionBits> {
        self.bits@
    }

    /// The decisions not yet drained.
    pub closed spec fn pending(&self) -> Seq<ZoneIntent> {
        self.intents@
    }

    pub closed spec fn wf<C: Codec>(&self, codec: C) -> bool {
        &&& codec.wf()
        &&& self.card.wf()
        &&& self.zone.wf()
        &&& self.held.wf()
        &&& self.bits.wf()
        &&& forall|r: u64, z: u64| #[trigger]
            self.held_in(r, z) <==> holds_region(codec, self.subs().dom(), z, r)
        &&& forall|r: u64| #[trigger]
            self.held@.dom().contains(r) ==> self.held@[r].wf() && exists|z: u64|
                self.held_in(r, z)
        &&& forall|k: SubKey| #[trigger]
            self.subs().dom().contains(k) ==> self.subs()[k].updates_since_present <= 5 && (
            self.subs()[k].wanted ==> self.subs()[k].updates_since_present == 0)
    }

    spec fn held_in(&self, r: u64, z: u64) -> bool {
        self.held@.dom().contains(r) && self.held@[r]@.dom().contains(z)
    }

    /// The table moved from `old` to `self`, and said so: the decisions added are
    /// exactly what changed, and the bits of a region go with its last zone.
    pub open spec fn follows<C: Codec>(&self, codec: C, old: SubTable) -> bool {
        &&& old.pending().len() <= self.pending().len()
        &&& self.pending().take(old.pending().len() as int) == old.pending()
        &&& announces(
            codec,
            self.pending().skip(old.pending().len() as int),
            old.subs().dom(),
            self.subs().dom(),
        )
        &&& self.bits() == old.bits().remove_keys(
            regions_in(codec, old.subs().dom()).difference(
                regions_in(codec, self.subs().dom()),
            ),
        )
    }

    /// An update count never exceeds what a candidate can survive.
    pub proof fn lemma_wf<C: Codec>(&self, codec: C)
        requires
            self.wf(codec),
        ensures
            codec.wf(),
            self.subs().dom().finite(),
            forall|k: SubKey| #[trigger]
                self.subs().dom().contains(k) ==> self.subs()[k].updates_since_present <= 5,
    {
        self.lemma_count();
    }

    proof fn lemma_count(&self)
        requires
            self.card.wf(),
            self.zone.wf(),
        ensures
            self.subs().dom().finite(),
            self.subs().dom().len() == self.card@.dom().len() + self.zone@.dom().len(),
    {
        self.card.lemma_ks();
        self.zone.lemma_ks();
        let f = |z: u64| (z, DataType::Card);
        let g = |z: u64| (z, DataType::Zone);
        let a = self.card@.dom().map(f);
        let b = self.zone@.dom().map(g);
        vstd::set_lib::lemma_map_size(self.card@.dom(), a, f);
        vstd::set_lib::lemma_map_size(self.zone@.dom(), b, g);
        assert(a.disjoint(b));
        vstd::set_lib::lemma_set_disjoint_lens(a, b);
        assert forall|k: SubKey| self.subs().dom().contains(k) <==> (a + b).contains(k) by {
            match k.1 {
                DataType::Card => {
                    if self.card@.dom().contains(k.0) {
                        assert(f(k.0) == k);
                    }
                },
                DataType::Zone => {
                    if self.zone@.dom().contains(k.0) {
                        assert(g(k.0) == k);
                    }
                },
            }
        }
        assert(self.subs().dom() =~= a + b);
    }

    /// Bits and decisions do not matter to the rest of the table.
    proof fn lemma_same_subs<C: Codec>(&self, codec: C, old: SubTable)
        requires
            old.wf(codec),
            self.card == old.card,
            self.zone == old.zone,
            self.held == old.held,
            self.bits.wf(),
        ensures
            self.wf(codec),
            self.subs() == old.subs(),
    {
        assert(self.subs() =~= old.subs());
        assert forall|r: u64, z: u64| #[trigger] self.held_in(r, z) <==> holds_region(
            codec,
            self.subs().dom(),
            z,
            r,
        ) by {
            assert(self.held_in(r, z) == old.held_in(r, z));
        }
        assert forall|r: u64| #[trigger] self.held@.dom().contains(r) implies self.held@[r].wf()
            && exists|z: u64| self.held_in(r, z) by {
            let z = choose|z: u64| old.held_in(r, z);
            assert(self.held_in(r, z));
        }
    }

    /// Nothing said, nothing changed.
    proof fn lemma_stays<C: Codec>(&self, codec: C, old: SubTable)
        requires
            self.subs().dom() == old.subs().dom(),
            self.bits() == old.bits(),
            self.pending() == old.pending(),
        ensures
            self.follows(codec, old),
    {
        let n = old.pending().len() as int;
        assert(self.pending().take(n) =~= old.pending());
        let said = self.pending().skip(n);
        assert(said =~= Seq::empty());
        let gone = regions_in(codec, old.subs().dom()).difference(
            regions_in(codec, self.subs().dom()),
        );
        assert(gone =~= Set::empty());
        assert(old.bits().remove_keys(gone) =~= old.bits());
    }

    /// Two moves in a row are one, as long as the second takes nothing back.
    proof fn lemma_follows<C: Codec>(codec: C, a: SubTable, b: SubTable, c: SubTable)
        requires
            b.follows(codec, a),
            c.follows(codec, b),
            forall|k: SubKey| #[trigger]
                b.subs().dom().contains(k) && !a.subs().dom().contains(k)
                    ==> c.subs().dom().contains(k),
            forall|k: SubKey| #[trigger]
                c.subs().dom().contains(k) && !b.subs().dom().contains(k)
                    ==> !a.subs().dom().contains(k),
            forall|r: u64| #[trigger]
                regions_in(codec, c.subs().dom()).contains(r) && !regions_in(
                    codec,
                    b.subs().dom(),
                ).contains(r) ==> !regions_in(codec, a.subs().dom()).contains(r),
            a.subs().dom().subset_of(b.subs().dom()) || c.subs().dom().subset_of(b.subs().dom()),
            forall|z: u64|
                !(b.subs().dom().contains(#[trigger] tile_key(z)) && !a.subs().dom().contains(
                    tile_key(z),
                ) && c.subs().dom().contains((z, DataType::Card)) && !b.subs().dom().contains(
                    (z, DataType::Card),
                )),
        ensures
            c.follows(codec, a),
            c.pending().skip(a.pending().len() as int) == b.pending().skip(
                a.pending().len() as int,
            ) + c.pending().skip(b.pending().len() as int),
    {
        let (ka, kb, kc) = (a.subs().dom(), b.subs().dom(), c.subs().dom());
        let (ra, rb, rc) = (regions_in(codec, ka), regions_in(codec, kb), regions_in(codec, kc));
        assert forall|r: u64| #[trigger] rb.contains(r) && !ra.contains(r) implies rc.contains(
            r,
        ) by {
            let z = choose|z: u64| #[trigger] holds_region(codec, kb, z, r);
            assert(!holds_region(codec, ka, z, r));
            assert(kb.contains((z, DataType::Zone)));
            assert(holds_region(codec, kc, z, r));
        }
        let (na, nb) = (a.pending().len() as int, b.pending().len() as int);
        let s1 = b.pending().skip(na);
        let s2 = c.pending().skip(nb);
        let s = c.pending().skip(na);
        assert(c.pending().take(na) =~= a.pending()) by {
            assert(c.pending().take(nb).take(na) =~= c.pending().take(na));
        }
        assert(s =~= s1 + s2) by {
            assert forall|i: int| 0 <= i < s.len() implies s[i] == (s1 + s2)[i] by {
                if i < s1.len() {
                    assert(c.pending()[i + na] == c.pending().take(nb)[i + na]);
                }
            }
        }
        assert forall|x: ZoneIntent| #[trigger] s.contains(x) <==> is_change(codec, ka, kc, x) by {
            if s.contains(x) {
                let i = s.index_of(x);
                assert(s[i] == x);
                if i < s1.len() {
                    assert(s1[i] == x);
                    assert(s1.contains(x));
                } else {
                    assert(s2[i - s1.len()] == x);
                    assert(s2.contains(x));
                }
            }
            if s1.contains(x) {
                let i = s1.index_of(x);
                assert(s[i] == x);
            }
            if s2.contains(x) {
                let i = s2.index_of(x);
                assert(s[i + s1.len()] == x);
            }
            match x {
                ZoneIntent::Subscribe { zone, data, on } => {
                    let k = (zone, data);
                    assert(ka.contains(k) || !ka.contains(k));
                    assert(kb.contains(k) || !kb.contains(k));
                },
                ZoneIntent::Region { region, subscribed } => {
                    assert(rb.contains(region) || !rb.contains(region));
                },
            }
        }
        assert(s.no_duplicates()) by {
            assert forall|i: int, j: int| 0 <= i < s.len() && 0 <= j < s.len() && i != j implies s[i]
                != s[j] by {
                if i < s1.len() && j >= s1.len() {
                    assert(s1.contains(s1[i]));
                    assert(s2.contains(s2[j - s1.len()]));
                    lemma_said_once(codec, ka, kb, kc, s[i]);
                }
                if j < s1.len() && i >= s1.len() {
                    assert(s1.contains(s1[j]));
                    assert(s2.contains(s2[i - s1.len()]));
                    lemma_said_once(codec, ka, kb, kc, s[j]);
                }
            }
        }
        assert(in_turn(codec, s)) by {
            assert forall|i: int| 0 <= i < s.len() implies #[trigger] led(codec, s, i) by {
                if i < s1.len() {
                    assert(led(codec, s1, i));
                } else {
                    assert(led(codec, s2, i - s1.len()));
                }
            }
            assert forall|i: int, j: int| 0 <= i < j < s.len() implies !out_of_turn(
                #[trigger] s[i],
                #[trigger] s[j],
            ) by {
                if j < s1.len() {
                    assert(!out_of_turn(s1[i], s1[j]));
                } else if i >= s1.len() {
                    assert(!out_of_turn(s2[i - s1.len()], s2[j - s1.len()]));
                } else {
                    assert(s1.contains(s1[i]));
                    assert(s2.contains(s2[j - s1.len()]));
                    match (s[i], s[j]) {
                        (
                            ZoneIntent::Subscribe { zone: x, data: d, on: p },
                            ZoneIntent::Subscribe { zone: y, data: e, on: q },
                        ) => {
                            assert(tile_key(x) == (x, DataType::Zone));
                            assert(ka.contains((x, d)) || !ka.contains((x, d)));
                            assert(kc.contains((y, e)) || !kc.contains((y, e)));
                        },
                        _ => {},
                    }
                }
            }
        }
        assert(c.bits() =~= a.bits().remove_keys(ra.difference(rc)));
    }

    pub fn new<C: Codec>(codec: &C) -> (t: Self)
        requires
            codec.wf(),
        ensures
            t.wf(*codec),
            t.subs() == Map::<SubKey, SubState>::empty(),
            t.bits() == Map::<u64, RegionBits>::empty(),
            t.pending() == Seq::<ZoneIntent>::empty(),
    {
        let t = SubTable {
            card: OrdMap::new(),
            zone: OrdMap::new(),
            held: OrdMap::new(),
            bits: OrdMap::new(),
            intents: Vec::new(),
        };
        assert(t.subs() =~= Map::empty());
        t
    }

    /// Drain the decisions.
    pub fn take_intents<C: Codec>(&mut self, codec: &C) -> (out: Vec<ZoneIntent>)
        requires
            old(self).wf(*codec),
        ensures
            final(self).wf(*codec),
            out@ == old(self).pending(),
            final(self).pending() == Seq::<ZoneIntent>::empty(),
            final(self).subs() == old(self).subs(),
            final(self).bits() == old(self).bits(),
    {
        let mut out: Vec<ZoneIntent> = Vec::new();
        std::mem::swap(&mut out, &mut self.intents);
        proof {
            self.lemma_same_subs(*codec, *old(self));
        }
        out
    }

    fn get(&self, zone: u64, data: DataType) -> (r: Option<SubState>)
        requires
            self.card.wf(),
            self.zone.wf(),
        ensures
            r == lookup(self.subs(), (zone, data)),
    {
        let found = match data {
            DataType::Card => self.card.get(zone),
            DataType::Zone => self.zone.get(zone),
        };
        match found {
            Some(s) => Some(*s),
            None => None,
        }
    }

    fn put(&mut self, zone: u64, data: DataType, sub: SubState)
        requires
            old(self).card.wf(),
            old(self).zone.wf(),
        ensures
            final(self).card.wf(),
            final(self).zone.wf(),
            final(self).held == old(self).held,
            final(self).bits == old(self).bits,
            final(self).intents == old(self).intents,
            final(self).subs() == old(self).subs().insert((zone, data), sub),
    {
        match data {
            DataType::Card => {
                self.card.insert(zone, sub);
            },
            DataType::Zone => {
                self.zone.insert(zone, sub);
            },
        }
        assert(self.subs() =~= old(self).subs().insert((zone, data), sub));
    }

    /// Overwrite the state of a subscription that is open.
    fn set_state<C: Codec>(&mut self, codec: &C, zone: u64, data: DataType, sub: SubState)
        requires
            old(self).wf(*codec),
            old(self).subs().dom().contains((zone, data)),
            sub.updates_since_present <= 5,
            sub.wanted ==> sub.updates_since_present == 0,
        ensures
            final(self).wf(*codec),
            final(self).subs() == old(self).subs().insert((zone, data), sub),
            final(self).bits() == old(self).bits(),
            final(self).pending() == old(self).pending(),
            final(self).follows(*codec, *old(self)),
    {
        let ghost o = *self;
        self.put(zone, data, sub);
        proof {
            assert(self.subs().dom() =~= o.subs().dom());
            assert forall|r: u64, z: u64| #[trigger]
                self.held_in(r, z) <==> holds_region(*codec, self.subs().dom(), z, r) by {
                assert(self.held_in(r, z) == o.held_in(r, z));
            }
            assert forall|r: u64| #[trigger] self.held@.dom().contains(r) implies self.held@[r].wf()
                && exists|z: u64| self.held_in(r, z) by {
                let z = choose|z: u64| o.held_in(r, z);
                assert(self.held_in(r, z));
            }
            self.lemma_stays(*codec, o);
        }
    }

    /// Open a subscription, and hold its region if it is the first tile
    /// subscription there.
    fn open_sub<C: Codec>(&mut self, codec: &C, zone: u64, data: DataType, sub: SubState)
        requires
            old(self).wf(*codec),
            !old(self).subs().dom().contains((zone, data)),
            sub.updates_since_present == 0,
        ensures
            final(self).wf(*codec),
            final(self).subs() == old(self).subs().insert((zone, data), sub),
            final(self).follows(*codec, *old(self)),
    {
        let ghost o = *self;
        let ghost k = (zone, data);
        self.put(zone, data, sub);
        let ghost ks0 = o.subs().dom();
        let ghost ks1 = self.subs().dom();
        assert(ks1 == ks0.insert(k));
        self.intents.push(ZoneIntent::Subscribe { zone, data, on: true });
        match data {
            DataType::Card => {
                proof {
                    assert(regions_in(*codec, ks1) =~= regions_in(*codec, ks0)) by {
                        assert forall|z: u64, r: u64|
                            holds_region(*codec, ks1, z, r) == holds_region(*codec, ks0, z, r) by {}
                        assert forall|r: u64| regions_in(*codec, ks1).contains(r) <==> regions_in(
                            *codec,
                            ks0,
                        ).contains(r) by {
                            if regions_in(*codec, ks1).contains(r) {
                                let z = choose|z: u64| #[trigger] holds_region(*codec, ks1, z, r);
                                assert(holds_region(*codec, ks0, z, r));
                            }
                            if regions_in(*codec, ks0).contains(r) {
                                let z = choose|z: u64| #[trigger] holds_region(*codec, ks0, z, r);
                                assert(holds_region(*codec, ks1, z, r));
                            }
                        }
                    }
                    assert forall|r: u64, z: u64| #[trigger]
                        self.held_in(r, z) <==> holds_region(*codec, ks1, z, r) by {
                        assert(self.held_in(r, z) == o.held_in(r, z));
                        assert(holds_region(*codec, ks1, z, r) == holds_region(*codec, ks0, z, r));
                    }
                    assert forall|r: u64| #[trigger] self.held@.dom().contains(r) implies self.held@[r].wf()
                        && exists|z: u64| self.held_in(r, z) by {
                        let z = choose|z: u64| o.held_in(r, z);
                        assert(self.held_in(r, z));
                    }
                    let said = self.pending().skip(o.pending().len() as int);
                    assert(said =~= seq![ZoneIntent::Subscribe { zone, data, on: true }]);
                }
            },
            DataType::Zone => {
                let (region, _bit) = codec.region_of_zone(zone);
                let mut zones = match self.held.remove(region) {
                    Some(z) => z,
                    None => OrdMap::new(),
                };
                let fresh: bool = zones.len() == 0;
                proof {
                    zones.lemma_ks();
                    if o.held@.dom().contains(region) {
                        let z = choose|z: u64| o.held_in(region, z);
                        assert(o.held_in(region, z));
                        assert(zones@.dom().contains(z));
                        assert(zones.ks().contains(z));
                    }
                    assert(fresh == !o.held@.dom().contains(region));
                    assert(o.held@.dom().contains(region) <==> regions_in(*codec, ks0).contains(
                        region,
                    )) by {
                        if o.held@.dom().contains(region) {
                            let z = choose|z: u64| o.held_in(region, z);
                            assert(o.held_in(region, z));
                            assert(holds_region(*codec, ks0, z, region));
                        }
                        if regions_in(*codec, ks0).contains(region) {
                            let z = choose|z: u64| #[trigger] holds_region(*codec, ks0, z, region);
                            assert(o.held_in(region, z));
                        }
                    }
                }
                zones.insert(zone, ());
                self.held.insert(region, zones);
                if fresh {
                    self.intents.push(ZoneIntent::Region { region, subscribed: true });
                }
                proof {
                    assert forall|r: u64, z: u64| #[trigger]
                        self.held_in(r, z) <==> holds_region(*codec, ks1, z, r) by {
                        assert(o.held_in(r, z) <==> holds_region(*codec, ks0, z, r));
                        if fresh && r == region && z != zone {
                            assert(!o.held_in(r, z));
                        }
                    }
                    assert forall|r: u64| #[trigger] self.held@.dom().contains(r) implies self.held@[r].wf()
                        && exists|z: u64| self.held_in(r, z) by {
                        if r == region {
                            assert(self.held_in(region, zone));
                        } else {
                            let z = choose|z: u64| o.held_in(r, z);
                            assert(self.held_in(r, z));
                        }
                    }
                    assert(regions_in(*codec, ks1) =~= regions_in(*codec, ks0).insert(region)) by {
                        assert forall|r: u64| regions_in(*codec, ks1).contains(r) <==> (regions_in(
                            *codec,
                            ks0,
                        ).contains(r) || r == region) by {
                            if regions_in(*codec, ks1).contains(r) && r != region {
                                let z = choose|z: u64| #[trigger] holds_region(*codec, ks1, z, r);
                                assert(holds_region(*codec, ks0, z, r));
                            }
                            if regions_in(*codec, ks0).contains(r) {
                                let z = choose|z: u64| #[trigger] holds_region(*codec, ks0, z, r);
                                assert(holds_region(*codec, ks1, z, r));
                            }
                            assert(holds_region(*codec, ks1, zone, region));
                        }
                    }
                    let said = self.pending().skip(o.pending().len() as int);
                    let x = ZoneIntent::Subscribe { zone, data, on: true };
                    let y = ZoneIntent::Region { region, subscribed: true };
                    if fresh {
                        assert(said =~= seq![x, y]);
                    } else {
                        assert(said =~= seq![x]);
                    }
                }
            },
        }
        proof {
            assert(self.subs() =~= o.subs().insert(k, sub));
            let n = o.pending().len() as int;
            assert(self.pending().take(n) =~= o.pending());
            let said = self.pending().skip(n);
            assert(said[0] == (ZoneIntent::Subscribe { zone, data, on: true }));
            assert forall|x: ZoneIntent| #[trigger] said.contains(x) <==> is_change(
                *codec,
                ks0,
                ks1,
                x,
            ) by {
                if said.contains(x) {
                    let m = said.index_of(x);
                    assert(said[m] == x);
                }
                if is_change(*codec, ks0, ks1, x) {
                    match x {
                        ZoneIntent::Subscribe { .. } => {
                            assert(x == said[0]);
                        },
                        ZoneIntent::Region { .. } => {
                            assert(x == said[1]);
                        },
                    }
                }
            }
            let gone = regions_in(*codec, ks0).difference(regions_in(*codec, ks1));
            assert(gone =~= Set::empty());
            assert(o.bits().remove_keys(gone) =~= o.bits());
        }
    }

    /// Close a subscription, and release its region with the last tile
    /// subscription there.
    fn close_sub<C: Codec>(&mut self, codec: &C, zone: u64, data: DataType)
        requires
            old(self).wf(*codec),
            old(self).subs().dom().contains((zone, data)),
        ensures
            final(self).wf(*codec),
            final(self).subs() == old(self).subs().remove((zone, data)),
            final(self).follows(*codec, *old(self)),
    {
        let ghost o = *self;
        let ghost k = (zone, data);
        let ghost ks0 = o.subs().dom();
        match data {
            DataType::Card => {
                self.card.remove(zone);
            },
            DataType::Zone => {
                self.zone.remove(zone);
            },
        }
        assert(self.subs() =~= o.subs().remove(k));
        let ghost ks1 = self.subs().dom();
        self.intents.push(ZoneIntent::Subscribe { zone, data, on: false });
        match data {
            DataType::Card => {
                proof {
                    assert forall|r: u64| regions_in(*codec, ks1).contains(r) <==> regions_in(
                        *codec,
                        ks0,
                    ).contains(r) by {
                        if regions_in(*codec, ks1).contains(r) {
                            let z = choose|z: u64| #[trigger] holds_region(*codec, ks1, z, r);
                            assert(holds_region(*codec, ks0, z, r));
                        }
                        if regions_in(*codec, ks0).contains(r) {
                            let z = choose|z: u64| #[trigger] holds_region(*codec, ks0, z, r);
                            assert(holds_region(*codec, ks1, z, r));
                        }
                    }
                    assert(regions_in(*codec, ks1) =~= regions_in(*codec, ks0));
                    assert forall|r: u64, z: u64| #[trigger]
                        self.held_in(r, z) <==> holds_region(*codec, ks1, z, r) by {
                        assert(self.held_in(r, z) == o.held_in(r, z));
                        assert(holds_region(*codec, ks1, z, r) == holds_region(*codec, ks0, z, r));
                    }
                    assert forall|r: u64| #[trigger] self.held@.dom().contains(r) implies self.held@[r].wf()
                        && exists|z: u64| self.held_in(r, z) by {
                        let z = choose|z: u64| o.held_in(r, z);
                        assert(self.held_in(r, z));
                    }
                    let said = self.pending().skip(o.pending().len() as int);
                    assert(said =~= seq![ZoneIntent::Subscribe { zone, data, on: false }]);
                }
            },
            DataType::Zone => {
                let (region, _bit) = codec.region_of_zone(zone);
                let mut zones = match self.held.remove(region) {
                    Some(z) => z,
                    None => OrdMap::new(),
                };
                proof {
                    assert(holds_region(*codec, ks0, zone, region));
                    assert(o.held_in(region, zone));
                }
                let ghost zones0 = zones@;
                zones.remove(zone);
                let empty: bool = zones.len() == 0;
                let ghost left = zones@;
                proof {
                    zones.lemma_ks();
                    if !empty {
                        assert(zones.ks().contains(zones.ks()[0]));
                        assert(left.dom().contains(zones.ks()[0]));
                    }
                    assert(!empty ==> exists|z: u64| #[trigger] left.dom().contains(z));
                    assert(empty ==> forall|z: u64| !(#[trigger] left.dom().contains(z)));
                    assert forall|z: u64| #[trigger] left.dom().contains(z) <==> holds_region(
                        *codec,
                        ks1,
                        z,
                        region,
                    ) by {
                        assert(o.held_in(region, z) <==> holds_region(*codec, ks0, z, region));
                    }
                }
                if empty {
                    self.bits.remove(region);
                    self.intents.push(ZoneIntent::Region { region, subscribed: false });
                } else {
                    self.held.insert(region, zones);
                }
                proof {
                    assert forall|r: u64, z: u64| #[trigger]
                        self.held_in(r, z) <==> holds_region(*codec, ks1, z, r) by {
                        assert(o.held_in(r, z) <==> holds_region(*codec, ks0, z, r));
                        if r == region {
                            assert(left.dom().contains(z) <==> holds_region(*codec, ks1, z, region));
                        }
                    }
                    assert forall|r: u64| #[trigger] self.held@.dom().contains(r) implies self.held@[r].wf()
                        && exists|z: u64| self.held_in(r, z) by {
                        if r == region {
                            let z = choose|z: u64| #[trigger] left.dom().contains(z);
                            assert(self.held_in(region, z));
                        } else {
                            let z = choose|z: u64| o.held_in(r, z);
                            assert(self.held_in(r, z));
                        }
                    }
                    assert forall|r: u64| regions_in(*codec, ks1).contains(r) <==> (regions_in(
                        *codec,
                        ks0,
                    ).contains(r) && !(empty && r == region)) by {
                        if regions_in(*codec, ks1).contains(r) {
                            let z = choose|z: u64| #[trigger] holds_region(*codec, ks1, z, r);
                            assert(holds_region(*codec, ks0, z, r));
                            if r == region {
                                assert(left.dom().contains(z));
                            }
                        }
                        if regions_in(*codec, ks0).contains(r) && r != region {
                            let z = choose|z: u64| #[trigger] holds_region(*codec, ks0, z, r);
                            assert(holds_region(*codec, ks1, z, r));
                        }
                        if !empty && r == region {
                            let z = choose|z: u64| #[trigger] left.dom().contains(z);
                            assert(holds_region(*codec, ks1, z, region));
                        }
                    }
                    assert(regions_in(*codec, ks0).contains(region));
                    let said = self.pending().skip(o.pending().len() as int);
                    let x = ZoneIntent::Subscribe { zone, data, on: false };
                    let y = ZoneIntent::Region { region, subscribed: false };
                    if empty {
                        assert(said =~= seq![x, y]);
                    } else {
                        assert(said =~= seq![x]);
                    }
                }
            },
        }
        proof {
            assert(self.subs() =~= o.subs().remove(k));
            let n = o.pending().len() as int;
            assert(self.pending().take(n) =~= o.pending());
            let said = self.pending().skip(n);
            assert(said[0] == (ZoneIntent::Subscribe { zone, data, on: false }));
            assert forall|x: ZoneIntent| #[trigger] said.contains(x) <==> is_change(
                *codec,
                ks0,
                ks1,
                x,
            ) by {
                if said.contains(x) {
                    let m = said.index_of(x);
                    assert(said[m] == x);
                }
                if is_change(*codec, ks0, ks1, x) {
                    match x {
                        ZoneIntent::Subscribe { .. } => {
                            assert(x == said[0]);
                        },
                        ZoneIntent::Region { .. } => {
                            assert(x == said[1]);
                        },
                    }
                }
            }
            let gone = regions_in(*codec, ks0).difference(regions_in(*codec, ks1));
            assert(self.bits() =~= o.bits().remove_keys(gone));
        }
    }

    /// Look at one subscription again: open it if newly wanted; leave it open, as
    /// a candidate, if no longer wanted.
    pub fn update_sub<C: Codec>(
        &mut self,
        codec: &C,
        zone: u64,
        data: DataType,
        wanted: bool,
        now: u64,
    )
        requires
            old(self).wf(*codec),
        ensures
            final(self).wf(*codec),
            final(self).follows(*codec, *old(self)),
            forall|k: SubKey| #[trigger]
                lookup(final(self).subs(), k) == if k == (zone, data) {
                    retuned(lookup(old(self).subs(), k), wanted, now)
                } else {
                    lookup(old(self).subs(), k)
                },
    {
        let ghost o = *self;
        match self.get(zone, data) {
            Some(s) => {
                if wanted || s.wanted {
                    self.set_state(
                        codec,
                        zone,
                        data,
                        SubState { wanted, last_present_ms: now, updates_since_present: 0 },
                    );
                } else {
                    proof {
                        self.lemma_stays(*codec, o);
                    }
                }
            },
            None => {
                if wanted {
                    self.open_sub(
                        codec,
                        zone,
                        data,
                        SubState { wanted: true, last_present_ms: now, updates_since_present: 0 },
                    );
                } else {
                    proof {
                        self.lemma_stays(*codec, o);
                    }
                }
            },
        }
    }

    /// An update arrived on a subscription: a candidate counts it, and closes once
    /// it has had too many.
    pub fn note_update<C: Codec>(&mut self, codec: &C, zone: u64, data: DataType, now: u64)
        requires
            old(self).wf(*codec),
        ensures
            final(self).wf(*codec),
            final(self).follows(*codec, *old(self)),
            forall|k: SubKey| #[trigger]
                lookup(final(self).subs(), k) == if k == (zone, data) {
                    jostled(lookup(old(self).subs(), k), now)
                } else {
                    lookup(old(self).subs(), k)
                },
    {
        let ghost o = *self;
        match self.get(zone, data) {
            Some(s) => {
                if !s.wanted {
                    assert(o.subs().dom().contains((zone, data)));
                    let updates: u32 = s.updates_since_present + 1;
                    let since: u64 = now.saturating_sub(s.last_present_ms);
                    if should_close(updates, since) {
                        self.close_sub(codec, zone, data);
                    } else {
                        self.set_state(
                            codec,
                            zone,
                            data,
                            SubState { updates_since_present: updates, ..s },
                        );
                    }
                } else {
                    proof {
                        self.lemma_stays(*codec, o);
                    }
                }
            },
            None => {
                proof {
                    self.lemma_stays(*codec, o);
                }
            },
        }
    }
}

/// The candidate of one kind that was present least recently.
fn oldest(m: &OrdMap<SubState>) -> (r: Option<(u64, u64)>)
    requires
        m.wf(),
    ensures
        r matches Some((zone, last)) ==> m@.dom().contains(zone) && !m@[zone].wanted
            && m@[zone].last_present_ms == last && forall|z: u64| #[trigger]
            m@.dom().contains(z) && !m@[z].wanted ==> last <= m@[z].last_present_ms,
        r is None ==> forall|z: u64| #[trigger] m@.dom().contains(z) ==> m@[z].wanted,
{
    proof {
        m.lemma_ks();
    }
    let n: usize = m.len();
    let mut best: Option<(u64, u64)> = None;
    let mut i: usize = 0;
    while i < n
        invariant
            m.wf(),
            n == m.ks().len(),
            i <= n,
            best matches Some((zone, last)) ==> m@.dom().contains(zone) && !m@[zone].wanted
                && m@[zone].last_present_ms == last,
            forall|j: int|
                0 <= j < i && !m@[#[trigger] m.ks()[j]].wanted ==> best is Some && (best->0).1
                    <= m@[m.ks()[j]].last_present_ms,
        decreases n - i,
    {
        let zone: u64 = m.key_at(i);
        let sub: SubState = *m.val_at(i);
        if !sub.wanted {
            let older: bool = match best {
                None => true,
                Some((_, last)) => sub.last_present_ms < last,
            };
            if older {
                best = Some((zone, sub.last_present_ms));
            }
        }
        i = i + 1;
    }
    proof {
        assert forall|z: u64| #[trigger] m@.dom().contains(z) && !m@[z].wanted implies best is Some
            && (best->0).1 <= m@[z].last_present_ms by {
            let j = m.ks().index_of(z);
            assert(m.ks()[j] == z);
        }
    }
    best
}

impl SubTable {
    /// The candidate that was present least recently.
    fn oldest_candidate(&self) -> (r: Option<SubKey>)
        requires
            self.card.wf(),
            self.zone.wf(),
        ensures
            r matches Some(v) ==> self.subs().dom().contains(v) && !self.subs()[v].wanted
                && forall|k: SubKey| #[trigger]
                self.subs().dom().contains(k) && !self.subs()[k].wanted
                    ==> self.subs()[v].last_present_ms <= self.subs()[k].last_present_ms,
            r is None ==> forall|k: SubKey| #[trigger]
                self.subs().dom().contains(k) ==> self.subs()[k].wanted,
    {
        let c = oldest(&self.card);
        let z = oldest(&self.zone);
        let r = match (c, z) {
            (Some((cz, cl)), Some((zz, zl))) => if zl < cl {
                Some((zz, DataType::Zone))
            } else {
                Some((cz, DataType::Card))
            },
            (Some((cz, _)), None) => Some((cz, DataType::Card)),
            (None, Some((zz, _))) => Some((zz, DataType::Zone)),
            (None, None) => None,
        };
        proof {
            assert forall|k: SubKey| #[trigger] self.subs().dom().contains(k) implies self.of(
                k.1,
            ).dom().contains(k.0) && self.subs()[k] == self.of(k.1)[k.0] by {
                match k.1 {
                    DataType::Card => {
                        assert(self.card@.dom().contains(k.0));
                    },
                    DataType::Zone => {
                        assert(self.zone@.dom().contains(k.0));
                    },
                }
            }
            assert forall|k: SubKey| #[trigger]
                self.subs().dom().contains(k) && !self.subs()[k].wanted implies r is Some
                && self.subs()[r->0].last_present_ms <= self.subs()[k].last_present_ms by {
                match k.1 {
                    DataType::Card => {
                        assert(self.card@.dom().contains(k.0));
                    },
                    DataType::Zone => {
                        assert(self.zone@.dom().contains(k.0));
                    },
                }
            }
        }
        r
    }

    /// Take back candidates, the least recently present first, until no more than
    /// `cap` subscriptions are open or every one of them is wanted.
    pub fn enforce_capacity<C: Codec>(&mut self, codec: &C, cap: usize)
        requires
            old(self).wf(*codec),
        ensures
            final(self).wf(*codec),
            final(self).follows(*codec, *old(self)),
            evicted(old(self).subs(), final(self).subs(), cap as nat),
            closes_oldest_first(
                final(self).pending().skip(old(self).pending().len() as int),
                old(self).subs(),
            ),
    {
        let ghost o = *self;
        let ghost n0 = o.pending().len() as int;
        proof {
            self.lemma_stays(*codec, o);
            assert(self.pending().skip(n0) =~= Seq::empty());
            self.lemma_count();
            assert(within(self.subs(), o.subs()));
        }
        let mut all_wanted: bool = false;
        while !all_wanted && (self.card.len() > cap || self.zone.len() > cap - self.card.len())
            invariant
                self.wf(*codec),
                self.follows(*codec, o),
                n0 == o.pending().len(),
                closes_oldest_first(self.pending().skip(n0), o.subs()),
                within(self.subs(), o.subs()),
                forall|k: SubKey| #[trigger]
                    o.subs().dom().contains(k) && !self.subs().dom().contains(k)
                        ==> !o.subs()[k].wanted,
                forall|k: SubKey, c: SubKey|
                    o.subs().dom().contains(k) && !self.subs().dom().contains(k)
                        && self.subs().dom().contains(c) && !self.subs()[c].wanted ==> (
                    #[trigger] o.subs()[k]).last_present_ms <= (
                    #[trigger] self.subs()[c]).last_present_ms,
                o.subs().dom().len() <= cap ==> self.subs() == o.subs(),
                o.subs().dom().len() > cap ==> self.subs().dom().len() >= cap,
                all_wanted ==> forall|k: SubKey| #[trigger]
                    self.subs().dom().contains(k) ==> self.subs()[k].wanted,
            decreases self.subs().dom().len(), if all_wanted { 0int } else { 1int },
        {
            let ghost before = *self;
            proof {
                before.lemma_count();
            }
            match self.oldest_candidate() {
                Some((zone, data)) => {
                    let ghost v = (zone, data);
                    self.close_sub(codec, zone, data);
                    proof {
                        self.lemma_count();
                        assert(self.subs().dom() =~= before.subs().dom().remove(v));
                        assert forall|r: u64| #[trigger]
                            regions_in(*codec, self.subs().dom()).contains(r) implies regions_in(
                            *codec,
                            before.subs().dom(),
                        ).contains(r) by {
                            let z = choose|z: u64| #[trigger]
                                holds_region(*codec, self.subs().dom(), z, r);
                            assert(holds_region(*codec, before.subs().dom(), z, r));
                        }
                        assert forall|k: SubKey| #[trigger]
                            before.subs().dom().contains(k) implies o.subs().dom().contains(k) by {}
                        SubTable::lemma_follows(*codec, o, before, *self);
                        let s1 = before.pending().skip(n0);
                        let s2 = self.pending().skip(before.pending().len() as int);
                        let s = self.pending().skip(n0);
                        assert forall|i: int, j: int| 0 <= i < j < s.len() implies closed_in_order(
                            #[trigger] s[i],
                            #[trigger] s[j],
                            o.subs(),
                        ) by {
                            if j < s1.len() {
                                assert(closed_in_order(s1[i], s1[j], o.subs()));
                            } else {
                                assert(s2.contains(s2[j - s1.len()]));
                                if i < s1.len() {
                                    assert(s1.contains(s1[i]));
                                    assert(o.subs()[v] == before.subs()[v]);
                                } else {
                                    assert(s2.contains(s2[i - s1.len()]));
                                }
                            }
                        }
                        assert(before.subs().dom().len() > cap);
                        assert forall|k: SubKey, c: SubKey|
                            o.subs().dom().contains(k) && !self.subs().dom().contains(k)
                                && self.subs().dom().contains(c)
                                && !self.subs()[c].wanted implies (
                        #[trigger] o.subs()[k]).last_present_ms <= (
                        #[trigger] self.subs()[c]).last_present_ms by {
                            assert(before.subs().dom().contains(c));
                            assert(before.subs()[c] == self.subs()[c]);
                            assert(o.subs()[v] == before.subs()[v]);
                        }
                    }
                },
                None => {
                    all_wanted = true;
                },
            }
        }
        proof {
            self.lemma_count();
        }
    }
}

impl SubTable {
    /// Look at both subscriptions of one zone again.
    fn retune_zone<C: Codec>(&mut self, codec: &C, zone: u64, tiers: &OrdMap<ZoneTier>, now: u64)
        requires
            old(self).wf(*codec),
            tiers.wf(),
        ensures
            final(self).wf(*codec),
            final(self).follows(*codec, *old(self)),
            forall|k: SubKey| #[trigger]
                lookup(final(self).subs(), k) == if k.0 == zone {
                    retuned(
                        lookup(old(self).subs(), k),
                        wants(k.1, lookup(tiers@, k.0)),
                        now,
                    )
                } else {
                    lookup(old(self).subs(), k)
                },
    {
        let ghost o = *self;
        let (card, tile): (bool, bool) = match tiers.get(zone) {
            Some(t) => match *t {
                ZoneTier::Active | ZoneTier::Hot => (true, true),
                ZoneTier::Warm | ZoneTier::Cold => (false, true),
            },
            None => (false, false),
        };
        self.update_sub(codec, zone, DataType::Card, card, now);
        let ghost mid = *self;
        self.update_sub(codec, zone, DataType::Zone, tile, now);
        proof {
            assert forall|k: SubKey| #[trigger]
                mid.subs().dom().contains(k) implies self.subs().dom().contains(k) by {
                assert(lookup(self.subs(), k) is Some);
            }
            assert forall|k: SubKey| #[trigger]
                o.subs().dom().contains(k) implies mid.subs().dom().contains(k) by {
                assert(lookup(mid.subs(), k) is Some);
            }
            lemma_regions_grow(*codec, o.subs().dom(), mid.subs().dom());
            assert forall|z: u64| #[trigger] mid.subs().dom().contains(tile_key(z)) implies o.subs().dom().contains(
                tile_key(z),
            ) by {
                assert(lookup(mid.subs(), tile_key(z)) == lookup(o.subs(), tile_key(z)));
            }
            SubTable::lemma_follows(*codec, o, mid, *self);
            assert forall|k: SubKey| #[trigger]
                lookup(self.subs(), k) == if k.0 == zone {
                    retuned(lookup(o.subs(), k), wants(k.1, lookup(tiers@, k.0)), now)
                } else {
                    lookup(o.subs(), k)
                } by {
                assert(lookup(mid.subs(), k) == if k == (zone, DataType::Card) {
                    retuned(lookup(o.subs(), k), card, now)
                } else {
                    lookup(o.subs(), k)
                });
                match k.1 {
                    DataType::Card => {},
                    DataType::Zone => {},
                }
            }
        }
    }

    /// Look at every subscription again under the given tiers.
    pub fn retune<C: Codec>(&mut self, codec: &C, tiers: &OrdMap<ZoneTier>, now: u64)
        requires
            old(self).wf(*codec),
            tiers.wf(),
        ensures
            final(self).wf(*codec),
            final(self).follows(*codec, *old(self)),
            final(self).subs() == touched(old(self).subs(), tiers@, now),
    {
        let ghost o = *self;
        // The zones with a tier or an open subscription.
        let mut zones: Vec<u64> = Vec::new();
        append_keys(&mut zones, tiers);
        append_keys(&mut zones, &self.card);
        append_keys(&mut zones, &self.zone);
        let n: usize = zones.len();
        let mut i: usize = 0;
        proof {
            self.lemma_stays(*codec, o);
        }
        while i < n
            invariant
                n == zones@.len(),
                i <= n,
                tiers.wf(),
                self.wf(*codec),
                self.follows(*codec, o),
                forall|k: SubKey| #[trigger]
                    lookup(self.subs(), k) == if zones@.take(i as int).contains(k.0) {
                        retuned(lookup(o.subs(), k), wants(k.1, lookup(tiers@, k.0)), now)
                    } else {
                        lookup(o.subs(), k)
                    },
            decreases n - i,
        {
            let ghost before = *self;
            self.retune_zone(codec, zones[i], tiers, now);
            proof {
                let z = zones@[i as int];
                assert forall|k: SubKey| #[trigger]
                    before.subs().dom().contains(k) implies self.subs().dom().contains(k) by {
                    assert(lookup(self.subs(), k) is Some);
                }
                assert forall|k: SubKey| #[trigger]
                    o.subs().dom().contains(k) implies before.subs().dom().contains(k) by {
                    assert(lookup(before.subs(), k) is Some);
                }
                lemma_regions_grow(*codec, o.subs().dom(), before.subs().dom());
                assert forall|y: u64| !(before.subs().dom().contains(#[trigger] tile_key(y))
                    && !o.subs().dom().contains(tile_key(y)) && self.subs().dom().contains(
                    (y, DataType::Card),
                ) && !before.subs().dom().contains((y, DataType::Card))) by {
                    let (c, t) = ((y, DataType::Card), tile_key(y));
                    assert(lookup(before.subs(), t) == if zones@.take(i as int).contains(y) {
                        retuned(lookup(o.subs(), t), wants(t.1, lookup(tiers@, y)), now)
                    } else {
                        lookup(o.subs(), t)
                    });
                    assert(lookup(before.subs(), c) == if zones@.take(i as int).contains(y) {
                        retuned(lookup(o.subs(), c), wants(c.1, lookup(tiers@, y)), now)
                    } else {
                        lookup(o.subs(), c)
                    });
                    assert(lookup(self.subs(), c) == if y == z {
                        retuned(lookup(before.subs(), c), wants(c.1, lookup(tiers@, y)), now)
                    } else {
                        lookup(before.subs(), c)
                    });
                }
                SubTable::lemma_follows(*codec, o, before, *self);
                assert forall|y: u64| zones@.take(i + 1).contains(y) <==> (zones@.take(
                    i as int,
                ).contains(y) || y == z) by {
                    if zones@.take(i as int).contains(y) {
                        let m = zones@.take(i as int).index_of(y);
                        assert(zones@.take(i + 1)[m] == y);
                    }
                    assert(zones@.take(i + 1)[i as int] == z);
                    if zones@.take(i + 1).contains(y) && y != z {
                        let m = zones@.take(i + 1).index_of(y);
                        assert(zones@.take(i as int)[m] == y);
                    }
                }
                assert forall|k: SubKey| #[trigger]
                    lookup(self.subs(), k) == if zones@.take(i + 1).contains(k.0) {
                        retuned(lookup(o.subs(), k), wants(k.1, lookup(tiers@, k.0)), now)
                    } else {
                        lookup(o.subs(), k)
                    } by {
                    let first = lookup(before.subs(), k);
                    assert(zones@.take(i + 1).contains(k.0) <==> (zones@.take(i as int).contains(
                        k.0,
                    ) || k.0 == z));
                }
            }
            i = i + 1;
        }
        proof {
            assert(zones@.take(n as int) =~= zones@);
            let t = touched(o.subs(), tiers@, now);
            assert forall|k: SubKey| #[trigger] lookup(self.subs(), k) == retuned(
                lookup(o.subs(), k),
                wants(k.1, lookup(tiers@, k.0)),
                now,
            ) by {
                if !zones@.contains(k.0) {
                    match k.1 {
                        DataType::Card => {
                            assert(!o.card@.dom().contains(k.0));
                        },
                        DataType::Zone => {
                            assert(!o.zone@.dom().contains(k.0));
                        },
                    }
                    assert(!tiers@.dom().contains(k.0));
                    assert(lookup(o.subs(), k) is None);
                }
            }
            assert(self.subs() =~= t) by {
                assert forall|k: SubKey| self.subs().dom().contains(k) <==> t.dom().contains(k) by {
                    assert(lookup(self.subs(), k) is Some <==> self.subs().dom().contains(k));
                }
                assert forall|k: SubKey| self.subs().dom().contains(k) implies self.subs()[k]
                    == t[k] by {
                    assert(lookup(self.subs(), k) == Some(self.subs()[k]));
                }
            }
        }
    }

    /// Look at every subscription again, then enforce the ceiling.
    pub fn refit<C: Codec>(&mut self, codec: &C, tiers: &OrdMap<ZoneTier>, now: u64, cap: usize)
        requires
            old(self).wf(*codec),
            tiers.wf(),
        ensures
            final(self).wf(*codec),
            final(self).follows(*codec, *old(self)),
            evicted(touched(old(self).subs(), tiers@, now), final(self).subs(), cap as nat),
            closes_oldest_first(
                final(self).pending().skip(old(self).pending().len() as int),
                touched(old(self).subs(), tiers@, now),
            ),
    {
        let ghost o = *self;
        self.retune(codec, tiers, now);
        let ghost mid = *self;
        self.enforce_capacity(codec, cap);
        proof {
            let (ka, kb, kc) = (o.subs().dom(), mid.subs().dom(), self.subs().dom());
            assert forall|k: SubKey| #[trigger] kb.contains(k) && !ka.contains(k) implies kc.contains(
                k,
            ) by {
                assert(mid.subs()[k].wanted);
            }
            assert forall|k: SubKey| #[trigger] kc.contains(k) implies kb.contains(k) by {}
            lemma_regions_grow(*codec, kc, kb);
            SubTable::lemma_follows(*codec, o, mid, *self);
            let s1 = mid.pending().skip(o.pending().len() as int);
            let s2 = self.pending().skip(mid.pending().len() as int);
            let s = self.pending().skip(o.pending().len() as int);
            assert forall|i: int, j: int| 0 <= i < j < s.len() implies closed_in_order(
                #[trigger] s[i],
                #[trigger] s[j],
                mid.subs(),
            ) by {
                if i < s1.len() {
                    assert(s1.contains(s1[i]));
                    assert forall|k: SubKey| #[trigger] ka.contains(k) implies kb.contains(k) by {
                        assert(lookup(mid.subs(), k) is Some);
                    }
                } else {
                    assert(closed_in_order(s2[i - s1.len()], s2[j - s1.len()], mid.subs()));
                }
            }
        }
    }

    /// Take a region's bits as they are on the server.
    pub fn note_region<C: Codec>(&mut self, codec: &C, region: u64, bits: RegionBits)
        requires
            old(self).wf(*codec),
        ensures
            final(self).wf(*codec),
            final(self).bits() == old(self).bits().insert(region, bits),
            final(self).subs() == old(self).subs(),
            final(self).pending() == old(self).pending(),
    {
        self.bits.insert(region, bits);
        proof {
            self.lemma_same_subs(*codec, *old(self));
        }
    }

    /// Forget a region's bits.
    pub fn note_region_removed<C: Codec>(&mut self, codec: &C, region: u64)
        requires
            old(self).wf(*codec),
        ensures
            final(self).wf(*codec),
            final(self).bits() == old(self).bits().remove(region),
            final(self).subs() == old(self).subs(),
            final(self).pending() == old(self).pending(),
    {
        self.bits.remove(region);
        proof {
            self.lemma_same_subs(*codec, *old(self));
        }
    }

    /// What is known of a region.
    pub fn region_bits<C: Codec>(&self, codec: &C, region: u64) -> (r: Option<RegionBits>)
        requires
            self.wf(*codec),
        ensures
            r == lookup(self.bits(), region),
    {
        match self.bits.get(region) {
            Some(b) => Some(*b),
            None => None,
        }
    }

    /// The open subscriptions: the cards by ascending zone, then the tiles.
    pub fn open_subs<C: Codec>(&self, codec: &C) -> (out: Vec<SubKey>)
        requires
            self.wf(*codec),
        ensures
            out@.no_duplicates(),
            forall|k: SubKey| #[trigger] out@.contains(k) <==> self.subs().dom().contains(k),
    {
        let mut zones: Vec<u64> = Vec::new();
        append_keys(&mut zones, &self.card);
        let cards: usize = zones.len();
        append_keys(&mut zones, &self.zone);
        proof {
            self.card.lemma_ks();
            self.zone.lemma_ks();
        }
        let n: usize = zones.len();
        let mut out: Vec<SubKey> = Vec::new();
        let mut i: usize = 0;
        while i < n
            invariant
                i <= n,
                n == zones@.len(),
                cards <= n,
                zones@ == self.card.ks() + self.zone.ks(),
                cards == self.card.ks().len(),
                out@.len() == i,
                forall|j: int|
                    0 <= j < i ==> #[trigger] out@[j] == (
                        zones@[j],
                        if j < cards {
                            DataType::Card
                        } else {
                            DataType::Zone
                        },
                    ),
            decreases n - i,
        {
            if i < cards {
                out.push((zones[i], DataType::Card));
            } else {
                out.push((zones[i], DataType::Zone));
            }
            i = i + 1;
        }
        proof {
            assert forall|k: SubKey| #[trigger] out@.contains(k) <==> self.subs().dom().contains(
                k,
            ) by {
                if out@.contains(k) {
                    let j = out@.index_of(k);
                    assert(out@[j] == k);
                    if j < cards {
                        assert(self.card.ks()[j] == k.0);
                        assert(self.card.ks().contains(k.0));
                    } else {
                        assert(self.zone.ks()[j - cards] == k.0);
                        assert(self.zone.ks().contains(k.0));
                    }
                }
                if self.subs().dom().contains(k) {
                    match k.1 {
                        DataType::Card => {
                            assert(self.card@.dom().contains(k.0));
                            let j = self.card.ks().index_of(k.0);
                            assert(zones@[j] == k.0);
                            assert(out@[j] == k);
                        },
                        DataType::Zone => {
                            assert(self.zone@.dom().contains(k.0));
                            let j = self.zone.ks().index_of(k.0);
                            assert(zones@[j + cards] == k.0);
                            assert(out@[j + cards] == k);
                        },
                    }
                }
            }
            assert forall|a: int, b: int| 0 <= a < out@.len() && 0 <= b < out@.len() && a
                != b implies out@[a] != out@[b] by {
                if a < cards && b < cards {
                    assert(zones@[a] == self.card.ks()[a] && zones@[b] == self.card.ks()[b]);
                }
                if a >= cards && b >= cards {
                    assert(zones@[a] == self.zone.ks()[a - cards]);
                    assert(zones@[b] == self.zone.ks()[b - cards]);
                }
            }
        }
        out
    }

    /// How many subscriptions are open.
    pub fn open_sub_count<C: Codec>(&self, codec: &C) -> (n: usize)
        requires
            self.wf(*codec),
            self.subs().dom().len() <= usize::MAX,
        ensures
            n == self.subs().dom().len(),
    {
        proof {
            self.lemma_count();
        }
        self.card.len() + self.zone.len()
    }
}

/// Append the keys of a map, in order.
fn append_keys<V>(v: &mut Vec<u64>, m: &OrdMap<V>)
    requires
        m.wf(),
    ensures
        final(v)@ == old(v)@ + m.ks(),
        forall|k: u64| #[trigger]
            final(v)@.contains(k) <==> old(v)@.contains(k) || m@.dom().contains(k),
{
    proof {
        m.lemma_ks();
    }
    let n: usize = m.len();
    let mut i: usize = 0;
    while i < n
        invariant
            m.wf(),
            i <= n,
            n == m.ks().len(),
            v@ == old(v)@ + m.ks().take(i as int),
        decreases n - i,
    {
        v.push(m.key_at(i));
        assert(v@ =~= old(v)@ + m.ks().take(i + 1));
        i = i + 1;
    }
    proof {
        assert(m.ks().take(n as int) =~= m.ks());
        let o = old(v)@;
        assert forall|k: u64| #[trigger] v@.contains(k) <==> o.contains(k) || m@.dom().contains(
            k,
        ) by {
            if o.contains(k) {
                let j = o.index_of(k);
                assert(v@[j] == k);
            }
            if m@.dom().contains(k) {
                let j = m.ks().index_of(k);
                assert(v@[j + o.len()] == k);
            }
            if v@.contains(k) {
                let j = v@.index_of(k);
                if j < o.len() {
                    assert(o[j] == k);
                } else {
                    assert(m.ks()[j - o.len()] == k);
                    assert(m.ks().contains(k));
                }
            }
        }
    }
}

/// More tile subscriptions hold no fewer regions.
proof fn lemma_regions_grow<C: Codec>(codec: C, a: Set<SubKey>, b: Set<SubKey>)
    requires
        forall|k: SubKey| #[trigger] a.contains(k) ==> b.contains(k),
    ensures
        forall|r: u64| #[trigger]
            regions_in(codec, a).contains(r) ==> regions_in(codec, b).contains(r),
{
    assert forall|r: u64| #[trigger] regions_in(codec, a).contains(r) implies regions_in(
        codec,
        b,
    ).contains(r) by {
        let z = choose|z: u64| #[trigger] holds_region(codec, a, z, r);
        assert(a.contains((z, DataType::Zone)));
        assert(holds_region(codec, b, z, r));
    }
}

proof fn lemma_said_once<C: Codec>(
    codec: C,
    a: Set<SubKey>,
    b: Set<SubKey>,
    c: Set<SubKey>,
    x: ZoneIntent,
)
    ensures
        !(is_change(codec, a, b, x) && is_change(codec, b, c, x)),
{
}

/// Looking at the tiers again never closes a subscription: what loses its tier
/// stays open as a candidate.
pub proof fn law_leaving_never_closes(
    before: Map<SubKey, SubState>,
    tiers: Map<u64, ZoneTier>,
    now: u64,
    k: SubKey,
)
    requires
        before.dom().contains(k),
    ensures
        touched(before, tiers, now).dom().contains(k),
        !wants(k.1, lookup(tiers, k.0)) ==> !touched(before, tiers, now)[k].wanted,
{
}

/// The ceiling never takes a wanted subscription, and within it nothing is taken.
pub proof fn law_wanted_is_never_evicted(
    before: Map<SubKey, SubState>,
    after: Map<SubKey, SubState>,
    cap: nat,
    k: SubKey,
)
    requires
        evicted(before, after, cap),
        before.dom().contains(k),
        before[k].wanted || before.dom().len() <= cap,
    ensures
        after.dom().contains(k) && after[k] == before[k],
{
}

/// Looking at the same tiers again at the same moment changes nothing more.
pub proof fn law_retuning_is_idempotent(
    before: Map<SubKey, SubState>,
    tiers: Map<u64, ZoneTier>,
    now: u64,
)
    ensures
        touched(touched(before, tiers, now), tiers, now) == touched(before, tiers, now),
{
    let once = touched(before, tiers, now);
    let twice = touched(once, tiers, now);
    assert forall|k: SubKey| once.dom().contains(k) <==> twice.dom().contains(k) by {
        assert(lookup(once, k) == retuned(lookup(before, k), wants(k.1, lookup(tiers, k.0)), now));
    }
    assert(twice =~= once);
}

/// What a driver's set of open subscriptions becomes when it carries out the
/// decisions in order.
pub open spec fn replayed(open: Set<SubKey>, said: Seq<ZoneIntent>) -> Set<SubKey>
    decreases said.len(),
{
    if said.len() == 0 {
        open
    } else {
        let before = replayed(open, said.drop_last());
        match said.last() {
            ZoneIntent::Subscribe { zone, data, on } => if on {
                before.insert((zone, data))
            } else {
                before.remove((zone, data))
            },
            ZoneIntent::Region { .. } => before,
        }
    }
}

/// What a driver's set of held regions becomes when it carries out the decisions.
pub open spec fn replayed_regions(open: Set<u64>, said: Seq<ZoneIntent>) -> Set<u64>
    decreases said.len(),
{
    if said.len() == 0 {
        open
    } else {
        let before = replayed_regions(open, said.drop_last());
        match said.last() {
            ZoneIntent::Region { region, subscribed } => if subscribed {
                before.insert(region)
            } else {
                before.remove(region)
            },
            ZoneIntent::Subscribe { .. } => before,
        }
    }
}

proof fn lemma_replayed(open: Set<SubKey>, said: Seq<ZoneIntent>, k: SubKey)
    requires
        !(said.contains(ZoneIntent::Subscribe { zone: k.0, data: k.1, on: true }) && said.contains(
            ZoneIntent::Subscribe { zone: k.0, data: k.1, on: false },
        )),
    ensures
        replayed(open, said).contains(k) <==> said.contains(
            ZoneIntent::Subscribe { zone: k.0, data: k.1, on: true },
        ) || (open.contains(k) && !said.contains(
            ZoneIntent::Subscribe { zone: k.0, data: k.1, on: false },
        )),
    decreases said.len(),
{
    if said.len() > 0 {
        let rest = said.drop_last();
        assert forall|x: ZoneIntent| #[trigger] said.contains(x) <==> (rest.contains(x) || x
            == said.last()) by {
            if rest.contains(x) {
                let i = rest.index_of(x);
                assert(said[i] == x);
            }
            if said.contains(x) && x != said.last() {
                let i = said.index_of(x);
                assert(rest[i] == x);
            }
            assert(said[said.len() - 1] == said.last());
        }
        lemma_replayed(open, rest, k);
    }
}

proof fn lemma_replayed_regions(open: Set<u64>, said: Seq<ZoneIntent>, r: u64)
    requires
        !(said.contains(ZoneIntent::Region { region: r, subscribed: true }) && said.contains(
            ZoneIntent::Region { region: r, subscribed: false },
        )),
    ensures
        replayed_regions(open, said).contains(r) <==> said.contains(
            ZoneIntent::Region { region: r, subscribed: true },
        ) || (open.contains(r) && !said.contains(
            ZoneIntent::Region { region: r, subscribed: false },
        )),
    decreases said.len(),
{
    if said.len() > 0 {
        let rest = said.drop_last();
        assert forall|x: ZoneIntent| #[trigger] said.contains(x) <==> (rest.contains(x) || x
            == said.last()) by {
            if rest.contains(x) {
                let i = rest.index_of(x);
                assert(said[i] == x);
            }
            if said.contains(x) && x != said.last() {
                let i = said.index_of(x);
                assert(rest[i] == x);
            }
            assert(said[said.len() - 1] == said.last());
        }
        lemma_replayed_regions(open, rest, r);
    }
}

/// A driver that carries out the decisions ends up with exactly the
/// subscriptions that are open, and holds exactly their regions.
pub proof fn law_decisions_replay<C: Codec>(
    codec: C,
    said: Seq<ZoneIntent>,
    before: Set<SubKey>,
    after: Set<SubKey>,
)
    requires
        announces(codec, said, before, after),
    ensures
        replayed(before, said) == after,
        replayed_regions(regions_in(codec, before), said) == regions_in(codec, after),
{
    assert forall|k: SubKey| replayed(before, said).contains(k) <==> after.contains(k) by {
        let on = ZoneIntent::Subscribe { zone: k.0, data: k.1, on: true };
        let off = ZoneIntent::Subscribe { zone: k.0, data: k.1, on: false };
        assert(said.contains(on) <==> is_change(codec, before, after, on));
        assert(said.contains(off) <==> is_change(codec, before, after, off));
        lemma_replayed(before, said, k);
    }
    assert(replayed(before, said) =~= after);
    let (r0, r1) = (regions_in(codec, before), regions_in(codec, after));
    assert forall|r: u64| replayed_regions(r0, said).contains(r) <==> r1.contains(r) by {
        let on = ZoneIntent::Region { region: r, subscribed: true };
        let off = ZoneIntent::Region { region: r, subscribed: false };
        assert(said.contains(on) <==> is_change(codec, before, after, on));
        assert(said.contains(off) <==> is_change(codec, before, after, off));
        lemma_replayed_regions(r0, said, r);
    }
    assert(replayed_regions(r0, said) =~= r1);
}

} // verus!
