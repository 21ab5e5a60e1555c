//! What each soul remembers of the zones it has seen.
use vstd::prelude::*;

use crate::ordmap::OrdMap;
use crate::zones::{MemEntry, ZoneTier};

verus! {

use crate::ordmap::{ascending, lemma_prefix};
use crate::subs::{lookup, within};

/// One zone's entry after the soul has looked around: live while a tier covers
/// the zone, frozen as it was once none does. Card knowledge is renewed only
/// within Active and Hot.
pub open spec fn seen(entry: Option<MemEntry>, tier: Option<ZoneTier>, now: u64) -> Option<
    MemEntry,
> {
    match tier {
        Some(t) => {
            let near = t == ZoneTier::Active || t == ZoneTier::Hot;
            Some(
                MemEntry {
                    card_ms: if near || entry is None {
                        now
                    } else {
                        entry->0.card_ms
                    },
                    zone_ms: now,
                    present: true,
                },
            )
        },
        None => match entry {
            Some(e) => Some(MemEntry { present: false, ..e }),
            None => None,
        },
    }
}

/// A soul's memory after it has looked around under the given coverage.
pub open spec fn looked_around(
    mem: Map<u64, MemEntry>,
    cov: Map<u64, ZoneTier>,
    now: u64,
) -> Map<u64, MemEntry> {
    Map::new(
        |z: u64| seen(lookup(mem, z), lookup(cov, z), now) is Some,
        |z: u64| seen(lookup(mem, z), lookup(cov, z), now)->0,
    )
}

/// When the soul last knew the zone.
pub open spec fn recency(e: MemEntry) -> u64 {
    if e.card_ms >= e.zone_ms {
        e.card_ms
    } else {
        e.zone_ms
    }
}

/// The bound on one soul's memory was enforced: only frozen zones went, the least
/// recently present first, and no more of them than it took.
pub open spec fn forgot(before: Map<u64, MemEntry>, after: Map<u64, MemEntry>, cap: nat) -> bool {
    &&& within(after, before)
    &&& forall|z: u64| #[trigger]
        before.dom().contains(z) && !after.dom().contains(z) ==> !before[z].present
    &&& forall|z: u64, c: u64|
        before.dom().contains(z) && !after.dom().contains(z) && after.dom().contains(c)
            && !after[c].present ==> recency(#[trigger] before[z]) <= recency(#[trigger] after[c])
    &&& before.dom().len() <= cap ==> after == before
    &&& before.dom().len() > cap ==> after.dom().len() >= cap
    &&& after.dom().len() > cap ==> forall|z: u64| #[trigger]
        after.dom().contains(z) ==> after[z].present
}

/// Per soul, the zones it knows.
pub struct SoulMemory {
    souls: OrdMap<OrdMap<MemEntry>>,
}

impl View for SoulMemory {
    type V = Map<u64, Map<u64, MemEntry>>;

    closed spec fn view(&self) -> Map<u64, Map<u64, MemEntry>> {
        Map::new(|s: u64| self.souls@.dom().contains(s), |s: u64| self.souls@[s]@)
    }
}

impl SoulMemory {
    pub closed spec fn wf(&self) -> bool {
        &&& self.souls.wf()
        &&& forall|s: u64| #[trigger] self.souls@.dom().contains(s) ==> self.souls@[s].wf()
    }

    pub fn new() -> (m: Self)
        ensures
            m.wf(),
            m@ == Map::<u64, Map<u64, MemEntry>>::empty(),
    {
        let m = SoulMemory { souls: OrdMap::new() };
        assert(m@ =~= Map::empty());
        m
    }

    /// A sound memory knows finitely many souls, and each of them finitely many zones.
    pub proof fn lemma_wf(&self)
        requires
            self.wf(),
        ensures
            self@.dom().finite(),
            forall|s: u64| #[trigger] self@.dom().contains(s) ==> self@[s].dom().finite(),
    {
        self.souls.lemma_ks();
        assert(self@.dom() =~= self.souls@.dom());
        assert forall|s: u64| #[trigger] self@.dom().contains(s) implies self@[s].dom().finite() by {
            self.souls@[s].lemma_ks();
        }
    }

    /// The souls that remember something, or did.
    pub fn souls(&self) -> (who: OrdMap<()>)
        requires
            self.wf(),
        ensures
            who.wf(),
            who@.dom() == self@.dom(),
    {
        proof {
            self.souls.lemma_ks();
            assert(self@.dom() =~= self.souls@.dom());
        }
        let n: usize = self.souls.len();
        let ghost ks = self.souls.ks();
        let mut who: OrdMap<()> = OrdMap::new();
        let mut i: usize = 0;
        while i < n
            invariant
                self.wf(),
                ks == self.souls.ks(),
                n == ks.len(),
                i <= n,
                who.wf(),
                forall|s: u64| #[trigger] who@.dom().contains(s) <==> ks.take(i as int).contains(s),
            decreases n - i,
        {
            let s: u64 = self.souls.key_at(i);
            who.insert(s, ());
            proof {
                lemma_prefix(ks, i as int);
            }
            i = i + 1;
        }
        assert(ks.take(n as int) =~= ks);
        assert(who@.dom() =~= self@.dom());
        who
    }

    /// What one soul knows; nothing if it was never heard of.
    pub open spec fn of(&self, soul: u64) -> Map<u64, MemEntry> {
        if self@.dom().contains(soul) {
            self@[soul]
        } else {
            Map::empty()
        }
    }

    /// Let a soul look around: zones its anchor covers become live, the others
    /// freeze.
    pub fn look_around(&mut self, soul: u64, cov: &OrdMap<ZoneTier>, now: u64)
        requires
            old(self).wf(),
            cov.wf(),
        ensures
            final(self).wf(),
            final(self)@ == old(self)@.insert(
                soul,
                looked_around(old(self).of(soul), cov@, now),
            ),
    {
        let ghost o = *self;
        let mut mem = match self.souls.remove(soul) {
            Some(m) => m,
            None => OrdMap::new(),
        };
        let ghost m0 = mem@;
        assert(m0 =~= o.of(soul));
        // Freeze what is no longer covered.
        proof {
            mem.lemma_ks();
        }
        let n: usize = mem.len();
        let mut i: usize = 0;
        while i < n
            invariant
                mem.wf(),
                cov.wf(),
                n == mem.ks().len(),
                i <= n,
                ascending(mem.ks()),
                mem@.dom() == m0.dom(),
                forall|z: u64| #[trigger] m0.dom().contains(z) <==> mem.ks().contains(z),
                forall|j: int|
                    0 <= j < i ==> mem@[#[trigger] mem.ks()[j]] == if cov@.dom().contains(
                        mem.ks()[j],
                    ) {
                        m0[mem.ks()[j]]
                    } else {
                        MemEntry { present: false, ..m0[mem.ks()[j]] }
                    },
                forall|j: int| i <= j < n ==> mem@[#[trigger] mem.ks()[j]] == m0[mem.ks()[j]],
            decreases n - i,
        {
            let z: u64 = mem.key_at(i);
            assert(mem.ks()[i as int] == z);
            if !cov.contains_key(z) {
                let e: MemEntry = *mem.val_at(i);
                mem.insert(z, MemEntry { present: false, ..e });
                assert(mem@.dom() =~= m0.dom());
            }
            i = i + 1;
        }
        let ghost m1 = mem@;
        proof {
            assert forall|z: u64| #[trigger] m0.dom().contains(z) implies m1[z]
                == if cov@.dom().contains(z) {
                m0[z]
            } else {
                MemEntry { present: false, ..m0[z] }
            } by {
                let j = mem.ks().index_of(z);
                assert(mem.ks()[j] == z);
            }
            cov.lemma_ks();
        }
        // Renew what is covered.
        let c: usize = cov.len();
        let mut p: usize = 0;
        while p < c
            invariant
                mem.wf(),
                cov.wf(),
                c == cov.ks().len(),
                p <= c,
                ascending(cov.ks()),
                forall|z: u64| #[trigger] cov@.dom().contains(z) <==> cov.ks().contains(z),
                m1.dom() == m0.dom(),
                forall|z: u64| #[trigger]
                    m0.dom().contains(z) ==> m1[z] == if cov@.dom().contains(z) {
                        m0[z]
                    } else {
                        MemEntry { present: false, ..m0[z] }
                    },
                forall|z: u64| #[trigger]
                    lookup(mem@, z) == if cov.ks().take(p as int).contains(z) {
                        seen(lookup(m0, z), lookup(cov@, z), now)
                    } else {
                        lookup(m1, z)
                    },
            decreases c - p,
        {
            let z: u64 = cov.key_at(p);
            let tier: ZoneTier = *cov.val_at(p);
            let near: bool = match tier {
                ZoneTier::Active | ZoneTier::Hot => true,
                ZoneTier::Warm | ZoneTier::Cold => false,
            };
            let ghost before = mem@;
            proof {
                let prefix = cov.ks().take(p as int);
                if prefix.contains(z) {
                    let j = prefix.index_of(z);
                    assert(cov.ks()[j] == z);
                }
                assert(lookup(before, z) == lookup(m1, z));
                assert forall|y: u64| cov.ks().take(p + 1).contains(y) <==> (prefix.contains(y) || y
                    == z) by {
                    if prefix.contains(y) {
                        let j = prefix.index_of(y);
                        assert(cov.ks().take(p + 1)[j] == y);
                    }
                    assert(cov.ks().take(p + 1)[p as int] == z);
                    if cov.ks().take(p + 1).contains(y) && y != z {
                        let j = cov.ks().take(p + 1).index_of(y);
                        assert(prefix[j] == y);
                    }
                }
            }
            let card_ms: u64 = match mem.get(z) {
                Some(e) => if near {
                    now
                } else {
                    e.card_ms
                },
                None => now,
            };
            mem.insert(z, MemEntry { card_ms, zone_ms: now, present: true });
            proof {
                assert forall|y: u64| #[trigger]
                    lookup(mem@, y) == if cov.ks().take(p + 1).contains(y) {
                        seen(lookup(m0, y), lookup(cov@, y), now)
                    } else {
                        lookup(m1, y)
                    } by {
                    assert(lookup(before, y) == if cov.ks().take(p as int).contains(y) {
                        seen(lookup(m0, y), lookup(cov@, y), now)
                    } else {
                        lookup(m1, y)
                    });
                }
            }
            p = p + 1;
        }
        proof {
            assert(cov.ks().take(c as int) =~= cov.ks());
            let target = looked_around(m0, cov@, now);
            assert forall|z: u64| #[trigger] lookup(mem@, z) == seen(
                lookup(m0, z),
                lookup(cov@, z),
                now,
            ) by {
                assert(cov@.dom().contains(z) <==> cov.ks().contains(z));
                assert(m0.dom().contains(z) <==> m1.dom().contains(z));
            }
            assert forall|z: u64| mem@.dom().contains(z) <==> target.dom().contains(z) by {
                assert(lookup(mem@, z) is Some <==> mem@.dom().contains(z));
            }
            assert forall|z: u64| mem@.dom().contains(z) implies mem@[z] == target[z] by {
                assert(lookup(mem@, z) == Some(mem@[z]));
            }
            assert(mem@ =~= target);
        }
        self.souls.insert(soul, mem);
        assert(self@ =~= o@.insert(soul, looked_around(o.of(soul), cov@, now)));
    }

    /// Enforce the bound on every soul's memory: forget frozen zones, the least
    /// recently present first. A zone the soul covers is never forgotten.
    pub fn forget(&mut self, cap: usize)
        requires
            old(self).wf(),
        ensures
            final(self).wf(),
            final(self)@.dom() == old(self)@.dom(),
            forall|s: u64| #[trigger]
                old(self)@.dom().contains(s) ==> forgot(
                    old(self)@[s],
                    final(self)@[s],
                    cap as nat,
                ),
    {
        let ghost o = *self;
        proof {
            self.souls.lemma_ks();
            assert(self@.dom() =~= self.souls@.dom());
        }
        let n: usize = self.souls.len();
        let ghost ks = self.souls.ks();
        let mut i: usize = 0;
        while i < n
            invariant
                self.wf(),
                self.souls.ks() == ks,
                n == ks.len(),
                i <= n,
                ascending(ks),
                self@.dom() == o@.dom(),
                forall|s: u64| #[trigger] o@.dom().contains(s) <==> ks.contains(s),
                forall|j: int|
                    0 <= j < i ==> forgot(o@[#[trigger] ks[j]], self@[ks[j]], cap as nat),
                forall|j: int| i <= j < n ==> self@[#[trigger] ks[j]] == o@[ks[j]],
            decreases n - i,
        {
            let ghost before = *self;
            let soul: u64 = self.souls.key_at(i);
            assert(before@[soul] == o@[soul]);
            match self.souls.get_mut(soul) {
                Some(mem) => {
                    forget_one(mem, cap);
                },
                None => {},
            }
            proof {
                assert(self@.dom() =~= o@.dom());
                assert(forgot(o@[soul], self@[soul], cap as nat));
                assert forall|j: int| 0 <= j < n && j != i implies self@[#[trigger] ks[j]]
                    == before@[ks[j]] by {
                    assert(ks[j] != soul);
                }
            }
            i = i + 1;
        }
        proof {
            assert forall|s: u64| #[trigger] o@.dom().contains(s) implies forgot(
                o@[s],
                self@[s],
                cap as nat,
            ) by {
                let j = ks.index_of(s);
                assert(ks[j] == s);
            }
        }
    }

    /// What a soul remembers of a zone.
    pub fn recall(&self, soul: u64, zone: u64) -> (r: Option<MemEntry>)
        requires
            self.wf(),
        ensures
            r == lookup(self.of(soul), zone),
    {
        match self.souls.get(soul) {
            Some(mem) => match mem.get(zone) {
                Some(e) => Some(*e),
                None => None,
            },
            None => None,
        }
    }

    /// The frozen entries of a zone, by ascending soul.
    pub fn frozen(&self, zone: u64) -> (out: Vec<MemEntry>)
        requires
            self.wf(),
        ensures
            is_frozen_list(self@, zone, out@),
    {
        proof {
            self.souls.lemma_ks();
        }
        let n: usize = self.souls.len();
        let mut out: Vec<MemEntry> = Vec::new();
        let ghost mut who: Seq<u64> = Seq::empty();
        let mut i: usize = 0;
        while i < n
            invariant
                self.wf(),
                n == self.souls.ks().len(),
                i <= n,
                ascending(self.souls.ks()),
                forall|s: u64| #[trigger]
                    self.souls@.dom().contains(s) <==> self.souls.ks().contains(s),
                who.len() == out@.len(),
                ascending(who),
                forall|j: int|
                    0 <= j < who.len() ==> is_frozen(self@, zone, #[trigger] who[j]) && out@[j]
                        == self@[who[j]][zone] && (i < n ==> who[j] < self.souls.ks()[i as int]),
                forall|j: int|
                    0 <= j < i && is_frozen(self@, zone, #[trigger] self.souls.ks()[j])
                        ==> who.contains(self.souls.ks()[j]),
            decreases n - i,
        {
            let ghost soul = self.souls.ks()[i as int];
            let ghost before = who;
            let mem = self.souls.val_at(i);
            assert(self@[soul] == mem@);
            match mem.get(zone) {
                Some(e) => {
                    if !e.present {
                        out.push(*e);
                        proof {
                            who = who.push(soul);
                            assert(who[who.len() - 1] == soul);
                            assert(who.contains(soul));
                        }
                    }
                },
                None => {},
            }
            proof {
                assert forall|j: int| 0 <= j < i && is_frozen(
                    self@,
                    zone,
                    #[trigger] self.souls.ks()[j],
                ) implies who.contains(self.souls.ks()[j]) by {
                    let m = before.index_of(self.souls.ks()[j]);
                    assert(who[m] == before[m]);
                }
            }
            i = i + 1;
        }
        proof {
            assert forall|s: u64| #[trigger] is_frozen(self@, zone, s) implies who.contains(s) by {
                let j = self.souls.ks().index_of(s);
                assert(self.souls.ks()[j] == s);
            }
            assert(frozen_by(self@, zone, who, out@));
        }
        out
    }
}

/// Soul `s` remembers the zone but does not cover it.
pub open spec fn is_frozen(mem: Map<u64, Map<u64, MemEntry>>, zone: u64, s: u64) -> bool {
    mem.dom().contains(s) && mem[s].dom().contains(zone) && !mem[s][zone].present
}

/// `who` lists the souls with a frozen entry of the zone, and `out` their entries.
pub open spec fn frozen_by(
    mem: Map<u64, Map<u64, MemEntry>>,
    zone: u64,
    who: Seq<u64>,
    out: Seq<MemEntry>,
) -> bool {
    &&& ascending(who)
    &&& who.len() == out.len()
    &&& forall|j: int|
        0 <= j < who.len() ==> is_frozen(mem, zone, #[trigger] who[j]) && out[j]
            == mem[who[j]][zone]
    &&& forall|s: u64| #[trigger] is_frozen(mem, zone, s) ==> who.contains(s)
}

/// `out` lists the frozen entries of the zone, by ascending soul.
pub open spec fn is_frozen_list(
    mem: Map<u64, Map<u64, MemEntry>>,
    zone: u64,
    out: Seq<MemEntry>,
) -> bool {
    exists|who: Seq<u64>| #[trigger] frozen_by(mem, zone, who, out)
}

/// The frozen zone that was present least recently.
fn stalest(mem: &OrdMap<MemEntry>) -> (r: Option<u64>)
    requires
        mem.wf(),
    ensures
        r matches Some(v) ==> mem@.dom().contains(v) && !mem@[v].present && forall|z: u64| #[trigger]
            mem@.dom().contains(z) && !mem@[z].present ==> recency(mem@[v]) <= recency(mem@[z]),
        r is None ==> forall|z: u64| #[trigger] mem@.dom().contains(z) ==> mem@[z].present,
{
    proof {
        mem.lemma_ks();
    }
    let n: usize = mem.len();
    let mut best: Option<(u64, u64)> = None;
    let mut i: usize = 0;
    while i < n
        invariant
            mem.wf(),
            n == mem.ks().len(),
            i <= n,
            best matches Some((v, t)) ==> mem@.dom().contains(v) && !mem@[v].present && recency(
                mem@[v],
            ) == t,
            forall|j: int|
                0 <= j < i && !mem@[#[trigger] mem.ks()[j]].present ==> best is Some && (best->0).1
                    <= recency(mem@[mem.ks()[j]]),
        decreases n - i,
    {
        let z: u64 = mem.key_at(i);
        let e: MemEntry = *mem.val_at(i);
        if !e.present {
            let t: u64 = if e.card_ms >= e.zone_ms {
                e.card_ms
            } else {
                e.zone_ms
            };
            let older: bool = match best {
                None => true,
                Some((_, b)) => t < b,
            };
            if older {
                best = Some((z, t));
            }
        }
        i = i + 1;
    }
    proof {
        assert forall|z: u64| #[trigger] mem@.dom().contains(z) && !mem@[z].present implies best is Some
            && (best->0).1 <= recency(mem@[z]) by {
            let j = mem.ks().index_of(z);
            assert(mem.ks()[j] == z);
        }
    }
    match best {
        Some((v, _)) => Some(v),
        None => None,
    }
}

/// Enforce the bound on one soul's memory.
fn forget_one(mem: &mut OrdMap<MemEntry>, cap: usize)
    requires
        old(mem).wf(),
    ensures
        final(mem).wf(),
        forgot(old(mem)@, final(mem)@, cap as nat),
{
    let ghost o = mem@;
    proof {
        mem.lemma_ks();
    }
    let mut stuck: bool = false;
    while !stuck && mem.len() > cap
        invariant
            mem.wf(),
            o.dom().finite(),
            mem@.dom().finite(),
            within(mem@, o),
            forall|z: u64| #[trigger]
                o.dom().contains(z) && !mem@.dom().contains(z) ==> !o[z].present,
            forall|z: u64, c: u64|
                o.dom().contains(z) && !mem@.dom().contains(z) && mem@.dom().contains(c)
                    && !mem@[c].present ==> recency(#[trigger] o[z]) <= recency(#[trigger] mem@[c]),
            o.dom().len() <= cap ==> mem@ == o,
            o.dom().len() > cap ==> mem@.dom().len() >= cap,
            stuck ==> forall|z: u64| #[trigger] mem@.dom().contains(z) ==> mem@[z].present,
        decreases mem@.dom().len(), if stuck { 0int } else { 1int },
    {
        let ghost before = mem@;
        match stalest(mem) {
            Some(v) => {
                mem.remove(v);
                proof {
                    assert(mem@.dom() =~= before.dom().remove(v));
                    assert(o[v] == before[v]);
                }
            },
            None => {
                stuck = true;
            },
        }
    }
}

/// Leaving a zone freezes what the soul knew; it does not change the times.
pub proof fn law_leaving_freezes(mem: Map<u64, MemEntry>, cov: Map<u64, ZoneTier>, now: u64, z: u64)
    requires
        mem.dom().contains(z),
        !cov.dom().contains(z),
    ensures
        looked_around(mem, cov, now).dom().contains(z),
        looked_around(mem, cov, now)[z] == (MemEntry { present: false, ..mem[z] }),
{
    assert(seen(lookup(mem, z), lookup(cov, z), now) is Some);
}

/// A zone the soul covers is live, and is never forgotten.
pub proof fn law_present_is_never_forgotten(
    before: Map<u64, MemEntry>,
    after: Map<u64, MemEntry>,
    cap: nat,
    z: u64,
)
    requires
        forgot(before, after, cap),
        before.dom().contains(z),
        before[z].present,
    ensures
        after.dom().contains(z) && after[z] == before[z],
{
}

} // verus!
