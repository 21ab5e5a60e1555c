//! Zone manager: anchor tiers and sticky subscriptions.
//!
//! An anchor projects four nested tile radii; every chunk a disk touches gets the
//! tightest tier any anchor assigns it. A zone's tier says which of its two
//! subscriptions are wanted: cards while Active or Hot, tiles while tracked at all.
//! A subscription that loses its last anchor is not closed: it stays open as a
//! candidate until it proves noisy, or until the ceiling on open subscriptions
//! takes the least recently present candidates back. Each soul remembers the zones
//! its anchor has left, frozen at the moment of leaving; one that lost its anchor has
//! left them all.
//!
//! Decisions become [`ZoneIntent`]s for the driver to drain; `now` is the server
//! clock in milliseconds.
use vstd::prelude::*;

use crate::codec::Codec;
use crate::memory::SoulMemory;
use crate::ordmap::OrdMap;
use crate::subs::{SubKey, SubTable};

verus! {

use crate::laws::tiers::{law_anchor_lights_its_own_zone, lies_on_grid};
use crate::memory::{forgot, is_frozen_list, looked_around, seen};
use crate::ordmap::{ascending, lemma_prefix};
use crate::subs::{
    announces, closes_oldest_first, evicted, jostled, lookup, regions_in, touched, wants,
};

/// Surface of world zones.
pub const WORLD_LAYER: u8 = 64;

/// Surface of inventory zones.
pub const INVENTORY_LAYER: u8 = 1;

/// The tier of a tracked zone, tightest first.
#[derive(Debug, Clone, Copy, PartialEq, Eq, Structural)]
pub enum ZoneTier {
    Active,
    Hot,
    Warm,
    Cold,
}

/// How tight a tier is; greater is tighter.
pub open spec fn tier_rank_spec(t: ZoneTier) -> u8 {
    match t {
        ZoneTier::Active => 3,
        ZoneTier::Hot => 2,
        ZoneTier::Warm => 1,
        ZoneTier::Cold => 0,
    }
}

pub fn tier_rank(t: ZoneTier) -> (rank: u8)
    ensures
        rank == tier_rank_spec(t),
{
    match t {
        ZoneTier::Active => 3,
        ZoneTier::Hot => 2,
        ZoneTier::Warm => 1,
        ZoneTier::Cold => 0,
    }
}

/// What a zone subscription streams: the zone's cards, or its tile grid.
#[derive(Debug, Clone, Copy, PartialEq, Eq, Structural, Hash)]
pub enum DataType {
    Card,
    Zone,
}

/// A decision that needs IO.
#[derive(Debug, Clone, Copy, PartialEq, Eq, Structural)]
pub enum ZoneIntent {
    /// Open or close a zone's `data` subscription.
    Subscribe { zone: u64, data: DataType, on: bool },
    /// Subscribe or release a region, held while a tile subscription inside it is
    /// open.
    Region { region: u64, subscribed: bool },
}

/// What a tracked zone still needs to exist on the server.
#[derive(Debug, Clone, Copy, PartialEq, Eq, Structural)]
pub enum ZoneNeed {
    /// No region is known for it.
    Ensure,
    /// Its region says it may exist, and that it does not yet.
    Request,
    /// It exists, or it cannot.
    Satisfied,
}

/// Tile radii of an anchor's tiers; a radius of zero or less provides no tier.
#[derive(Debug, Clone, Copy, PartialEq, Eq, Structural)]
pub struct AnchorRadii {
    pub active: i32,
    pub hot: i32,
    pub warm: i32,
    pub cold: i32,
}

impl Default for AnchorRadii {
    fn default() -> (r: Self)
        ensures
            r == (AnchorRadii { active: 0, hot: 0, warm: 0, cold: 0 }),
    {
        AnchorRadii { active: 0, hot: 0, warm: 0, cold: 0 }
    }
}

impl AnchorRadii {
    /// The tiers, tightest first, with their radii.
    pub fn tiers(&self) -> (t: [(ZoneTier, i32); 4])
        ensures
            t@ == seq![
                (ZoneTier::Active, self.active),
                (ZoneTier::Hot, self.hot),
                (ZoneTier::Warm, self.warm),
                (ZoneTier::Cold, self.cold),
            ],
    {
        [
            (ZoneTier::Active, self.active),
            (ZoneTier::Hot, self.hot),
            (ZoneTier::Warm, self.warm),
            (ZoneTier::Cold, self.cold),
        ]
    }
}

/// Where an anchor stands, what it projects, and the soul it stands for (`0` for
/// an anchor without a memory).
#[derive(Debug, Clone, Copy, PartialEq, Eq, Structural)]
pub struct Anchor {
    pub q: i32,
    pub r: i32,
    pub surface: u8,
    pub owner: u32,
    pub radii: AnchorRadii,
    pub soul: u32,
}

/// What one soul remembers of one zone.
#[derive(Debug, Clone, Copy, PartialEq, Eq, Structural)]
pub struct MemEntry {
    /// Card knowledge time, frozen when the soul leaves.
    pub card_ms: u64,
    /// Tile knowledge time, frozen when the soul leaves.
    pub zone_ms: u64,
    /// The soul covers the zone: its knowledge is live.
    pub present: bool,
}

/// An open subscription.
#[derive(Debug, Clone, Copy, PartialEq, Eq, Structural)]
pub struct SubState {
    /// The zone's tier asks for it; otherwise it is a candidate for closing.
    pub wanted: bool,
    /// When it was last wanted.
    pub last_present_ms: u64,
    /// Updates since it became a candidate.
    pub updates_since_present: u32,
}

/// A region's bits: zones that may exist, and zones that do.
#[derive(Debug, Clone, Copy, PartialEq, Eq, Structural)]
pub struct RegionBits {
    pub presence: u64,
    pub available: u64,
    pub distance: u16,
}

/// How many updates a candidate is held through: the shorter it has been gone,
/// the more.
pub open spec fn tolerance(since_present_ms: u64) -> u32 {
    if since_present_ms < 300_000 {
        5
    } else if since_present_ms < 900_000 {
        3
    } else {
        0
    }
}

/// Whether a candidate has been too noisy for how recently it was present.
pub fn should_close(updates_since_present: u32, since_present_ms: u64) -> (close: bool)
    ensures
        close == (updates_since_present > tolerance(since_present_ms)),
{
    let allowed: u32 = if since_present_ms < 5 * 60_000 {
        5
    } else if since_present_ms < 15 * 60_000 {
        3
    } else {
        0
    };
    updates_since_present > allowed
}

/// A candidate that stays silent is never closed for noise, however long it has
/// been gone.
pub proof fn law_silence_never_closes(since_present_ms: u64)
    ensures
        !(0 > tolerance(since_present_ms)),
{
}

/// The longer a candidate has been gone, the fewer updates it survives.
pub proof fn law_tolerance_shrinks(earlier: u64, later: u64)
    requires
        earlier <= later,
    ensures
        tolerance(later) <= tolerance(earlier),
{
}

/// The tile coordinate closest to `x`: the map ends where coordinates do.
pub open spec fn clip(x: int) -> i32 {
    if x < i32::MIN {
        i32::MIN
    } else if x > i32::MAX {
        i32::MAX
    } else {
        x as i32
    }
}

fn clipped(x: i64) -> (t: i32)
    ensures
        t == clip(x as int),
{
    if x < -0x8000_0000 {
        -0x8000_0000
    } else if x > 0x7FFF_FFFF {
        0x7FFF_FFFF
    } else {
        x as i32
    }
}

/// Chunk `(cq, cr)` touches the tile disk of `radius` around `(q, r)`.
pub open spec fn in_disk<C: Codec>(
    codec: C,
    q: i32,
    r: i32,
    radius: i32,
    cq: i16,
    cr: i16,
) -> bool {
    &&& codec.fold(clip(q - radius)).0 <= cq <= codec.fold(clip(q + radius)).0
    &&& codec.fold(clip(r - radius)).0 <= cr <= codec.fold(clip(r + radius)).0
}

/// The chunks that touch the tile disk of `radius` around `(aq, ar)`.
fn chunks_in_disk<C: Codec>(codec: &C, aq: i32, ar: i32, radius: i32) -> (out: Vec<(i16, i16)>)
    requires
        codec.wf(),
    ensures
        forall|c: (i16, i16)| #[trigger]
            out@.contains(c) <==> in_disk(*codec, aq, ar, radius, c.0, c.1),
{
    let lo_q: i16 = codec.zone_local(clipped(aq as i64 - radius as i64)).0;
    let hi_q: i16 = codec.zone_local(clipped(aq as i64 + radius as i64)).0;
    let lo_r: i16 = codec.zone_local(clipped(ar as i64 - radius as i64)).0;
    let hi_r: i16 = codec.zone_local(clipped(ar as i64 + radius as i64)).0;
    let mut out: Vec<(i16, i16)> = Vec::new();
    let mut cq: i32 = lo_q as i32;
    while cq <= hi_q as i32
        invariant
            lo_q <= cq,
            forall|c: (i16, i16)| #[trigger]
                out@.contains(c) <==> lo_q <= c.0 < cq && c.0 <= hi_q && lo_r <= c.1 <= hi_r,
        decreases hi_q - cq + 1,
    {
        let mut cr: i32 = lo_r as i32;
        while cr <= hi_r as i32
            invariant
                lo_q <= cq <= hi_q,
                lo_r <= cr,
                forall|c: (i16, i16)| #[trigger]
                    out@.contains(c) <==> lo_q <= c.0 <= hi_q && lo_r <= c.1 <= hi_r && (c.0 < cq || (
                    c.0 == cq && c.1 < cr)),
            decreases hi_r - cr + 1,
        {
            let ghost before = out@;
            let next: (i16, i16) = (cq as i16, cr as i16);
            out.push(next);
            proof {
                assert forall|c: (i16, i16)| #[trigger] out@.contains(c) <==> (before.contains(c)
                    || c == next) by {
                    if before.contains(c) {
                        let m = before.index_of(c);
                        assert(out@[m] == c);
                    }
                    assert(out@[before.len() as int] == next);
                    if out@.contains(c) && c != next {
                        let m = out@.index_of(c);
                        assert(before[m] == c);
                    }
                }
            }
            cr = cr + 1;
        }
        cq = cq + 1;
    }
    out
}

/// The anchor's disk of `radius` covers `zone`.
pub open spec fn covers<C: Codec>(codec: C, a: Anchor, radius: i32, zone: u64) -> bool {
    radius > 0 && exists|cq: i16, cr: i16| #[trigger]
        in_disk(codec, a.q, a.r, radius, cq, cr) && zone == codec.zone_key(
            a.owner,
            a.surface,
            cq,
            cr,
        )
}

/// The tightest tier the anchor gives `zone`.
pub open spec fn anchor_tier<C: Codec>(codec: C, a: Anchor, zone: u64) -> Option<ZoneTier> {
    if covers(codec, a, a.radii.active, zone) {
        Some(ZoneTier::Active)
    } else if covers(codec, a, a.radii.hot, zone) {
        Some(ZoneTier::Hot)
    } else if covers(codec, a, a.radii.warm, zone) {
        Some(ZoneTier::Warm)
    } else if covers(codec, a, a.radii.cold, zone) {
        Some(ZoneTier::Cold)
    } else {
        None
    }
}

/// Give every zone of one disk a tier, unless it has a tighter one.
fn cover_disk<C: Codec>(
    codec: &C,
    a: &Anchor,
    tier: ZoneTier,
    radius: i32,
    cov: &mut OrdMap<ZoneTier>,
)
    requires
        codec.wf(),
        old(cov).wf(),
        forall|z: u64| #[trigger]
            old(cov)@.dom().contains(z) ==> tier_rank_spec(old(cov)@[z]) >= tier_rank_spec(tier),
    ensures
        final(cov).wf(),
        forall|z: u64| #[trigger]
            final(cov)@.dom().contains(z) <==> old(cov)@.dom().contains(z) || covers(
                *codec,
                *a,
                radius,
                z,
            ),
        forall|z: u64| #[trigger]
            final(cov)@.dom().contains(z) ==> final(cov)@[z] == if old(cov)@.dom().contains(z) {
                old(cov)@[z]
            } else {
                tier
            },
{
    if radius <= 0 {
        return ;
    }
    let ghost o = cov@;
    let chunks = chunks_in_disk(codec, a.q, a.r, radius);
    let n: usize = chunks.len();
    let mut i: usize = 0;
    while i < n
        invariant
            codec.wf(),
            cov.wf(),
            n == chunks@.len(),
            i <= n,
            forall|z: u64| #[trigger]
                o.dom().contains(z) ==> tier_rank_spec(o[z]) >= tier_rank_spec(tier),
            forall|z: u64| #[trigger]
                cov@.dom().contains(z) <==> o.dom().contains(z) || exists|m: int|
                    0 <= m < i && z == codec.zone_key(
                        a.owner,
                        a.surface,
                        (#[trigger] chunks@[m]).0,
                        chunks@[m].1,
                    ),
            forall|z: u64| #[trigger]
                cov@.dom().contains(z) ==> cov@[z] == if o.dom().contains(z) {
                    o[z]
                } else {
                    tier
                },
        decreases n - i,
    {
        let (cq, cr) = chunks[i];
        let zone: u64 = codec.pack_macro_zone_full(a.owner, a.surface, cq, cr);
        let ghost before = cov@;
        let replace: bool = match cov.get(zone) {
            Some(held) => tier_rank(tier) > tier_rank(*held),
            None => true,
        };
        if replace {
            cov.insert(zone, tier);
        }
        proof {
            assert(chunks@[i as int] == (cq, cr));
            assert forall|z: u64| #[trigger] cov@.dom().contains(z) <==> o.dom().contains(z)
                || exists|m: int|
                0 <= m < i + 1 && z == codec.zone_key(
                    a.owner,
                    a.surface,
                    (#[trigger] chunks@[m]).0,
                    chunks@[m].1,
                ) by {
                if before.dom().contains(z) && !o.dom().contains(z) {
                    let m = choose|m: int|
                        0 <= m < i && z == codec.zone_key(
                            a.owner,
                            a.surface,
                            (#[trigger] chunks@[m]).0,
                            chunks@[m].1,
                        );
                    assert(z == codec.zone_key(a.owner, a.surface, chunks@[m].0, chunks@[m].1));
                }
            }
        }
        i = i + 1;
    }
    proof {
        assert forall|z: u64| #[trigger] cov@.dom().contains(z) <==> o.dom().contains(z) || covers(
            *codec,
            *a,
            radius,
            z,
        ) by {
            if covers(*codec, *a, radius, z) {
                let (cq, cr) = choose|cq: i16, cr: i16| #[trigger]
                    in_disk(*codec, a.q, a.r, radius, cq, cr) && z == codec.zone_key(
                        a.owner,
                        a.surface,
                        cq,
                        cr,
                    );
                assert(chunks@.contains((cq, cr)));
                let m = chunks@.index_of((cq, cr));
                assert(chunks@[m] == (cq, cr));
            }
            if cov@.dom().contains(z) && !o.dom().contains(z) {
                let m = choose|m: int|
                    0 <= m < n && z == codec.zone_key(
                        a.owner,
                        a.surface,
                        (#[trigger] chunks@[m]).0,
                        chunks@[m].1,
                    );
                assert(chunks@.contains(chunks@[m]));
                assert(in_disk(*codec, a.q, a.r, radius, chunks@[m].0, chunks@[m].1));
            }
        }
    }
}

/// One anchor's covered zones and their tightest tiers.
pub fn anchor_coverage<C: Codec>(codec: &C, a: &Anchor) -> (cov: OrdMap<ZoneTier>)
    requires
        codec.wf(),
    ensures
        cov.wf(),
        forall|z: u64| #[trigger] lookup(cov@, z) == anchor_tier(*codec, *a, z),
{
    let mut cov: OrdMap<ZoneTier> = OrdMap::new();
    let tiers = a.radii.tiers();
    cover_disk(codec, a, tiers[0].0, tiers[0].1, &mut cov);
    cover_disk(codec, a, tiers[1].0, tiers[1].1, &mut cov);
    cover_disk(codec, a, tiers[2].0, tiers[2].1, &mut cov);
    cover_disk(codec, a, tiers[3].0, tiers[3].1, &mut cov);
    cov
}

/// The tighter of two tiers.
pub open spec fn tighter(a: Option<ZoneTier>, b: Option<ZoneTier>) -> Option<ZoneTier> {
    match (a, b) {
        (Some(x), Some(y)) => if tier_rank_spec(y) > tier_rank_spec(x) {
            b
        } else {
            a
        },
        (None, _) => b,
        (_, None) => a,
    }
}

/// The tightest tier any anchor gives `zone`.
pub open spec fn best_tier<C: Codec>(
    codec: C,
    anchors: Seq<(Seq<char>, Anchor)>,
    zone: u64,
) -> Option<ZoneTier>
    decreases anchors.len(),
{
    if anchors.len() == 0 {
        None
    } else {
        tighter(
            best_tier(codec, anchors.drop_last(), zone),
            anchor_tier(codec, anchors.last().1, zone),
        )
    }
}

/// The tier of a zone: Active while a hold keeps it, else the tightest any anchor
/// gives it.
pub open spec fn tier_from<C: Codec>(
    codec: C,
    anchors: Seq<(Seq<char>, Anchor)>,
    refs: Map<u64, u64>,
    zone: u64,
) -> Option<ZoneTier> {
    if refs.dom().contains(zone) {
        Some(ZoneTier::Active)
    } else {
        best_tier(codec, anchors, zone)
    }
}

/// The map holds exactly the zones that anchors and holds give a tier.
pub open spec fn is_tier_map<C: Codec>(
    m: Map<u64, ZoneTier>,
    codec: C,
    anchors: Seq<(Seq<char>, Anchor)>,
    refs: Map<u64, u64>,
) -> bool {
    forall|z: u64| #[trigger] lookup(m, z) == tier_from(codec, anchors, refs, z)
}

/// The anchor stands for that soul.
pub open spec fn stands_for(a: Anchor, soul: u64) -> bool {
    a.soul != 0 && a.soul as u64 == soul
}

/// Some anchor stands for that soul.
pub open spec fn has_anchor(anchors: Seq<(Seq<char>, Anchor)>, soul: u64) -> bool {
    exists|i: int| 0 <= i < anchors.len() && stands_for((#[trigger] anchors[i]).1, soul)
}

/// The tightest tier the soul's own anchors give `zone`.
pub open spec fn soul_tier<C: Codec>(
    codec: C,
    anchors: Seq<(Seq<char>, Anchor)>,
    soul: u64,
    zone: u64,
) -> Option<ZoneTier>
    decreases anchors.len(),
{
    if anchors.len() == 0 {
        None
    } else {
        let before = soul_tier(codec, anchors.drop_last(), soul, zone);
        if stands_for(anchors.last().1, soul) {
            tighter(before, anchor_tier(codec, anchors.last().1, zone))
        } else {
            before
        }
    }
}

/// The zones a soul covers, with their tiers; none if no anchor stands for it.
pub open spec fn soul_coverage<C: Codec>(
    codec: C,
    anchors: Seq<(Seq<char>, Anchor)>,
    soul: u64,
) -> Map<u64, ZoneTier> {
    Map::new(
        |z: u64| soul_tier(codec, anchors, soul, z) is Some,
        |z: u64| soul_tier(codec, anchors, soul, z)->0,
    )
}

/// What one soul remembers, among what all of them do; nothing if it was never heard of.
pub open spec fn memory_of(mem: Map<u64, Map<u64, MemEntry>>, soul: u64) -> Map<u64, MemEntry> {
    if mem.dom().contains(soul) {
        mem[soul]
    } else {
        Map::empty()
    }
}

/// What the souls remember after each of them has looked around: those that anchors stand
/// for, and those that remember something though none does any more.
pub open spec fn remembered<C: Codec>(
    codec: C,
    anchors: Seq<(Seq<char>, Anchor)>,
    mem: Map<u64, Map<u64, MemEntry>>,
    now: u64,
) -> Map<u64, Map<u64, MemEntry>> {
    Map::new(
        |s: u64| mem.dom().contains(s) || has_anchor(anchors, s),
        |s: u64| looked_around(memory_of(mem, s), soul_coverage(codec, anchors, s), now),
    )
}

/// The anchor of that name.
pub open spec fn named(anchors: Seq<(Seq<char>, Anchor)>, name: Seq<char>) -> Option<Anchor>
    decreases anchors.len(),
{
    if anchors.len() == 0 {
        None
    } else if anchors.last().0 == name {
        Some(anchors.last().1)
    } else {
        named(anchors.drop_last(), name)
    }
}

/// The anchors with one of them set: in its place if the name is taken, else last.
pub open spec fn with_anchor(
    anchors: Seq<(Seq<char>, Anchor)>,
    name: Seq<char>,
    a: Anchor,
) -> Seq<(Seq<char>, Anchor)> {
    if named(anchors, name) is Some {
        anchors.map_values(
            |p: (Seq<char>, Anchor)|
                if p.0 == name {
                    (name, a)
                } else {
                    p
                },
        )
    } else {
        anchors.push((name, a))
    }
}

/// The anchors without the one of that name.
pub open spec fn without_anchor(
    anchors: Seq<(Seq<char>, Anchor)>,
    name: Seq<char>,
) -> Seq<(Seq<char>, Anchor)>
    decreases anchors.len(),
{
    if anchors.len() == 0 {
        anchors
    } else if anchors.last().0 == name {
        without_anchor(anchors.drop_last(), name)
    } else {
        without_anchor(anchors.drop_last(), name).push(anchors.last())
    }
}

/// Bit `bit` of `word` is set.
pub open spec fn has_bit(word: u64, bit: u8) -> bool {
    word & (1u64 << bit) != 0
}

/// What a zone still needs, by what is known of its region.
pub open spec fn need_of(bits: Option<RegionBits>, bit: u8) -> ZoneNeed {
    match bits {
        None => ZoneNeed::Ensure,
        Some(b) => if has_bit(b.available, bit) {
            ZoneNeed::Satisfied
        } else if has_bit(b.presence, bit) {
            ZoneNeed::Request
        } else {
            ZoneNeed::Satisfied
        },
    }
}

/// Merge one anchor's coverage: the tighter tier wins.
fn merge_tighter(desired: &mut OrdMap<ZoneTier>, cov: &OrdMap<ZoneTier>)
    requires
        old(desired).wf(),
        cov.wf(),
    ensures
        final(desired).wf(),
        forall|z: u64| #[trigger]
            lookup(final(desired)@, z) == tighter(lookup(old(desired)@, z), lookup(cov@, z)),
{
    let ghost o = desired@;
    proof {
        cov.lemma_ks();
    }
    let n: usize = cov.len();
    let mut i: usize = 0;
    while i < n
        invariant
            desired.wf(),
            cov.wf(),
            n == cov.ks().len(),
            i <= n,
            ascending(cov.ks()),
            forall|z: u64| #[trigger] cov@.dom().contains(z) <==> cov.ks().contains(z),
            forall|z: u64| #[trigger]
                lookup(desired@, z) == if cov.ks().take(i as int).contains(z) {
                    tighter(lookup(o, z), lookup(cov@, z))
                } else {
                    lookup(o, z)
                },
        decreases n - i,
    {
        let zone: u64 = cov.key_at(i);
        let tier: ZoneTier = *cov.val_at(i);
        let ghost before = desired@;
        proof {
            let prefix = cov.ks().take(i as int);
            if prefix.contains(zone) {
                let j = prefix.index_of(zone);
                assert(cov.ks()[j] == zone);
            }
            assert(lookup(before, zone) == lookup(o, zone));
            assert forall|y: u64| cov.ks().take(i + 1).contains(y) <==> (prefix.contains(y) || y
                == zone) by {
                if prefix.contains(y) {
                    let j = prefix.index_of(y);
                    assert(cov.ks().take(i + 1)[j] == y);
                }
                assert(cov.ks().take(i + 1)[i as int] == zone);
                if cov.ks().take(i + 1).contains(y) && y != zone {
                    let j = cov.ks().take(i + 1).index_of(y);
                    assert(prefix[j] == y);
                }
            }
        }
        let replace: bool = match desired.get(zone) {
            Some(held) => tier_rank(tier) > tier_rank(*held),
            None => true,
        };
        if replace {
            desired.insert(zone, tier);
        }
        proof {
            assert forall|y: u64| #[trigger]
                lookup(desired@, y) == if cov.ks().take(i + 1).contains(y) {
                    tighter(lookup(o, y), lookup(cov@, y))
                } else {
                    lookup(o, y)
                } by {
                assert(lookup(before, y) == if cov.ks().take(i as int).contains(y) {
                    tighter(lookup(o, y), lookup(cov@, y))
                } else {
                    lookup(o, y)
                });
            }
        }
        i = i + 1;
    }
    assert(cov.ks().take(n as int) =~= cov.ks());
}

/// The zone registry: anchors, tiers, holds, subscriptions, regions and memory.
pub struct ZoneManager<C: Codec> {
    codec: C,
    entries: OrdMap<ZoneTier>,
    refs: OrdMap<u64>,
    table: SubTable,
    memory: SoulMemory,
    anchors: Vec<(String, Anchor)>,
    /// Ceiling on open subscriptions.
    pub max_open_subs: usize,
    /// How many zones one soul remembers.
    pub max_memory_zones: usize,
}

impl<C: Codec> ZoneManager<C> {
    pub closed spec fn codec(&self) -> C {
        self.codec
    }

    /// The anchors, in the order in which they were first set.
    pub closed spec fn anchors(&self) -> Seq<(Seq<char>, Anchor)> {
        self.anchors@.map_values(|p: (String, Anchor)| (p.0@, p.1))
    }

    /// The holds on zones, with their counts.
    pub closed spec fn refs(&self) -> Map<u64, u64> {
        self.refs@
    }

    /// The tracked zones.
    pub closed spec fn tiers(&self) -> Map<u64, ZoneTier> {
        self.entries@
    }

    /// The open subscriptions.
    pub closed spec fn subs(&self) -> Map<SubKey, SubState> {
        self.table.subs()
    }

    /// What is known of regions.
    pub closed spec fn bits(&self) -> Map<u64, RegionBits> {
        self.table.bits()
    }

    /// The decisions not yet drained.
    pub closed spec fn pending(&self) -> Seq<ZoneIntent> {
        self.table.pending()
    }

    /// What each soul remembers.
    pub closed spec fn mem(&self) -> Map<u64, Map<u64, MemEntry>> {
        self.memory@
    }

    /// The ceiling on open subscriptions.
    pub closed spec fn sub_cap(&self) -> usize {
        self.max_open_subs
    }

    /// How many zones one soul remembers.
    pub closed spec fn memory_cap(&self) -> usize {
        self.max_memory_zones
    }

    /// What one soul remembers of one zone.
    pub open spec fn recall(&self, soul: u32, zone: u64) -> Option<MemEntry> {
        if self.mem().dom().contains(soul as u64) {
            lookup(self.mem()[soul as u64], zone)
        } else {
            None
        }
    }

    spec fn parts_wf(&self) -> bool {
        &&& self.entries.wf()
        &&& self.refs.wf()
        &&& self.table.wf(self.codec)
        &&& self.memory.wf()
        &&& forall|z: u64| #[trigger] self.refs@.dom().contains(z) ==> self.refs@[z] > 0
        &&& distinct_names(self.anchors())
    }

    pub closed spec fn wf(&self) -> bool {
        &&& self.parts_wf()
        &&& is_tier_map(self.entries@, self.codec, self.anchors(), self.refs@)
        &&& forall|k: SubKey| #[trigger]
            self.subs().dom().contains(k) ==> self.subs()[k].wanted == wants(
                k.1,
                lookup(self.entries@, k.0),
            )
        &&& forall|k: SubKey| wants(k.1, lookup(self.entries@, k.0)) ==> #[trigger]
            self.subs().dom().contains(k)
    }

    /// A sound manager tracks exactly the zones that anchors and holds give a tier,
    /// and every subscription its tier asks for is open.
    pub proof fn lemma_wf(&self)
        requires
            self.wf(),
        ensures
            self.codec().wf(),
            is_tier_map(self.tiers(), self.codec(), self.anchors(), self.refs()),
            self.subs().dom().finite(),
            self.mem().dom().finite(),
            forall|s: u64| #[trigger] self.mem().dom().contains(s) ==> self.mem()[s].dom().finite(),
            forall|k: SubKey| #[trigger]
                self.subs().dom().contains(k) ==> self.subs()[k].wanted == wants(
                    k.1,
                    lookup(self.tiers(), k.0),
                ),
            forall|k: SubKey| wants(k.1, lookup(self.tiers(), k.0)) ==> #[trigger]
                self.subs().dom().contains(k),
    {
        self.table.lemma_wf(self.codec);
        self.memory.lemma_wf();
    }

    /// `self` is `old` with these anchors and holds, everything else following
    /// from them: tiers, subscriptions (nothing closed but what the ceiling took),
    /// decisions, and memory.
    pub open spec fn recomputed(
        &self,
        old: &Self,
        anchors: Seq<(Seq<char>, Anchor)>,
        refs: Map<u64, u64>,
        now: u64,
    ) -> bool {
        &&& self.codec() == old.codec()
        &&& self.sub_cap() == old.sub_cap()
        &&& self.memory_cap() == old.memory_cap()
        &&& self.anchors() == anchors
        &&& self.refs() == refs
        &&& is_tier_map(self.tiers(), self.codec(), anchors, refs)
        &&& evicted(
            touched(old.subs(), self.tiers(), now),
            self.subs(),
            self.sub_cap() as nat,
        )
        &&& self.announced(old)
        &&& closes_oldest_first(
            self.pending().skip(old.pending().len() as int),
            touched(old.subs(), self.tiers(), now),
        )
        &&& self.mem().dom() == remembered(self.codec(), anchors, old.mem(), now).dom()
        &&& forall|s: u64| #[trigger]
            self.mem().dom().contains(s) ==> forgot(
                remembered(self.codec(), anchors, old.mem(), now)[s],
                self.mem()[s],
                self.memory_cap() as nat,
            )
    }

    /// The decisions added since `old` are exactly what changed, and what was known
    /// of a region goes with its last open zone.
    pub open spec fn announced(&self, old: &Self) -> bool {
        &&& old.pending().len() <= self.pending().len()
        &&& self.pending().take(old.pending().len() as int) == old.pending()
        &&& announces(
            self.codec(),
            self.pending().skip(old.pending().len() as int),
            old.subs().dom(),
            self.subs().dom(),
        )
        &&& self.bits() == old.bits().remove_keys(
            regions_in(self.codec(), old.subs().dom()).difference(
                regions_in(self.codec(), self.subs().dom()),
            ),
        )
    }

    pub fn new(codec: C) -> (m: Self)
        requires
            codec.wf(),
        ensures
            m.wf(),
            m.is_new(codec),
    {
        let table = SubTable::new(&codec);
        let m = ZoneManager {
            codec,
            entries: OrdMap::new(),
            refs: OrdMap::new(),
            table,
            memory: SoulMemory::new(),
            anchors: Vec::new(),
            max_open_subs: 512,
            max_memory_zones: 4096,
        };
        assert(m.anchors() =~= Seq::empty());
        m
    }

    /// A manager that nothing has happened to.
    pub open spec fn is_new(&self, codec: C) -> bool {
        &&& self.codec() == codec
        &&& self.anchors() == Seq::<(Seq<char>, Anchor)>::empty()
        &&& self.refs() == Map::<u64, u64>::empty()
        &&& self.tiers() == Map::<u64, ZoneTier>::empty()
        &&& self.subs() == Map::<SubKey, SubState>::empty()
        &&& self.bits() == Map::<u64, RegionBits>::empty()
        &&& self.pending() == Seq::<ZoneIntent>::empty()
        &&& self.mem() == Map::<u64, Map<u64, MemEntry>>::empty()
        &&& self.sub_cap() == 512
        &&& self.memory_cap() == 4096
    }

    /// Set the ceiling on open subscriptions. It takes effect with the next change of
    /// anchors or holds.
    pub fn set_max_open_subs(&mut self, n: usize)
        requires
            old(self).wf(),
        ensures
            final(self).wf(),
            final(self).sub_cap() == n,
            final(self).memory_cap() == old(self).memory_cap(),
            final(self).same_but_caps(old(self)),
    {
        let ghost o = *self;
        self.max_open_subs = n;
        assert(self.anchors() =~= o.anchors());
        assert(self.subs() == o.subs());
    }

    /// Set how many zones one soul remembers. It takes effect with the next change of
    /// anchors or holds.
    pub fn set_max_memory_zones(&mut self, n: usize)
        requires
            old(self).wf(),
        ensures
            final(self).wf(),
            final(self).memory_cap() == n,
            final(self).sub_cap() == old(self).sub_cap(),
            final(self).same_but_caps(old(self)),
    {
        let ghost o = *self;
        self.max_memory_zones = n;
        assert(self.anchors() =~= o.anchors());
        assert(self.subs() == o.subs());
    }

    /// The two differ in their bounds at most.
    pub open spec fn same_but_caps(&self, old: &Self) -> bool {
        &&& self.codec() == old.codec()
        &&& self.anchors() == old.anchors()
        &&& self.refs() == old.refs()
        &&& self.tiers() == old.tiers()
        &&& self.subs() == old.subs()
        &&& self.bits() == old.bits()
        &&& self.pending() == old.pending()
        &&& self.mem() == old.mem()
    }

    /// Drain the decisions.
    pub fn take_intents(&mut self) -> (out: Vec<ZoneIntent>)
        requires
            old(self).wf(),
        ensures
            final(self).wf(),
            out@ == old(self).pending(),
            final(self).pending() == Seq::<ZoneIntent>::empty(),
            final(self).same_but_pending(old(self)),
    {
        let ghost o = *self;
        let out = self.table.take_intents(&self.codec);
        assert(self.anchors() =~= o.anchors());
        assert(self.subs() == o.subs());
        out
    }

    /// The two differ in their undrained decisions at most.
    pub open spec fn same_but_pending(&self, old: &Self) -> bool {
        &&& self.codec() == old.codec()
        &&& self.anchors() == old.anchors()
        &&& self.refs() == old.refs()
        &&& self.tiers() == old.tiers()
        &&& self.subs() == old.subs()
        &&& self.bits() == old.bits()
        &&& self.mem() == old.mem()
        &&& self.sub_cap() == old.sub_cap()
        &&& self.memory_cap() == old.memory_cap()
    }

    /// The tier of every zone: the tightest over all anchors, and Active for every
    /// zone a hold keeps.
    fn desired_tiers(&self) -> (desired: OrdMap<ZoneTier>)
        requires
            self.parts_wf(),
        ensures
            desired.wf(),
            is_tier_map(desired@, self.codec, self.anchors(), self.refs@),
    {
        let ghost anchors = self.anchors();
        let mut desired: OrdMap<ZoneTier> = OrdMap::new();
        proof {
            self.table.lemma_wf(self.codec);
            assert(anchors.take(0) =~= Seq::empty());
        }
        let n: usize = self.anchors.len();
        let mut i: usize = 0;
        while i < n
            invariant
                self.parts_wf(),
                self.codec.wf(),
                anchors == self.anchors(),
                n == self.anchors@.len(),
                n == anchors.len(),
                i <= n,
                desired.wf(),
                forall|z: u64| #[trigger]
                    lookup(desired@, z) == best_tier(self.codec, anchors.take(i as int), z),
            decreases n - i,
        {
            let a: Anchor = self.anchors[i].1;
            let ghost before = desired@;
            let cov = anchor_coverage(&self.codec, &a);
            merge_tighter(&mut desired, &cov);
            proof {
                assert(anchors[i as int].1 == a);
                assert(anchors.take(i + 1).drop_last() =~= anchors.take(i as int));
                assert(anchors.take(i + 1).last() == anchors[i as int]);
                assert forall|z: u64| #[trigger] lookup(desired@, z) == best_tier(
                    self.codec,
                    anchors.take(i + 1),
                    z,
                ) by {
                    assert(lookup(cov@, z) == anchor_tier(self.codec, a, z));
                    assert(lookup(before, z) == best_tier(
                        self.codec,
                        anchors.take(i as int),
                        z,
                    ));
                }
            }
            i = i + 1;
        }
        assert(anchors.take(n as int) =~= anchors);
        let ghost by_anchor = desired@;
        proof {
            self.refs.lemma_ks();
        }
        let c: usize = self.refs.len();
        let mut p: usize = 0;
        while p < c
            invariant
                self.refs.wf(),
                c == self.refs.ks().len(),
                p <= c,
                desired.wf(),
                forall|z: u64| #[trigger]
                    lookup(desired@, z) == if self.refs.ks().take(p as int).contains(z) {
                        Some(ZoneTier::Active)
                    } else {
                        lookup(by_anchor, z)
                    },
            decreases c - p,
        {
            let zone: u64 = self.refs.key_at(p);
            let ghost before = desired@;
            desired.insert(zone, ZoneTier::Active);
            proof {
                let prefix = self.refs.ks().take(p as int);
                assert forall|y: u64| self.refs.ks().take(p + 1).contains(y) <==> (prefix.contains(
                    y,
                ) || y == zone) by {
                    if prefix.contains(y) {
                        let j = prefix.index_of(y);
                        assert(self.refs.ks().take(p + 1)[j] == y);
                    }
                    assert(self.refs.ks().take(p + 1)[p as int] == zone);
                    if self.refs.ks().take(p + 1).contains(y) && y != zone {
                        let j = self.refs.ks().take(p + 1).index_of(y);
                        assert(prefix[j] == y);
                    }
                }
                assert forall|z: u64| #[trigger]
                    lookup(desired@, z) == if self.refs.ks().take(p + 1).contains(z) {
                        Some(ZoneTier::Active)
                    } else {
                        lookup(by_anchor, z)
                    } by {
                    assert(lookup(before, z) == if prefix.contains(z) {
                        Some(ZoneTier::Active)
                    } else {
                        lookup(by_anchor, z)
                    });
                }
            }
            p = p + 1;
        }
        proof {
            assert(self.refs.ks().take(c as int) =~= self.refs.ks());
            assert forall|z: u64| #[trigger] lookup(desired@, z) == tier_from(
                self.codec,
                self.anchors(),
                self.refs@,
                z,
            ) by {
                assert(lookup(desired@, z) == if self.refs.ks().contains(z) {
                    Some(ZoneTier::Active)
                } else {
                    lookup(by_anchor, z)
                });
                assert(lookup(by_anchor, z) == best_tier(self.codec, anchors, z));
            }
        }
        desired
    }

    /// The zones a soul covers, with their tiers.
    fn coverage_of(&self, soul: u64) -> (cov: OrdMap<ZoneTier>)
        requires
            self.parts_wf(),
        ensures
            cov.wf(),
            cov@ == soul_coverage(self.codec, self.anchors(), soul),
    {
        let ghost anchors = self.anchors();
        let mut cov: OrdMap<ZoneTier> = OrdMap::new();
        proof {
            self.table.lemma_wf(self.codec);
            assert(anchors.take(0) =~= Seq::empty());
        }
        let n: usize = self.anchors.len();
        let mut i: usize = 0;
        while i < n
            invariant
                self.codec.wf(),
                anchors == self.anchors(),
                n == self.anchors@.len(),
                n == anchors.len(),
                i <= n,
                cov.wf(),
                forall|z: u64| #[trigger]
                    lookup(cov@, z) == soul_tier(self.codec, anchors.take(i as int), soul, z),
            decreases n - i,
        {
            let a: Anchor = self.anchors[i].1;
            let ghost before = cov@;
            proof {
                assert(anchors[i as int].1 == a);
                assert(anchors.take(i + 1).drop_last() =~= anchors.take(i as int));
                assert(anchors.take(i + 1).last() == anchors[i as int]);
            }
            if a.soul != 0 && a.soul as u64 == soul {
                let more = anchor_coverage(&self.codec, &a);
                merge_tighter(&mut cov, &more);
                assert forall|z: u64| #[trigger] lookup(cov@, z) == soul_tier(
                    self.codec,
                    anchors.take(i + 1),
                    soul,
                    z,
                ) by {
                    assert(lookup(more@, z) == anchor_tier(self.codec, a, z));
                    assert(lookup(before, z) == soul_tier(
                        self.codec,
                        anchors.take(i as int),
                        soul,
                        z,
                    ));
                }
            }
            i = i + 1;
        }
        proof {
            assert(anchors.take(n as int) =~= anchors);
            let m = soul_coverage(self.codec, anchors, soul);
            assert forall|z: u64| cov@.dom().contains(z) <==> m.dom().contains(z) by {
                assert(lookup(cov@, z) == soul_tier(self.codec, anchors, soul, z));
            }
            assert forall|z: u64| cov@.dom().contains(z) implies cov@[z] == m[z] by {
                assert(lookup(cov@, z) == soul_tier(self.codec, anchors, soul, z));
            }
            assert(cov@ =~= m);
        }
        cov
    }

    /// The souls that look around: those that remember something, and those that anchors
    /// stand for.
    fn all_souls(&self) -> (who: OrdMap<()>)
        requires
            self.parts_wf(),
        ensures
            who.wf(),
            forall|s: u64| #[trigger]
                who@.dom().contains(s) <==> self.mem().dom().contains(s) || has_anchor(
                    self.anchors(),
                    s,
                ),
    {
        let ghost anchors = self.anchors();
        let mut who = self.memory.souls();
        let n: usize = self.anchors.len();
        let mut i: usize = 0;
        while i < n
            invariant
                anchors == self.anchors(),
                n == self.anchors@.len(),
                n == anchors.len(),
                i <= n,
                who.wf(),
                forall|s: u64| #[trigger]
                    who@.dom().contains(s) <==> self.mem().dom().contains(s) || exists|j: int|
                        0 <= j < i && stands_for((#[trigger] anchors[j]).1, s),
            decreases n - i,
        {
            let soul: u32 = self.anchors[i].1.soul;
            let ghost before = who@;
            assert(anchors[i as int].1 == self.anchors@[i as int].1);
            if soul != 0 {
                who.insert(soul as u64, ());
            }
            proof {
                assert forall|s: u64| #[trigger] who@.dom().contains(s) <==> self.mem().dom().contains(
                    s,
                ) || exists|j: int| 0 <= j < i + 1 && stands_for((#[trigger] anchors[j]).1, s) by {
                    assert(before.dom().contains(s) <==> self.mem().dom().contains(s) || exists|j: int|
                        0 <= j < i && stands_for((#[trigger] anchors[j]).1, s));
                    if stands_for(anchors[i as int].1, s) {
                        assert(s == soul as u64);
                    }
                }
            }
            i = i + 1;
        }
        who
    }

    /// Let every soul look around under its own anchors, then enforce the bound on memory.
    /// A soul that lost its last anchor covers nothing, so that all it knows freezes.
    fn update_memory(&mut self, now: u64)
        requires
            old(self).parts_wf(),
        ensures
            final(self).parts_wf(),
            final(self).codec == old(self).codec,
            final(self).entries == old(self).entries,
            final(self).refs == old(self).refs,
            final(self).table == old(self).table,
            final(self).anchors == old(self).anchors,
            final(self).max_open_subs == old(self).max_open_subs,
            final(self).max_memory_zones == old(self).max_memory_zones,
            final(self).mem().dom() == remembered(
                old(self).codec,
                old(self).anchors(),
                old(self).mem(),
                now,
            ).dom(),
            forall|s: u64| #[trigger]
                final(self).mem().dom().contains(s) ==> forgot(
                    remembered(
                        old(self).codec,
                        old(self).anchors(),
                        old(self).mem(),
                        now,
                    )[s],
                    final(self).mem()[s],
                    old(self).max_memory_zones as nat,
                ),
    {
        let ghost o = *self;
        let ghost anchors = self.anchors();
        let ghost target = remembered(o.codec, anchors, o.mem(), now);
        let who = self.all_souls();
        let ghost ks = who.ks();
        proof {
            who.lemma_ks();
            assert forall|s: u64| #[trigger] ks.contains(s) <==> target.dom().contains(s) by {
                assert(who@.dom().contains(s) <==> ks.contains(s));
            }
            assert(ks.take(0) =~= Seq::empty());
        }
        let n: usize = who.len();
        let mut i: usize = 0;
        while i < n
            invariant
                o.parts_wf(),
                who.wf(),
                ks == who.ks(),
                ascending(ks),
                n == ks.len(),
                i <= n,
                self.memory.wf(),
                self.codec == o.codec,
                self.entries == o.entries,
                self.refs == o.refs,
                self.table == o.table,
                self.anchors == o.anchors,
                self.max_open_subs == o.max_open_subs,
                self.max_memory_zones == o.max_memory_zones,
                anchors == o.anchors(),
                target == remembered(o.codec, anchors, o.mem(), now),
                forall|s: u64| #[trigger] ks.contains(s) <==> target.dom().contains(s),
                forall|s: u64| #[trigger]
                    lookup(self.memory@, s) == if ks.take(i as int).contains(s) {
                        Some(target[s])
                    } else {
                        lookup(o.mem(), s)
                    },
            decreases n - i,
        {
            let soul: u64 = who.key_at(i);
            let ghost before = self.memory@;
            let ghost prefix = ks.take(i as int);
            proof {
                assert(self.anchors() =~= o.anchors());
                if prefix.contains(soul) {
                    let j = prefix.index_of(soul);
                    assert(ks[j] == soul);
                }
                assert(lookup(before, soul) == lookup(o.mem(), soul));
                assert(self.memory.of(soul) =~= memory_of(o.mem(), soul));
                lemma_prefix(ks, i as int);
            }
            let cov = self.coverage_of(soul);
            self.memory.look_around(soul, &cov, now);
            proof {
                assert(ks.contains(soul));
                assert(self.memory@[soul] == target[soul]);
                assert forall|s: u64| #[trigger]
                    lookup(self.memory@, s) == if ks.take(i + 1).contains(s) {
                        Some(target[s])
                    } else {
                        lookup(o.mem(), s)
                    } by {
                    assert(lookup(before, s) == if prefix.contains(s) {
                        Some(target[s])
                    } else {
                        lookup(o.mem(), s)
                    });
                }
            }
            i = i + 1;
        }
        proof {
            assert(ks.take(n as int) =~= ks);
            assert forall|s: u64| self.memory@.dom().contains(s) <==> target.dom().contains(s) by {
                assert(lookup(self.memory@, s) is Some <==> self.memory@.dom().contains(s));
                assert(ks.contains(s) <==> target.dom().contains(s));
            }
            assert forall|s: u64| self.memory@.dom().contains(s) implies self.memory@[s]
                == target[s] by {
                assert(lookup(self.memory@, s) == Some(self.memory@[s]));
            }
            assert(self.memory@ =~= target);
        }
        self.memory.forget(self.max_memory_zones);
        assert(self.anchors() =~= o.anchors());
    }

    /// Bring everything in line with the anchors and holds.
    fn recompute_anchor_zones(&mut self, now: u64)
        requires
            old(self).parts_wf(),
        ensures
            final(self).wf(),
            final(self).recomputed(old(self), old(self).anchors(), old(self).refs(), now),
    {
        let ghost o = *self;
        let desired = self.desired_tiers();
        self.entries = desired;
        self.table.refit(&self.codec, &self.entries, now, self.max_open_subs);
        let ghost t = touched(o.subs(), self.entries@, now);
        proof {
            assert(self.anchors() =~= o.anchors());
        }
        self.update_memory(now);
        proof {
            assert(self.anchors() =~= o.anchors());
            assert forall|k: SubKey| #[trigger] self.subs().dom().contains(k) implies self.subs()[k].wanted
                == wants(k.1, lookup(self.entries@, k.0)) by {
                assert(self.subs()[k] == t[k]);
            }
            assert forall|k: SubKey| wants(k.1, lookup(self.entries@, k.0)) implies #[trigger] self.subs().dom().contains(
                k,
            ) by {
                assert(t.dom().contains(k));
                assert(t[k].wanted);
            }
        }
    }

    /// Where the anchor of that name stands in the list.
    fn find_anchor(&self, name: &String) -> (r: Option<usize>)
        requires
            distinct_names(self.anchors()),
        ensures
            r matches Some(i) ==> i < self.anchors@.len() && self.anchors@[i as int].0@ == name@
                && named(self.anchors(), name@) == Some(self.anchors@[i as int].1),
            r is None ==> named(self.anchors(), name@) is None && forall|i: int|
                0 <= i < self.anchors().len() ==> (#[trigger] self.anchors()[i]).0 != name@,
    {
        let ghost anchors = self.anchors();
        let n: usize = self.anchors.len();
        let mut i: usize = 0;
        while i < n
            invariant
                anchors == self.anchors(),
                n == self.anchors@.len(),
                n == anchors.len(),
                i <= n,
                distinct_names(anchors),
                forall|j: int| 0 <= j < i ==> (#[trigger] anchors[j]).0 != name@,
            decreases n - i,
        {
            assert(anchors[i as int] == (self.anchors@[i as int].0@, self.anchors@[i as int].1));
            if self.anchors[i].0 == *name {
                proof {
                    lemma_named(anchors, i as int);
                }
                return Some(i);
            }
            i = i + 1;
        }
        proof {
            lemma_not_named(anchors, name@);
        }
        None
    }

    /// `self` is `old` with a named anchor set. Setting it to what it already is
    /// changes nothing.
    pub open spec fn anchored_from(&self, old: &Self, name: Seq<char>, a: Anchor, now: u64) -> bool {
        if named(old.anchors(), name) == Some(a) {
            *self == *old
        } else {
            self.recomputed(old, with_anchor(old.anchors(), name, a), old.refs(), now)
        }
    }

    /// Set a named anchor.
    pub fn set_anchor(
        &mut self,
        name: &str,
        q: i32,
        r: i32,
        surface: u8,
        owner: u32,
        radii: AnchorRadii,
        soul: u32,
        now: u64,
    )
        requires
            old(self).wf(),
        ensures
            final(self).wf(),
            final(self).anchored_from(
                old(self),
                name@,
                (Anchor { q, r, surface, owner, radii, soul }),
                now,
            ),
            radii.active > 0 && lies_on_grid(
                final(self).codec(),
                (Anchor { q, r, surface, owner, radii, soul }),
            ) ==> lookup(
                final(self).tiers(),
                final(self).codec().zone_key(
                    owner,
                    surface,
                    final(self).codec().fold(q).0,
                    final(self).codec().fold(r).0,
                ),
            ) == Some(ZoneTier::Active),
    {
        let ghost o = *self;
        let next = Anchor { q, r, surface, owner, radii, soul };
        let key: String = name.to_owned();
        let ghost after = with_anchor(o.anchors(), name@, next);
        match self.find_anchor(&key) {
            Some(i) => {
                if self.anchors[i].1 == next {
                    proof {
                        if radii.active > 0 && lies_on_grid(self.codec(), next) {
                            law_anchor_lights_its_own_zone(o, *self, name@, next, now);
                        }
                    }
                    return ;
                }
                self.anchors.set(i, (key, next));
                proof {
                    assert(self.anchors() =~= after) by {
                        assert forall|j: int| 0 <= j < after.len() implies self.anchors()[j]
                            == after[j] by {
                            assert(o.anchors()[i as int].0 == name@);
                            assert(o.anchors()[j].0 == o.anchors@[j].0@);
                        }
                    }
                }
            },
            None => {
                self.anchors.push((key, next));
                assert(self.anchors() =~= after);
            },
        }
        proof {
            assert(distinct_names(self.anchors())) by {
                assert forall|a: int, b: int| 0 <= a < b < after.len() implies (#[trigger] after[a]).0
                    != (#[trigger] after[b]).0 by {
                    if named(o.anchors(), name@) is Some {
                        assert(after[a].0 == o.anchors()[a].0);
                        assert(after[b].0 == o.anchors()[b].0);
                    } else {
                        assert(after[a] == o.anchors()[a]);
                        if b < o.anchors().len() {
                            assert(after[b] == o.anchors()[b]);
                        }
                    }
                }
            }
        }
        self.recompute_anchor_zones(now);
        proof {
            if radii.active > 0 && lies_on_grid(self.codec(), next) {
                law_anchor_lights_its_own_zone(o, *self, name@, next, now);
            }
        }
    }

    /// Drop a named anchor; what only it kept becomes a candidate.
    pub fn clear_anchor(&mut self, name: &str, now: u64)
        requires
            old(self).wf(),
        ensures
            final(self).wf(),
            named(old(self).anchors(), name@) is None ==> *final(self) == *old(self),
            named(old(self).anchors(), name@) is Some ==> final(self).recomputed(
                old(self),
                without_anchor(old(self).anchors(), name@),
                old(self).refs(),
                now,
            ),
    {
        let ghost o = *self;
        let key: String = name.to_owned();
        match self.find_anchor(&key) {
            Some(i) => {
                self.anchors.remove(i);
                proof {
                    lemma_without(o.anchors(), i as int);
                    assert(self.anchors() =~= o.anchors().remove(i as int));
                    let after = self.anchors();
                    assert forall|a: int, b: int| 0 <= a < b < after.len() implies (
                    #[trigger] after[a]).0 != (#[trigger] after[b]).0 by {
                        let x = if a < i {
                            a
                        } else {
                            a + 1
                        };
                        let y = if b < i {
                            b
                        } else {
                            b + 1
                        };
                        assert(after[a] == o.anchors()[x]);
                        assert(after[b] == o.anchors()[y]);
                    }
                }
                self.recompute_anchor_zones(now);
            },
            None => {},
        }
    }

    /// `self` is `old` with one more hold on a zone. The first hold brings everything
    /// else in line; a further one only counts, as far as counts go.
    pub open spec fn held_from(&self, old: &Self, zone: u64, now: u64) -> bool {
        if old.refs().dom().contains(zone) {
            &&& self.refs() == old.refs().insert(
                zone,
                if old.refs()[zone] < u64::MAX {
                    (old.refs()[zone] + 1) as u64
                } else {
                    u64::MAX
                },
            )
            &&& self.same_but_refs(old)
        } else {
            self.recomputed(old, old.anchors(), old.refs().insert(zone, 1), now)
        }
    }

    /// Hold a zone: it stays Active until released as often as it was held.
    pub fn ensure(&mut self, zone: u64, now: u64)
        requires
            old(self).wf(),
        ensures
            final(self).wf(),
            final(self).held_from(old(self), zone, now),
    {
        let ghost o = *self;
        let prev: u64 = match self.refs.get(zone) {
            Some(n) => *n,
            None => 0,
        };
        self.refs.insert(zone, prev.saturating_add(1));
        assert(self.anchors() =~= o.anchors());
        if prev == 0 {
            self.recompute_anchor_zones(now);
        } else {
            proof {
                assert(self.subs() == o.subs());
                assert(self.refs@.dom() =~= o.refs@.dom());
                assert forall|z: u64| #[trigger] lookup(self.entries@, z) == tier_from(
                    self.codec,
                    self.anchors(),
                    self.refs@,
                    z,
                ) by {
                    assert(lookup(o.entries@, z) == tier_from(o.codec, o.anchors(), o.refs@, z));
                }
            }
        }
    }

    /// The two differ in their holds at most.
    pub open spec fn same_but_refs(&self, old: &Self) -> bool {
        &&& self.codec() == old.codec()
        &&& self.anchors() == old.anchors()
        &&& self.tiers() == old.tiers()
        &&& self.subs() == old.subs()
        &&& self.bits() == old.bits()
        &&& self.pending() == old.pending()
        &&& self.mem() == old.mem()
        &&& self.sub_cap() == old.sub_cap()
        &&& self.memory_cap() == old.memory_cap()
    }

    /// Give up one hold on a zone.
    pub fn release(&mut self, zone: u64, now: u64)
        requires
            old(self).wf(),
        ensures
            final(self).wf(),
            final(self).recomputed(
                old(self),
                old(self).anchors(),
                released(old(self).refs(), zone),
                now,
            ),
    {
        let ghost o = *self;
        let prev: u64 = match self.refs.get(zone) {
            Some(n) => *n,
            None => 0,
        };
        if prev <= 1 {
            self.refs.remove(zone);
        } else {
            self.refs.insert(zone, prev - 1);
        }
        assert(self.refs() =~= released(o.refs(), zone));
        assert(self.anchors() =~= o.anchors());
        self.recompute_anchor_zones(now);
    }

    /// The inventory zone of a soul or container.
    pub open spec fn inventory_of(&self, card_id: u32) -> u64 {
        self.codec().zone_key(card_id, INVENTORY_LAYER, 0, 0)
    }

    /// The inventory zone of a soul or container.
    pub fn inventory(&self, card_id: u32) -> (zone: u64)
        requires
            self.wf(),
        ensures
            zone == self.inventory_of(card_id),
    {
        proof {
            self.lemma_wf();
        }
        self.codec.pack_macro_zone_full(card_id, INVENTORY_LAYER, 0, 0)
    }

    /// Hold the inventory zone of a soul or container.
    pub fn ensure_inventory(&mut self, soul_card_id: u32, now: u64)
        requires
            old(self).wf(),
        ensures
            final(self).wf(),
            final(self).held_from(old(self), old(self).inventory_of(soul_card_id), now),
    {
        proof {
            self.lemma_wf();
        }
        let zone: u64 = self.codec.pack_macro_zone_full(soul_card_id, INVENTORY_LAYER, 0, 0);
        self.ensure(zone, now);
    }

    /// The world tile coordinate of a cell.
    pub fn world_tile(&self, chunk: i16, local: u8) -> (tile: i32)
        requires
            self.wf(),
        ensures
            tile == self.codec().unfold(chunk, local),
    {
        proof {
            self.lemma_wf();
        }
        self.codec.world_tile(chunk, local)
    }

    /// The zone of a world tile on a surface, and the cell inside it.
    pub fn locate(&self, owner: u32, surface: u8, q: i32, r: i32) -> (cell: (u64, u8, u8))
        requires
            self.wf(),
        ensures
            cell == self.cell_at(owner, surface, q, r),
    {
        proof {
            self.lemma_wf();
        }
        let (zq, lq) = self.codec.zone_local(q);
        let (zr, lr) = self.codec.zone_local(r);
        (self.codec.pack_macro_zone_full(owner, surface, zq, zr), lq, lr)
    }

    /// The zone of a world tile on a surface, and the cell inside it.
    pub open spec fn cell_at(&self, owner: u32, surface: u8, q: i32, r: i32) -> (u64, u8, u8) {
        let (zq, lq) = self.codec().fold(q);
        let (zr, lr) = self.codec().fold(r);
        (self.codec().zone_key(owner, surface, zq, zr), lq, lr)
    }

    /// The region of a zone.
    pub fn region_of(&self, zone: u64) -> (region: u64)
        requires
            self.wf(),
        ensures
            region == self.codec().region_and_bit(zone).0,
    {
        proof {
            self.lemma_wf();
        }
        self.codec.region_of_zone(zone).0
    }

    /// The tier of a zone, if it is tracked.
    pub fn tier_of(&self, zone: u64) -> (t: Option<ZoneTier>)
        requires
            self.wf(),
        ensures
            t == lookup(self.tiers(), zone),
            t == tier_from(self.codec(), self.anchors(), self.refs(), zone),
    {
        proof {
            assert(lookup(self.entries@, zone) == tier_from(
                self.codec,
                self.anchors(),
                self.refs@,
                zone,
            ));
        }
        match self.entries.get(zone) {
            Some(t) => Some(*t),
            None => None,
        }
    }

    /// The zones of one tier, ascending.
    pub fn zones_in(&self, tier: ZoneTier) -> (out: Vec<u64>)
        requires
            self.wf(),
        ensures
            ascending(out@),
            forall|z: u64| #[trigger] out@.contains(z) <==> lookup(self.tiers(), z) == Some(tier),
    {
        proof {
            self.entries.lemma_ks();
        }
        let n: usize = self.entries.len();
        let mut out: Vec<u64> = Vec::new();
        let mut i: usize = 0;
        while i < n
            invariant
                self.wf(),
                n == self.entries.ks().len(),
                i <= n,
                ascending(self.entries.ks()),
                ascending(out@),
                forall|m: int|
                    0 <= m < out@.len() ==> lookup(self.entries@, #[trigger] out@[m]) == Some(tier)
                        && (i < n ==> out@[m] < self.entries.ks()[i as int]),
                forall|m: int|
                    0 <= m < i && lookup(self.entries@, #[trigger] self.entries.ks()[m]) == Some(
                        tier,
                    ) ==> out@.contains(self.entries.ks()[m]),
            decreases n - i,
        {
            let z: u64 = self.entries.key_at(i);
            let ghost before = out@;
            if *self.entries.val_at(i) == tier {
                out.push(z);
                assert(out@[before.len() as int] == z);
            }
            proof {
                assert forall|m: int| 0 <= m < i + 1 && lookup(
                    self.entries@,
                    #[trigger] self.entries.ks()[m],
                ) == Some(tier) implies out@.contains(self.entries.ks()[m]) by {
                    if m < i {
                        let a = before.index_of(self.entries.ks()[m]);
                        assert(out@[a] == before[a]);
                    }
                }
            }
            i = i + 1;
        }
        proof {
            assert forall|z: u64| #[trigger] out@.contains(z) <==> lookup(self.tiers(), z) == Some(
                tier,
            ) by {
                if lookup(self.tiers(), z) == Some(tier) {
                    let m = self.entries.ks().index_of(z);
                    assert(self.entries.ks()[m] == z);
                }
                if out@.contains(z) {
                    let m = out@.index_of(z);
                    assert(out@[m] == z);
                }
            }
        }
        out
    }

    /// The Active zones, ascending.
    pub fn active_zones(&self) -> (out: Vec<u64>)
        requires
            self.wf(),
        ensures
            ascending(out@),
            forall|z: u64| #[trigger]
                out@.contains(z) <==> lookup(self.tiers(), z) == Some(ZoneTier::Active),
    {
        self.zones_in(ZoneTier::Active)
    }

    /// The open subscriptions.
    pub fn open_subs(&self) -> (out: Vec<(u64, DataType)>)
        requires
            self.wf(),
        ensures
            out@.no_duplicates(),
            forall|k: SubKey| #[trigger] out@.contains(k) <==> self.subs().dom().contains(k),
            out@.len() == self.subs().dom().len(),
    {
        let out = self.table.open_subs(&self.codec);
        proof {
            out@.unique_seq_to_set();
            assert(out@.to_set() =~= self.subs().dom());
        }
        out
    }

    /// How many subscriptions are open.
    pub fn open_sub_count(&self) -> (n: usize)
        requires
            self.wf(),
            self.subs().dom().len() <= usize::MAX,
        ensures
            n == self.subs().dom().len(),
    {
        self.table.open_sub_count(&self.codec)
    }

    /// The moment a soul's card knowledge of a zone is current as of: `now` while
    /// it covers the zone, the frozen time once it has left.
    pub fn card_view_time(&self, soul: u32, zone: u64, now: u64) -> (t: Option<u64>)
        requires
            self.wf(),
        ensures
            t == self.card_view(soul, zone, now),
    {
        match self.memory.recall(soul as u64, zone) {
            Some(e) => if e.present {
                Some(now)
            } else {
                Some(e.card_ms)
            },
            None => None,
        }
    }

    pub open spec fn card_view(&self, soul: u32, zone: u64, now: u64) -> Option<u64> {
        match self.recall(soul, zone) {
            Some(e) => if e.present {
                Some(now)
            } else {
                Some(e.card_ms)
            },
            None => None,
        }
    }

    /// The frozen card times of a zone over all souls: what they pin for the sweep.
    pub fn zone_card_pins(&self, zone: u64) -> (pins: Vec<u64>)
        requires
            self.wf(),
        ensures
            exists|out: Seq<MemEntry>| #[trigger]
                is_frozen_list(self.mem(), zone, out) && pins@ == out.map_values(
                    |e: MemEntry| e.card_ms,
                ),
    {
        let entries = self.memory.frozen(zone);
        let n: usize = entries.len();
        let mut pins: Vec<u64> = Vec::new();
        let mut i: usize = 0;
        while i < n
            invariant
                n == entries@.len(),
                i <= n,
                pins@.len() == i,
                forall|j: int| 0 <= j < i ==> #[trigger] pins@[j] == entries@[j].card_ms,
            decreases n - i,
        {
            pins.push(entries[i].card_ms);
            i = i + 1;
        }
        assert(is_frozen_list(self.mem(), zone, entries@));
        assert(pins@ =~= entries@.map_values(|e: MemEntry| e.card_ms));
        pins
    }

    /// The frozen tile times of a zone over all souls.
    pub fn zone_tile_pins(&self, zone: u64) -> (pins: Vec<u64>)
        requires
            self.wf(),
        ensures
            exists|out: Seq<MemEntry>| #[trigger]
                is_frozen_list(self.mem(), zone, out) && pins@ == out.map_values(
                    |e: MemEntry| e.zone_ms,
                ),
    {
        let entries = self.memory.frozen(zone);
        let n: usize = entries.len();
        let mut pins: Vec<u64> = Vec::new();
        let mut i: usize = 0;
        while i < n
            invariant
                n == entries@.len(),
                i <= n,
                pins@.len() == i,
                forall|j: int| 0 <= j < i ==> #[trigger] pins@[j] == entries@[j].zone_ms,
            decreases n - i,
        {
            pins.push(entries[i].zone_ms);
            i = i + 1;
        }
        assert(is_frozen_list(self.mem(), zone, entries@));
        assert(pins@ =~= entries@.map_values(|e: MemEntry| e.zone_ms));
        pins
    }

    /// An update arrived for a zone: only a candidate is affected.
    pub fn note_update(&mut self, zone: u64, data: DataType, now: u64)
        requires
            old(self).wf(),
        ensures
            final(self).wf(),
            final(self).updated_from(old(self), zone, data, now),
    {
        let ghost o = *self;
        self.table.note_update(&self.codec, zone, data, now);
        proof {
            assert(self.anchors() =~= o.anchors());
            assert forall|k: SubKey| #[trigger] self.subs().dom().contains(k) implies self.subs()[k].wanted
                == wants(k.1, lookup(self.entries@, k.0)) by {
                assert(lookup(self.subs(), k) == Some(self.subs()[k]));
                assert(o.subs().dom().contains(k));
            }
            assert forall|k: SubKey| wants(k.1, lookup(self.entries@, k.0)) implies #[trigger] self.subs().dom().contains(
                k,
            ) by {
                assert(o.subs().dom().contains(k));
                assert(lookup(self.subs(), k) is Some);
            }
        }
    }

    /// `self` is `old` after an update in a zone: it counts against that
    /// subscription alone.
    pub open spec fn updated_from(&self, old: &Self, zone: u64, data: DataType, now: u64) -> bool {
        &&& self.announced(old)
        &&& self.same_but_subs(old)
        &&& forall|k: SubKey| #[trigger]
            lookup(self.subs(), k) == if k == (zone, data) {
                jostled(lookup(old.subs(), k), now)
            } else {
                lookup(old.subs(), k)
            }
    }

    /// The two differ in their subscriptions, and what follows from those, at most.
    pub open spec fn same_but_subs(&self, old: &Self) -> bool {
        &&& self.codec() == old.codec()
        &&& self.anchors() == old.anchors()
        &&& self.refs() == old.refs()
        &&& self.tiers() == old.tiers()
        &&& self.mem() == old.mem()
        &&& self.sub_cap() == old.sub_cap()
        &&& self.memory_cap() == old.memory_cap()
    }

    /// What a zone still needs from the server, by its region's bits alone.
    pub open spec fn need(&self, zone: u64) -> ZoneNeed {
        let (region, bit) = self.codec().region_and_bit(zone);
        need_of(lookup(self.bits(), region), bit)
    }

    /// What every tracked zone still needs, by ascending zone.
    pub fn zone_needs(&self) -> (needs: Vec<(u64, ZoneNeed)>)
        requires
            self.wf(),
        ensures
            forall|a: int, b: int|
                0 <= a < b < needs@.len() ==> (#[trigger] needs@[a]).0 < (#[trigger] needs@[b]).0,
            forall|i: int|
                0 <= i < needs@.len() ==> self.tiers().dom().contains((#[trigger] needs@[i]).0)
                    && needs@[i].1 == self.need(needs@[i].0),
            forall|z: u64| #[trigger]
                self.tiers().dom().contains(z) ==> needs@.contains((z, self.need(z))),
    {
        proof {
            self.lemma_wf();
            self.entries.lemma_ks();
        }
        let n: usize = self.entries.len();
        let mut needs: Vec<(u64, ZoneNeed)> = Vec::new();
        let mut i: usize = 0;
        while i < n
            invariant
                self.wf(),
                self.codec.wf(),
                n == self.entries.ks().len(),
                i <= n,
                needs@.len() == i,
                forall|j: int|
                    0 <= j < i ==> #[trigger] needs@[j] == (
                        self.entries.ks()[j],
                        self.need(self.entries.ks()[j]),
                    ),
            decreases n - i,
        {
            let zone: u64 = self.entries.key_at(i);
            let (region, bit) = self.codec.region_of_zone(zone);
            let mask: u64 = 1u64 << bit;
            let need: ZoneNeed = match self.table.region_bits(&self.codec, region) {
                None => ZoneNeed::Ensure,
                Some(b) => if b.available & mask != 0 {
                    ZoneNeed::Satisfied
                } else if b.presence & mask != 0 {
                    ZoneNeed::Request
                } else {
                    ZoneNeed::Satisfied
                },
            };
            needs.push((zone, need));
            i = i + 1;
        }
        proof {
            assert forall|j: int| 0 <= j < needs@.len() implies self.tiers().dom().contains(
                (#[trigger] needs@[j]).0,
            ) && needs@[j].1 == self.need(needs@[j].0) by {
                assert(self.entries.ks().contains(self.entries.ks()[j]));
            }
            assert forall|z: u64| #[trigger] self.tiers().dom().contains(z) implies needs@.contains(
                (z, self.need(z)),
            ) by {
                let j = self.entries.ks().index_of(z);
                assert(self.entries.ks()[j] == z);
                assert(needs@[j] == (z, self.need(z)));
            }
        }
        needs
    }

    /// The two differ in what is known of regions at most.
    pub open spec fn same_but_bits(&self, old: &Self) -> bool {
        &&& self.codec() == old.codec()
        &&& self.anchors() == old.anchors()
        &&& self.refs() == old.refs()
        &&& self.tiers() == old.tiers()
        &&& self.subs() == old.subs()
        &&& self.pending() == old.pending()
        &&& self.mem() == old.mem()
        &&& self.sub_cap() == old.sub_cap()
        &&& self.memory_cap() == old.memory_cap()
    }

    /// Take a region's bits as they are on the server.
    pub fn note_region(&mut self, region: u64, presence: u64, available: u64, distance: u16)
        requires
            old(self).wf(),
        ensures
            final(self).wf(),
            final(self).same_but_bits(old(self)),
            final(self).bits() == old(self).bits().insert(
                region,
                (RegionBits { presence, available, distance }),
            ),
    {
        let ghost o = *self;
        self.table.note_region(
            &self.codec,
            region,
            RegionBits { presence, available, distance },
        );
        assert(self.anchors() =~= o.anchors());
        assert(self.subs() == o.subs());
    }

    /// Forget a region whose row was deleted.
    pub fn note_region_removed(&mut self, region: u64)
        requires
            old(self).wf(),
        ensures
            final(self).wf(),
            final(self).same_but_bits(old(self)),
            final(self).bits() == old(self).bits().remove(region),
    {
        let ghost o = *self;
        self.table.note_region_removed(&self.codec, region);
        assert(self.anchors() =~= o.anchors());
        assert(self.subs() == o.subs());
    }

    /// The zone may exist, as far as its region is known.
    pub fn is_zone_present(&self, zone: u64) -> (b: bool)
        requires
            self.wf(),
        ensures
            b == (lookup(self.bits(), self.codec().region_and_bit(zone).0) matches Some(bits)
                && has_bit(bits.presence, self.codec().region_and_bit(zone).1)),
    {
        proof {
            self.lemma_wf();
        }
        let (region, bit) = self.codec.region_of_zone(zone);
        match self.table.region_bits(&self.codec, region) {
            Some(bits) => bits.presence & (1u64 << bit) != 0,
            None => false,
        }
    }
}

/// The holds with one of them given up.
pub open spec fn released(refs: Map<u64, u64>, zone: u64) -> Map<u64, u64> {
    if refs.dom().contains(zone) && refs[zone] > 1 {
        refs.insert(zone, (refs[zone] - 1) as u64)
    } else {
        refs.remove(zone)
    }
}

/// No two anchors share a name.
pub open spec fn distinct_names(anchors: Seq<(Seq<char>, Anchor)>) -> bool {
    forall|a: int, b: int|
        0 <= a < b < anchors.len() ==> (#[trigger] anchors[a]).0 != (#[trigger] anchors[b]).0
}

proof fn lemma_named(anchors: Seq<(Seq<char>, Anchor)>, i: int)
    requires
        distinct_names(anchors),
        0 <= i < anchors.len(),
    ensures
        named(anchors, anchors[i].0) == Some(anchors[i].1),
    decreases anchors.len(),
{
    if i < anchors.len() - 1 {
        assert(anchors[i].0 != anchors[anchors.len() - 1].0);
        assert(anchors.drop_last()[i] == anchors[i]);
        assert forall|a: int, b: int| 0 <= a < b < anchors.drop_last().len() implies (
        #[trigger] anchors.drop_last()[a]).0 != (#[trigger] anchors.drop_last()[b]).0 by {
            assert(anchors[a].0 != anchors[b].0);
        }
        lemma_named(anchors.drop_last(), i);
    }
}

proof fn lemma_not_named(anchors: Seq<(Seq<char>, Anchor)>, name: Seq<char>)
    requires
        forall|i: int| 0 <= i < anchors.len() ==> (#[trigger] anchors[i]).0 != name,
    ensures
        named(anchors, name) is None,
    decreases anchors.len(),
{
    if anchors.len() > 0 {
        assert(anchors[anchors.len() - 1].0 != name);
        assert forall|i: int| 0 <= i < anchors.drop_last().len() implies (
        #[trigger] anchors.drop_last()[i]).0 != name by {
            assert(anchors[i].0 != name);
        }
        lemma_not_named(anchors.drop_last(), name);
    }
}

proof fn lemma_without_other(anchors: Seq<(Seq<char>, Anchor)>, name: Seq<char>)
    requires
        forall|i: int| 0 <= i < anchors.len() ==> (#[trigger] anchors[i]).0 != name,
    ensures
        without_anchor(anchors, name) == anchors,
    decreases anchors.len(),
{
    if anchors.len() > 0 {
        assert(anchors[anchors.len() - 1].0 != name);
        assert forall|i: int| 0 <= i < anchors.drop_last().len() implies (
        #[trigger] anchors.drop_last()[i]).0 != name by {
            assert(anchors[i].0 != name);
        }
        lemma_without_other(anchors.drop_last(), name);
        assert(anchors.drop_last().push(anchors.last()) =~= anchors);
    }
}

proof fn lemma_without(anchors: Seq<(Seq<char>, Anchor)>, i: int)
    requires
        distinct_names(anchors),
        0 <= i < anchors.len(),
    ensures
        without_anchor(anchors, anchors[i].0) == anchors.remove(i),
    decreases anchors.len(),
{
    let rest = anchors.drop_last();
    assert forall|a: int, b: int| 0 <= a < b < rest.len() implies (#[trigger] rest[a]).0 != (
    #[trigger] rest[b]).0 by {
        assert(anchors[a].0 != anchors[b].0);
    }
    if i < anchors.len() - 1 {
        assert(anchors[i].0 != anchors[anchors.len() - 1].0);
        assert(rest[i] == anchors[i]);
        lemma_without(rest, i);
        assert(rest.remove(i).push(anchors.last()) =~= anchors.remove(i));
    } else {
        assert forall|j: int| 0 <= j < rest.len() implies (#[trigger] rest[j]).0 != anchors[i].0 by {
            assert(anchors[j].0 != anchors[i].0);
        }
        lemma_without_other(rest, anchors[i].0);
        assert(rest =~= anchors.remove(i));
    }
}

/// The tightest tier wins: no anchor gives a zone a tighter tier than it has, and
/// some anchor gives it the one it has.
pub proof fn law_tightest_tier_wins<C: Codec>(
    codec: C,
    anchors: Seq<(Seq<char>, Anchor)>,
    zone: u64,
)
    ensures
        forall|i: int|
            0 <= i < anchors.len() && anchor_tier(codec, (#[trigger] anchors[i]).1, zone) is Some
                ==> best_tier(codec, anchors, zone) is Some && tier_rank_spec(
                anchor_tier(codec, anchors[i].1, zone)->0,
            ) <= tier_rank_spec(best_tier(codec, anchors, zone)->0),
        best_tier(codec, anchors, zone) is Some ==> exists|i: int|
            0 <= i < anchors.len() && anchor_tier(codec, (#[trigger] anchors[i]).1, zone)
                == best_tier(codec, anchors, zone),
    decreases anchors.len(),
{
    if anchors.len() > 0 {
        let rest = anchors.drop_last();
        law_tightest_tier_wins(codec, rest, zone);
        assert forall|i: int| 0 <= i < anchors.len() && anchor_tier(
            codec,
            (#[trigger] anchors[i]).1,
            zone,
        ) is Some implies best_tier(codec, anchors, zone) is Some && tier_rank_spec(
            anchor_tier(codec, anchors[i].1, zone)->0,
        ) <= tier_rank_spec(best_tier(codec, anchors, zone)->0) by {
            if i < rest.len() {
                assert(rest[i] == anchors[i]);
            }
        }
        if best_tier(codec, anchors, zone) is Some {
            if best_tier(codec, anchors, zone) == anchor_tier(codec, anchors.last().1, zone) {
                assert(anchors[anchors.len() - 1] == anchors.last());
            } else {
                let i = choose|i: int|
                    0 <= i < rest.len() && anchor_tier(codec, (#[trigger] rest[i]).1, zone)
                        == best_tier(codec, rest, zone);
                assert(anchors[i] == rest[i]);
            }
        }
    }
}

/// A held zone is Active whatever the anchors do.
pub proof fn law_hold_survives_anchors<C: Codec>(
    codec: C,
    anchors: Seq<(Seq<char>, Anchor)>,
    refs: Map<u64, u64>,
    zone: u64,
)
    requires
        refs.dom().contains(zone),
    ensures
        tier_from(codec, anchors, refs, zone) == Some(ZoneTier::Active),
{
}

/// Holding a zone once and releasing it once leaves the holds as they were.
pub proof fn law_release_undoes_ensure(refs: Map<u64, u64>, zone: u64, count: u64)
    requires
        count < u64::MAX,
        refs.dom().contains(zone) ==> refs[zone] == count && count > 0,
        !refs.dom().contains(zone) ==> count == 0,
    ensures
        released(refs.insert(zone, (count + 1) as u64), zone) == refs,
{
    assert(released(refs.insert(zone, (count + 1) as u64), zone) =~= refs);
}

/// A soul that no anchor stands for covers nothing: all it remembers is frozen, with the
/// times it had.
pub proof fn law_unanchored_soul_is_frozen<C: Codec>(
    old: &ZoneManager<C>,
    new: &ZoneManager<C>,
    anchors: Seq<(Seq<char>, Anchor)>,
    refs: Map<u64, u64>,
    now: u64,
    soul: u32,
    zone: u64,
)
    requires
        new.recomputed(old, anchors, refs, now),
        !has_anchor(anchors, soul as u64),
    ensures
        new.recall(soul, zone) matches Some(e) ==> !e.present && (old.recall(soul, zone) matches Some(
            was,
        ) && e == (MemEntry { present: false, ..was })),
        forall|later: u64|
            new.recall(soul, zone) is Some ==> #[trigger] new.card_view(soul, zone, later) == Some(
                old.recall(soul, zone)->0.card_ms,
            ),
        old.recall(soul, zone) is Some && memory_of(old.mem(), soul as u64).dom().len()
            <= old.memory_cap() ==> new.recall(soul, zone) is Some,
{
    let s = soul as u64;
    lemma_no_coverage(old.codec(), anchors, s);
    let cov = soul_coverage(new.codec(), anchors, s);
    assert(cov =~= Map::empty());
    let was = remembered(new.codec(), anchors, old.mem(), now);
    if old.recall(soul, zone) is Some && memory_of(old.mem(), s).dom().len() <= old.memory_cap() {
        let m = memory_of(old.mem(), s);
        assert(was.dom().contains(s));
        assert(forgot(was[s], new.mem()[s], new.memory_cap() as nat));
        assert forall|z: u64| was[s].dom().contains(z) <==> m.dom().contains(z) by {
            assert(seen(lookup(m, z), lookup(cov, z), now) is Some <==> m.dom().contains(z));
        }
        assert(was[s].dom() =~= m.dom());
    }
    if new.recall(soul, zone) is Some {
        assert(new.mem().dom().contains(s));
        assert(forgot(was[s], new.mem()[s], new.memory_cap() as nat));
        assert(was[s].dom().contains(zone));
        assert(seen(lookup(memory_of(old.mem(), s), zone), lookup(cov, zone), now) is Some);
    }
}

/// The bound on memory holds of every soul that no anchor stands for.
pub proof fn law_unanchored_memory_is_bounded<C: Codec>(
    old: &ZoneManager<C>,
    new: &ZoneManager<C>,
    anchors: Seq<(Seq<char>, Anchor)>,
    refs: Map<u64, u64>,
    now: u64,
    soul: u32,
)
    requires
        new.wf(),
        new.recomputed(old, anchors, refs, now),
        !has_anchor(anchors, soul as u64),
    ensures
        memory_of(new.mem(), soul as u64).dom().len() <= new.memory_cap(),
{
    let s = soul as u64;
    let left = memory_of(new.mem(), s).dom();
    new.lemma_wf();
    if left.len() > new.memory_cap() {
        let z = left.choose();
        assert(left.contains(z));
        assert(new.recall(soul, z) is Some);
        law_unanchored_soul_is_frozen(old, new, anchors, refs, now, soul, z);
    }
}

/// Clearing the only anchor that stands for a soul leaves it without one.
pub proof fn law_clearing_unanchors(anchors: Seq<(Seq<char>, Anchor)>, name: Seq<char>, soul: u64)
    requires
        forall|i: int|
            0 <= i < anchors.len() && stands_for((#[trigger] anchors[i]).1, soul) ==> anchors[i].0
                == name,
    ensures
        !has_anchor(without_anchor(anchors, name), soul),
    decreases anchors.len(),
{
    if anchors.len() > 0 {
        let rest = anchors.drop_last();
        assert forall|i: int| 0 <= i < rest.len() && stands_for(
            (#[trigger] rest[i]).1,
            soul,
        ) implies rest[i].0 == name by {
            assert(rest[i] == anchors[i]);
        }
        law_clearing_unanchors(rest, name, soul);
        assert(anchors[anchors.len() - 1] == anchors.last());
        let before = without_anchor(rest, name);
        let after = without_anchor(anchors, name);
        assert forall|i: int| 0 <= i < after.len() implies !stands_for(
            (#[trigger] after[i]).1,
            soul,
        ) by {
            if i < before.len() {
                assert(after[i] == before[i]);
            }
        }
    }
}

proof fn lemma_no_coverage<C: Codec>(codec: C, anchors: Seq<(Seq<char>, Anchor)>, soul: u64)
    requires
        !has_anchor(anchors, soul),
    ensures
        forall|z: u64| #[trigger] soul_tier(codec, anchors, soul, z) is None,
    decreases anchors.len(),
{
    if anchors.len() > 0 {
        let rest = anchors.drop_last();
        assert(!stands_for(anchors[anchors.len() - 1].1, soul));
        assert forall|i: int| 0 <= i < rest.len() implies !stands_for(
            (#[trigger] rest[i]).1,
            soul,
        ) by {
            assert(rest[i] == anchors[i]);
        }
        lemma_no_coverage(codec, rest, soul);
        assert forall|z: u64| #[trigger] soul_tier(codec, anchors, soul, z) is None by {
            assert(soul_tier(codec, rest, soul, z) is None);
        }
    }
}

/// A request that does not take is asked for again: what a zone needs depends on
/// its region's bits alone, and stays what it is until they change.
pub proof fn law_need_follows_the_server(presence: u64, available: u64, distance: u16, bit: u8)
    ensures
        need_of(None, bit) == ZoneNeed::Ensure,
        need_of(Some(RegionBits { presence, available, distance }), bit) == ZoneNeed::Request
            <==> has_bit(presence, bit) && !has_bit(available, bit),
{
}

} // verus!
