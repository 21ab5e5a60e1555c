//! What is subscribed, what is asked of the server, and what a soul remembers.
use vstd::prelude::*;

use crate::codec::Codec;
use crate::rows::{CardRow, ZoneRow};
use crate::subs::SubKey;
use crate::zones::{
    Anchor, DataType, MemEntry, SubState, ZoneIntent, ZoneManager, ZoneNeed, ZoneTier,
};

verus! {

use crate::history::{current_in, law_sweep_keeps_pinned, swept};
use crate::laws::tiers::{is_within, law_disk_covers_its_tiles, lie_on_grid, lies_on_grid};
use crate::memory::{forgot, frozen_by, is_frozen, is_frozen_list, looked_around, recency, seen};
use crate::subs::{holds_region, is_change, jostled, lookup, regions_in, retuned, touched, wants};
use crate::zones::{
    has_anchor, memory_of, released, remembered, soul_coverage, soul_tier, stands_for,
};

/// The tiers ask for the subscription: for cards where the zone is Active or Hot, for
/// tiles where it has any tier.
pub open spec fn is_asked(tiers: Map<u64, ZoneTier>, k: SubKey) -> bool {
    &&& tiers.dom().contains(k.0)
    &&& k.1 == DataType::Card ==> tiers[k.0] == ZoneTier::Active || tiers[k.0] == ZoneTier::Hot
}

/// What the tiers ask for is open, and marked as wanted; what else is open is not.
pub proof fn law_asked_subscriptions_are_open<C: Codec>(zm: ZoneManager<C>, k: SubKey)
    requires
        zm.wf(),
    ensures
        is_asked(zm.tiers(), k) ==> zm.subs().dom().contains(k) && zm.subs()[k].wanted,
        zm.subs().dom().contains(k) && !is_asked(zm.tiers(), k) ==> !zm.subs()[k].wanted,
{
    zm.lemma_wf();
}

/// When tiers change, what they ask for is open as of now; what they no longer ask for
/// stays open as a candidate as of now; an old candidate stays what it was; and nothing
/// else opens. A subscription that closes was a candidate, over the ceiling, and no
/// candidate left was present before it; no more close than the ceiling demands.
pub proof fn law_subscriptions_follow_the_tiers<C: Codec>(
    old: &ZoneManager<C>,
    new: &ZoneManager<C>,
    anchors: Seq<(Seq<char>, Anchor)>,
    refs: Map<u64, u64>,
    now: u64,
    k: SubKey,
    other: SubKey,
)
    requires
        old.wf(),
        new.wf(),
        new.recomputed(old, anchors, refs, now),
    ensures
        ({
            let asked = is_asked(new.tiers(), k);
            let was = old.subs().dom().contains(k);
            let open = new.subs().dom().contains(k);
            let a = old.subs()[k];
            let b = new.subs()[k];
            &&& asked ==> open && b.wanted && b.last_present_ms == now && b.updates_since_present == 0
            &&& !asked && was && open && a.wanted ==> !b.wanted && b.last_present_ms == now
                && b.updates_since_present == 0
            &&& !asked && was && open && !a.wanted ==> b == a
            &&& !asked && !was ==> !open
            &&& was && !open ==> {
                &&& !asked
                &&& new.subs().dom().contains(other) && !new.subs()[other].wanted ==> (if a.wanted {
                    now
                } else {
                    a.last_present_ms
                }) <= new.subs()[other].last_present_ms
                &&& new.subs().dom().len() >= new.sub_cap()
            }
            &&& new.subs().dom().contains(other) && !new.subs()[other].wanted
                ==> new.subs().dom().len() <= new.sub_cap()
        }),
{
    old.lemma_wf();
    new.lemma_wf();
    let t = touched(old.subs(), new.tiers(), now);
    assert(wants(k.1, lookup(new.tiers(), k.0)) == is_asked(new.tiers(), k));
    assert(wants(other.1, lookup(new.tiers(), other.0)) == is_asked(new.tiers(), other));
    assert(t.dom().contains(k) <==> retuned(
        lookup(old.subs(), k),
        wants(k.1, lookup(new.tiers(), k.0)),
        now,
    ) is Some);
    if new.subs().dom().contains(k) {
        assert(t.dom().contains(k) && t[k] == new.subs()[k]);
    }
    if old.subs().dom().contains(k) && !new.subs().dom().contains(k) {
        assert(t.dom().contains(k));
        assert(!t[k].wanted);
        assert(t.dom().len() > new.sub_cap()) by {
            if t.dom().len() <= new.sub_cap() {
                assert(new.subs() == t);
            }
        }
        if new.subs().dom().contains(other) && !new.subs()[other].wanted {
            assert(t[k].last_present_ms <= new.subs()[other].last_present_ms);
        }
    }
    if new.subs().dom().contains(other) && !new.subs()[other].wanted && new.subs().dom().len()
        > new.sub_cap() {
        assert(new.subs()[other].wanted);
    }
}

/// An update on a candidate counts against it: within five minutes of being wanted it
/// survives five, within fifteen minutes three, and later none. What is wanted is not
/// touched, and no other subscription is.
pub proof fn law_noisy_candidates_are_closed<C: Codec>(
    old: &ZoneManager<C>,
    new: &ZoneManager<C>,
    zone: u64,
    data: DataType,
    now: u64,
    other: SubKey,
)
    requires
        new.updated_from(old, zone, data, now),
        other != (zone, data),
    ensures
        ({
            let k = (zone, data);
            let was = old.subs().dom().contains(k);
            let open = new.subs().dom().contains(k);
            let a = old.subs()[k];
            let gone = if now >= a.last_present_ms {
                now - a.last_present_ms
            } else {
                0
            };
            let noise = a.updates_since_present + 1;
            &&& !was ==> !open
            &&& was && a.wanted ==> open && new.subs()[k] == a
            &&& was && !a.wanted && gone < 300_000 ==> (open <==> noise <= 5)
            &&& was && !a.wanted && 300_000 <= gone < 900_000 ==> (open <==> noise <= 3)
            &&& was && !a.wanted && gone >= 900_000 ==> !open
            &&& was && !a.wanted && open ==> !new.subs()[k].wanted && new.subs()[k].last_present_ms
                == a.last_present_ms && new.subs()[k].updates_since_present == noise
            &&& new.subs().dom().contains(other) <==> old.subs().dom().contains(other)
            &&& old.subs().dom().contains(other) ==> new.subs()[other] == old.subs()[other]
            &&& new.tiers() == old.tiers()
            &&& new.anchors() == old.anchors()
            &&& new.refs() == old.refs()
            &&& new.mem() == old.mem()
        }),
{
    let k = (zone, data);
    assert(lookup(new.subs(), k) == jostled(lookup(old.subs(), k), now));
    assert(lookup(new.subs(), other) == lookup(old.subs(), other));
}

/// Some tile subscription in the region is open.
pub open spec fn region_is_held<C: Codec>(
    codec: C,
    subs: Map<SubKey, SubState>,
    region: u64,
) -> bool {
    exists|z: u64|
        subs.dom().contains((z, DataType::Zone)) && (#[trigger] codec.region_and_bit(z)).0 == region
}

proof fn lemma_held<C: Codec>(codec: C, subs: Map<SubKey, SubState>, region: u64)
    ensures
        regions_in(codec, subs.dom()).contains(region) <==> region_is_held(codec, subs, region),
{
    if regions_in(codec, subs.dom()).contains(region) {
        let z = choose|z: u64| #[trigger] holds_region(codec, subs.dom(), z, region);
        assert(codec.region_and_bit(z).0 == region);
    }
    if region_is_held(codec, subs, region) {
        let z = choose|z: u64|
            subs.dom().contains((z, DataType::Zone)) && (#[trigger] codec.region_and_bit(z)).0
                == region;
        assert(holds_region(codec, subs.dom(), z, region));
    }
}

/// Every subscription that opens or closes is told to the driver, once, and none else;
/// and so is every region whose first tile subscription opens or whose last one closes.
/// What was told before stays told.
pub proof fn law_driver_is_told_what_changed<C: Codec>(
    old: &ZoneManager<C>,
    new: &ZoneManager<C>,
    k: SubKey,
    region: u64,
)
    requires
        new.announced(old),
    ensures
        ({
            let n = old.pending().len() as int;
            let said = new.pending().skip(n);
            let was = region_is_held(new.codec(), old.subs(), region);
            let open = region_is_held(new.codec(), new.subs(), region);
            &&& new.pending() == old.pending() + said
            &&& forall|i: int, j: int|
                0 <= i < j < said.len() ==> #[trigger] said[i] != #[trigger] said[j]
            &&& said.contains(ZoneIntent::Subscribe { zone: k.0, data: k.1, on: true })
                <==> new.subs().dom().contains(k) && !old.subs().dom().contains(k)
            &&& said.contains(ZoneIntent::Subscribe { zone: k.0, data: k.1, on: false })
                <==> old.subs().dom().contains(k) && !new.subs().dom().contains(k)
            &&& said.contains(ZoneIntent::Region { region, subscribed: true }) <==> open && !was
            &&& said.contains(ZoneIntent::Region { region, subscribed: false }) <==> was && !open
            &&& was && !open ==> !new.bits().dom().contains(region)
            &&& !(was && !open) ==> (new.bits().dom().contains(region)
                <==> old.bits().dom().contains(region))
            &&& new.bits().dom().contains(region) ==> new.bits()[region] == old.bits()[region]
        }),
{
    let n = old.pending().len() as int;
    let said = new.pending().skip(n);
    assert(new.pending() =~= old.pending() + said);
    lemma_held(new.codec(), old.subs(), region);
    lemma_held(new.codec(), new.subs(), region);
    assert(k == (k.0, k.1));
    let (b, a) = (old.subs().dom(), new.subs().dom());
    assert(said.contains(ZoneIntent::Subscribe { zone: k.0, data: k.1, on: true }) <==> is_change(
        new.codec(),
        b,
        a,
        ZoneIntent::Subscribe { zone: k.0, data: k.1, on: true },
    ));
    assert(said.contains(ZoneIntent::Subscribe { zone: k.0, data: k.1, on: false }) <==> is_change(
        new.codec(),
        b,
        a,
        ZoneIntent::Subscribe { zone: k.0, data: k.1, on: false },
    ));
    assert(said.contains(ZoneIntent::Region { region, subscribed: true }) <==> is_change(
        new.codec(),
        b,
        a,
        ZoneIntent::Region { region, subscribed: true },
    ));
    assert(said.contains(ZoneIntent::Region { region, subscribed: false }) <==> is_change(
        new.codec(),
        b,
        a,
        ZoneIntent::Region { region, subscribed: false },
    ));
}

/// Subscriptions open before any closes, and a zone's cards before its tiles.
pub proof fn law_opening_goes_before_closing<C: Codec>(
    old: &ZoneManager<C>,
    new: &ZoneManager<C>,
    i: int,
    j: int,
)
    requires
        new.announced(old),
        old.pending().len() <= i < j < new.pending().len(),
    ensures
        new.pending()[i] matches ZoneIntent::Subscribe { zone: a, data: c, on: p }
            ==> new.pending()[j] matches ZoneIntent::Subscribe { zone: b, data: d, on: q } ==> {
            &&& q ==> p
            &&& p && q && a == b && d == DataType::Card ==> c == DataType::Card
        },
{
    let n = old.pending().len() as int;
    let said = new.pending().skip(n);
    assert(said[i - n] == new.pending()[i]);
    assert(said[j - n] == new.pending()[j]);
    assert(!crate::subs::out_of_turn(said[i - n], said[j - n]));
}

/// What a zone needs is read off its region: the region is asked for where it is not known;
/// the zone is requested where its bit says that it may exist and that it does not yet; and
/// nothing is asked for otherwise.
pub proof fn law_need_is_read_off_the_region<C: Codec>(zm: &ZoneManager<C>, zone: u64)
    ensures
        ({
            let (region, bit) = zm.codec().region_and_bit(zone);
            let known = zm.bits().dom().contains(region);
            let b = zm.bits()[region];
            let may = bit < 64 && (b.presence >> bit) % 2 == 1;
            let does = bit < 64 && (b.available >> bit) % 2 == 1;
            &&& !known ==> zm.need(zone) == ZoneNeed::Ensure
            &&& known && bit < 64 && may && !does ==> zm.need(zone) == ZoneNeed::Request
            &&& known && bit < 64 && !(may && !does) ==> zm.need(zone) == ZoneNeed::Satisfied
        }),
{
    let (region, bit) = zm.codec().region_and_bit(zone);
    let b = zm.bits()[region];
    let (p, a) = (b.presence, b.available);
    if bit < 64 {
        assert((p & (1u64 << bit) != 0) == ((p >> bit) % 2 == 1)) by (bit_vector)
            requires
                bit < 64,
        ;
        assert((a & (1u64 << bit) != 0) == ((a >> bit) % 2 == 1)) by (bit_vector)
            requires
                bit < 64,
        ;
    }
}

/// One more hold on a zone counts, and one less counts back; the last one given up is gone.
/// Other zones' holds stay.
pub proof fn law_holds_are_counted<C: Codec>(
    old: &ZoneManager<C>,
    new: &ZoneManager<C>,
    zone: u64,
    now: u64,
    other: u64,
)
    requires
        other != zone,
    ensures
        new.held_from(old, zone, now) ==> {
            &&& new.refs().dom().contains(zone)
            &&& !old.refs().dom().contains(zone) ==> new.refs()[zone] == 1
            &&& old.refs().dom().contains(zone) && old.refs()[zone] < u64::MAX
                ==> new.refs()[zone] == old.refs()[zone] + 1
            &&& new.refs().dom().contains(other) <==> old.refs().dom().contains(other)
            &&& old.refs().dom().contains(other) ==> new.refs()[other] == old.refs()[other]
            &&& new.anchors() == old.anchors()
        },
        released(old.refs(), zone).dom().contains(zone) <==> old.refs().dom().contains(zone)
            && old.refs()[zone] > 1,
        old.refs().dom().contains(zone) && old.refs()[zone] > 1 ==> released(
            old.refs(),
            zone,
        )[zone] == old.refs()[zone] - 1,
        released(old.refs(), zone).dom().contains(other) <==> old.refs().dom().contains(other),
        old.refs().dom().contains(other) ==> released(old.refs(), zone)[other] == old.refs()[other],
{
}

/// The inventory of a card is its own zone on the inventory surface; a world tile's zone is
/// that of its two chunks, columns first, and its cell the two places in them.
pub proof fn law_places_are_packed_in_order<C: Codec>(
    zm: &ZoneManager<C>,
    card: u32,
    surface: u8,
    q: i32,
    r: i32,
)
    ensures
        zm.inventory_of(card) == zm.codec().zone_key(card, 1, 0, 0),
        zm.cell_at(card, surface, q, r).0 == zm.codec().zone_key(
            card,
            surface,
            zm.codec().fold(q).0,
            zm.codec().fold(r).0,
        ),
        zm.cell_at(card, surface, q, r).1 == zm.codec().fold(q).1,
        zm.cell_at(card, surface, q, r).2 == zm.codec().fold(r).1,
{
}

/// An anchor of the soul has the zone within its active or its hot radius.
pub open spec fn sees_cards<C: Codec>(
    codec: C,
    anchors: Seq<(Seq<char>, Anchor)>,
    soul: u32,
    zone: u64,
) -> bool {
    exists|i: int|
        0 <= i < anchors.len() && (#[trigger] anchors[i]).1.soul == soul && soul != 0 && ((
        anchors[i].1.radii.active > 0 && is_within(
            codec,
            anchors[i].1,
            anchors[i].1.radii.active,
            zone,
        )) || (anchors[i].1.radii.hot > 0 && is_within(
            codec,
            anchors[i].1,
            anchors[i].1.radii.hot,
            zone,
        )))
}

/// An anchor of the soul has the zone within one of its radii.
pub open spec fn sees_tiles<C: Codec>(
    codec: C,
    anchors: Seq<(Seq<char>, Anchor)>,
    soul: u32,
    zone: u64,
) -> bool {
    sees_cards(codec, anchors, soul, zone) || exists|i: int|
        0 <= i < anchors.len() && (#[trigger] anchors[i]).1.soul == soul && soul != 0 && ((
        anchors[i].1.radii.warm > 0 && is_within(
            codec,
            anchors[i].1,
            anchors[i].1.radii.warm,
            zone,
        )) || (anchors[i].1.radii.cold > 0 && is_within(
            codec,
            anchors[i].1,
            anchors[i].1.radii.cold,
            zone,
        )))
}

proof fn lemma_soul_tier<C: Codec>(
    codec: C,
    anchors: Seq<(Seq<char>, Anchor)>,
    soul: u32,
    zone: u64,
)
    requires
        lie_on_grid(codec, anchors),
    ensures
        ({
            let t = soul_tier(codec, anchors, soul as u64, zone);
            &&& t is Some <==> sees_tiles(codec, anchors, soul, zone)
            &&& (t == Some(ZoneTier::Active) || t == Some(ZoneTier::Hot)) <==> sees_cards(
                codec,
                anchors,
                soul,
                zone,
            )
        }),
    decreases anchors.len(),
{
    if anchors.len() > 0 {
        let rest = anchors.drop_last();
        let n = anchors.len() - 1;
        let a = anchors.last().1;
        assert(forall|i: int| 0 <= i < n ==> #[trigger] rest[i] == anchors[i]);
        lemma_soul_tier(codec, rest, soul, zone);
        assert(lies_on_grid(codec, anchors[n].1));
        law_disk_covers_its_tiles(codec, a, a.radii.active, zone);
        law_disk_covers_its_tiles(codec, a, a.radii.hot, zone);
        law_disk_covers_its_tiles(codec, a, a.radii.warm, zone);
        law_disk_covers_its_tiles(codec, a, a.radii.cold, zone);
        assert(anchors[n].1 == a);
        assert(forall|i: int| 0 <= i < n ==> rest[i] == #[trigger] anchors[i]);
        let near = a.soul == soul && soul != 0 && ((a.radii.active > 0 && is_within(
            codec,
            a,
            a.radii.active,
            zone,
        )) || (a.radii.hot > 0 && is_within(codec, a, a.radii.hot, zone)));
        let far = a.soul == soul && soul != 0 && ((a.radii.warm > 0 && is_within(
            codec,
            a,
            a.radii.warm,
            zone,
        )) || (a.radii.cold > 0 && is_within(codec, a, a.radii.cold, zone)));
        assert(sees_cards(codec, anchors, soul, zone) <==> sees_cards(codec, rest, soul, zone)
            || near) by {
            lemma_sees_one_more(codec, anchors, soul, zone);
        }
        assert(sees_tiles(codec, anchors, soul, zone) <==> sees_tiles(codec, rest, soul, zone)
            || near || far) by {
            lemma_sees_one_more(codec, anchors, soul, zone);
        }
    }
}

proof fn lemma_sees_one_more<C: Codec>(
    codec: C,
    anchors: Seq<(Seq<char>, Anchor)>,
    soul: u32,
    zone: u64,
)
    requires
        anchors.len() > 0,
    ensures
        ({
            let rest = anchors.drop_last();
            let a = anchors.last().1;
            let near = a.soul == soul && soul != 0 && ((a.radii.active > 0 && is_within(
                codec,
                a,
                a.radii.active,
                zone,
            )) || (a.radii.hot > 0 && is_within(codec, a, a.radii.hot, zone)));
            let far = a.soul == soul && soul != 0 && ((a.radii.warm > 0 && is_within(
                codec,
                a,
                a.radii.warm,
                zone,
            )) || (a.radii.cold > 0 && is_within(codec, a, a.radii.cold, zone)));
            &&& sees_cards(codec, anchors, soul, zone) <==> sees_cards(codec, rest, soul, zone)
                || near
            &&& sees_tiles(codec, anchors, soul, zone) <==> sees_tiles(codec, rest, soul, zone)
                || near || far
        }),
{
    let rest = anchors.drop_last();
    let n = anchors.len() - 1;
    assert(anchors[n] == anchors.last());
    assert(forall|i: int| 0 <= i < n ==> #[trigger] rest[i] == anchors[i]);
    assert(forall|i: int| 0 <= i < n ==> rest[i] == #[trigger] anchors[i]);
}

/// When anchors change, a soul knows the tiles of what its own anchors reach as of now,
/// and the cards of what they have within their active or hot radius as of now; cards of
/// the outer rings it knows as of when it last did, or as of now where it is new there.
/// What they no longer reach is frozen with the times it had.
pub proof fn law_souls_remember_what_they_left<C: Codec>(
    old: &ZoneManager<C>,
    new: &ZoneManager<C>,
    anchors: Seq<(Seq<char>, Anchor)>,
    refs: Map<u64, u64>,
    now: u64,
    soul: u32,
    zone: u64,
    other: u64,
)
    requires
        old.wf(),
        new.wf(),
        lie_on_grid(new.codec(), anchors),
        new.recomputed(old, anchors, refs, now),
    ensures
        ({
            let cards = sees_cards(new.codec(), anchors, soul, zone);
            let tiles = sees_tiles(new.codec(), anchors, soul, zone);
            let was = old.recall(soul, zone);
            let got = new.recall(soul, zone);
            &&& tiles ==> got is Some && got->0.present && got->0.zone_ms == now
            &&& cards ==> got->0.card_ms == now
            &&& tiles && !cards && was is None ==> got->0.card_ms == now
            &&& tiles && !cards && was is Some ==> got->0.card_ms == was->0.card_ms
            &&& !tiles && got is Some ==> was is Some && !got->0.present && got->0.card_ms
                == was->0.card_ms && got->0.zone_ms == was->0.zone_ms
            &&& !tiles && was is Some && got is None ==> {
                &&& new.mem()[soul as u64].dom().len() >= new.memory_cap()
                &&& new.recall(soul, other) matches Some(e) ==> !e.present ==> (if was->0.card_ms
                    >= was->0.zone_ms {
                    was->0.card_ms
                } else {
                    was->0.zone_ms
                }) <= (if e.card_ms >= e.zone_ms {
                    e.card_ms
                } else {
                    e.zone_ms
                })
            }
        }),
{
    old.lemma_wf();
    new.lemma_wf();
    let s = soul as u64;
    lemma_soul_tier(new.codec(), anchors, soul, zone);
    lemma_soul_is_known(new.codec(), anchors, soul, zone);
    let before = remembered(new.codec(), anchors, old.mem(), now);
    let cov = soul_coverage(new.codec(), anchors, s);
    let mem = memory_of(old.mem(), s);
    if before.dom().contains(s) {
        assert(new.mem().dom().contains(s));
        assert(forgot(before[s], new.mem()[s], new.memory_cap() as nat));
        assert(before[s] == looked_around(mem, cov, now));
        assert(lookup(cov, zone) == soul_tier(new.codec(), anchors, s, zone));
        assert(before[s].dom().contains(zone) <==> seen(
            lookup(mem, zone),
            lookup(cov, zone),
            now,
        ) is Some);
        if new.mem()[s].dom().contains(zone) {
            assert(before[s].dom().contains(zone) && before[s][zone] == new.mem()[s][zone]);
        }
        if before[s].dom().contains(zone) && !new.mem()[s].dom().contains(zone) {
            assert(!before[s][zone].present);
            assert(before[s].dom().len() > new.memory_cap()) by {
                if before[s].dom().len() <= new.memory_cap() {
                    assert(new.mem()[s] == before[s]);
                }
            }
            if new.mem()[s].dom().contains(other) && !new.mem()[s][other].present {
                assert(recency(before[s][zone]) <= recency(new.mem()[s][other]));
            }
        }
    } else {
        assert(!new.mem().dom().contains(s));
        assert(!old.mem().dom().contains(s));
    }
}

proof fn lemma_soul_is_known<C: Codec>(
    codec: C,
    anchors: Seq<(Seq<char>, Anchor)>,
    soul: u32,
    zone: u64,
)
    ensures
        sees_tiles(codec, anchors, soul, zone) ==> has_anchor(anchors, soul as u64),
{
    if sees_tiles(codec, anchors, soul, zone) {
        if sees_cards(codec, anchors, soul, zone) {
            let i = choose|i: int|
                0 <= i < anchors.len() && (#[trigger] anchors[i]).1.soul == soul && soul != 0 && ((
                anchors[i].1.radii.active > 0 && is_within(
                    codec,
                    anchors[i].1,
                    anchors[i].1.radii.active,
                    zone,
                )) || (anchors[i].1.radii.hot > 0 && is_within(
                    codec,
                    anchors[i].1,
                    anchors[i].1.radii.hot,
                    zone,
                )));
            assert(stands_for(anchors[i].1, soul as u64));
        } else {
            let i = choose|i: int|
                0 <= i < anchors.len() && (#[trigger] anchors[i]).1.soul == soul && soul != 0 && ((
                anchors[i].1.radii.warm > 0 && is_within(
                    codec,
                    anchors[i].1,
                    anchors[i].1.radii.warm,
                    zone,
                )) || (anchors[i].1.radii.cold > 0 && is_within(
                    codec,
                    anchors[i].1,
                    anchors[i].1.radii.cold,
                    zone,
                )));
            assert(stands_for(anchors[i].1, soul as u64));
        }
    }
}

/// A soul sees the cards of a zone as they are now while it is there, as they were when it
/// left once it is not, and has no view of a zone it does not remember.
pub proof fn law_soul_sees_zones_as_it_left_them<C: Codec>(
    zm: &ZoneManager<C>,
    soul: u32,
    zone: u64,
    now: u64,
)
    ensures
        ({
            let known = zm.mem().dom().contains(soul as u64)
                && zm.mem()[soul as u64].dom().contains(zone);
            let e = zm.mem()[soul as u64][zone];
            &&& !known ==> zm.card_view(soul, zone, now) is None
            &&& known && e.present ==> zm.card_view(soul, zone, now) == Some(now)
            &&& known && !e.present ==> zm.card_view(soul, zone, now) == Some(e.card_ms)
        }),
{
}

/// The entries that pin a zone are those of the souls that remember it and are not there.
pub proof fn law_frozen_views_are_pinned(
    mem: Map<u64, Map<u64, MemEntry>>,
    zone: u64,
    out: Seq<MemEntry>,
    e: MemEntry,
)
    requires
        is_frozen_list(mem, zone, out),
    ensures
        out.contains(e) <==> exists|s: u64|
            #![trigger mem[s]]
            mem.dom().contains(s) && mem[s].dom().contains(zone) && mem[s][zone] == e && !e.present,
{
    let who = choose|who: Seq<u64>| #[trigger] frozen_by(mem, zone, who, out);
    if out.contains(e) {
        let j = out.index_of(e);
        assert(is_frozen(mem, zone, who[j]));
        assert(mem[who[j]][zone] == e);
    }
    if exists|s: u64|
        #![trigger mem[s]]
        mem.dom().contains(s) && mem[s].dom().contains(zone) && mem[s][zone] == e && !e.present {
        let s = choose|s: u64|
            #![trigger mem[s]]
            mem.dom().contains(s) && mem[s].dom().contains(zone) && mem[s][zone] == e && !e.present;
        assert(is_frozen(mem, zone, s));
        let j = who.index_of(s);
        assert(out[j] == e);
    }
}

/// A manager to which nothing has happened holds at most 512 subscriptions open, and lets a
/// soul remember 4096 zones; nothing is anchored, held, subscribed, remembered or pending.
pub proof fn law_new_manager_is_blank<C: Codec>(zm: &ZoneManager<C>, codec: C)
    requires
        zm.is_new(codec),
    ensures
        zm.codec() == codec,
        zm.sub_cap() == 512,
        zm.memory_cap() == 4096,
        zm.anchors().len() == 0,
        zm.pending().len() == 0,
        forall|z: u64| !(#[trigger] zm.tiers().dom().contains(z)),
        forall|z: u64| !(#[trigger] zm.refs().dom().contains(z)),
        forall|k: SubKey| !(#[trigger] zm.subs().dom().contains(k)),
        forall|r: u64| !(#[trigger] zm.bits().dom().contains(r)),
        forall|s: u64| !(#[trigger] zm.mem().dom().contains(s)),
{
}

/// Of the subscriptions that close, the one that was present least recently closes first.
pub proof fn law_oldest_closes_first<C: Codec>(
    old: &ZoneManager<C>,
    new: &ZoneManager<C>,
    anchors: Seq<(Seq<char>, Anchor)>,
    refs: Map<u64, u64>,
    now: u64,
    i: int,
    j: int,
    a: SubKey,
    b: SubKey,
)
    requires
        old.wf(),
        new.wf(),
        new.recomputed(old, anchors, refs, now),
        old.pending().len() <= i < j < new.pending().len(),
        new.pending()[i] == (ZoneIntent::Subscribe { zone: a.0, data: a.1, on: false }),
        new.pending()[j] == (ZoneIntent::Subscribe { zone: b.0, data: b.1, on: false }),
    ensures
        old.subs().dom().contains(a),
        old.subs().dom().contains(b),
        (if old.subs()[a].wanted {
            now
        } else {
            old.subs()[a].last_present_ms
        }) <= (if old.subs()[b].wanted {
            now
        } else {
            old.subs()[b].last_present_ms
        }),
{
    let n = old.pending().len() as int;
    let said = new.pending().skip(n);
    let t = touched(old.subs(), new.tiers(), now);
    assert(said[i - n] == new.pending()[i]);
    assert(said[j - n] == new.pending()[j]);
    assert(said.contains(said[i - n]));
    assert(said.contains(said[j - n]));
    assert(a == (a.0, a.1) && b == (b.0, b.1));
    assert(is_change(new.codec(), old.subs().dom(), new.subs().dom(), said[i - n]));
    assert(is_change(new.codec(), old.subs().dom(), new.subs().dom(), said[j - n]));
    law_subscriptions_follow_the_tiers(old, new, anchors, refs, now, a, b);
    law_subscriptions_follow_the_tiers(old, new, anchors, refs, now, b, a);
    assert(crate::subs::closed_in_order(said[i - n], said[j - n], t));
    assert(t[a].last_present_ms <= t[b].last_present_ms);
}

/// What is told of a region comes right behind the tile subscription, in that region, that
/// is the cause of it.
pub proof fn law_regions_follow_their_cause<C: Codec>(
    old: &ZoneManager<C>,
    new: &ZoneManager<C>,
    i: int,
    region: u64,
    subscribed: bool,
)
    requires
        new.announced(old),
        old.pending().len() <= i < new.pending().len(),
        new.pending()[i] == (ZoneIntent::Region { region, subscribed }),
    ensures
        i > old.pending().len(),
        new.pending()[i - 1] matches ZoneIntent::Subscribe { zone, data, on } && data
            == DataType::Zone && on == subscribed && new.codec().region_and_bit(zone).0 == region,
{
    let n = old.pending().len() as int;
    let said = new.pending().skip(n);
    assert(said[i - n] == new.pending()[i]);
    assert(crate::subs::led(new.codec(), said, i - n));
    assert(said[i - n - 1] == new.pending()[i - 1]);
}

/// A sweep under the pins of a zone keeps every card as a soul saw it when it left the zone.
pub proof fn law_sweep_keeps_cards_as_souls_saw_them(
    mem: Map<u64, Map<u64, MemEntry>>,
    zone: u64,
    pins: Seq<MemEntry>,
    before: Map<u64, CardRow>,
    now: u64,
    soul: u64,
)
    requires
        is_frozen_list(mem, zone, pins),
        mem.dom().contains(soul),
        mem[soul].dom().contains(zone),
        !mem[soul][zone].present,
    ensures
        current_in(
            swept(before, now, pins.map_values(|e: MemEntry| e.card_ms)),
            mem[soul][zone].card_ms,
        ) == current_in(before, mem[soul][zone].card_ms),
{
    let e = mem[soul][zone];
    law_frozen_views_are_pinned(mem, zone, pins, e);
    let i = pins.index_of(e);
    let times = pins.map_values(|e: MemEntry| e.card_ms);
    assert(times[i] == e.card_ms);
    law_sweep_keeps_pinned(before, now, times, i);
}

/// A sweep under the pins of a zone keeps its tiles as a soul saw them when it left.
pub proof fn law_sweep_keeps_tiles_as_souls_saw_them(
    mem: Map<u64, Map<u64, MemEntry>>,
    zone: u64,
    pins: Seq<MemEntry>,
    before: Map<u64, ZoneRow>,
    now: u64,
    soul: u64,
)
    requires
        is_frozen_list(mem, zone, pins),
        mem.dom().contains(soul),
        mem[soul].dom().contains(zone),
        !mem[soul][zone].present,
    ensures
        current_in(
            swept(before, now, pins.map_values(|e: MemEntry| e.zone_ms)),
            mem[soul][zone].zone_ms,
        ) == current_in(before, mem[soul][zone].zone_ms),
{
    let e = mem[soul][zone];
    law_frozen_views_are_pinned(mem, zone, pins, e);
    let i = pins.index_of(e);
    let times = pins.map_values(|e: MemEntry| e.zone_ms);
    assert(times[i] == e.zone_ms);
    law_sweep_keeps_pinned(before, now, times, i);
}

} // verus!
