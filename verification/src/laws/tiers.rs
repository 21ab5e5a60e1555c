//! Which zones an anchor makes active, hot, warm or cold.
use vstd::prelude::*;

use crate::codec::{Codec, FnCodec};
use crate::zones::{Anchor, ZoneManager, ZoneTier};

verus! {

use crate::zones::{
    anchor_tier, best_tier, clip, covers, in_disk, law_tightest_tier_wins, named, tier_from,
    tier_rank_spec, with_anchor, without_anchor,
};

/// Around a tile, as far as the radius reaches, chunks follow each other as tiles do, and
/// none is skipped.
#[verifier::opaque]
pub open spec fn is_grid<C: Codec>(codec: C, center: i32, radius: i32) -> bool {
    &&& forall|x: i32, y: i32|
        center - radius <= x <= y <= center + radius ==> (#[trigger] codec.fold(x)).0 <= (
        #[trigger] codec.fold(y)).0
    &&& forall|x: i32|
        center - radius <= x < center + radius ==> #[trigger] no_gap_after(codec, x)
}

/// The next tile lies in the same chunk, or in the next one.
pub open spec fn no_gap_after<C: Codec>(codec: C, x: i32) -> bool {
    x < i32::MAX ==> codec.fold((x + 1) as i32).0 <= codec.fold(x).0 + 1
}

/// The anchor lies where chunks follow each other, as far as its radii reach.
pub open spec fn lies_on_grid<C: Codec>(codec: C, a: Anchor) -> bool {
    &&& is_grid(codec, a.q, a.radii.active) && is_grid(codec, a.r, a.radii.active)
    &&& is_grid(codec, a.q, a.radii.hot) && is_grid(codec, a.r, a.radii.hot)
    &&& is_grid(codec, a.q, a.radii.warm) && is_grid(codec, a.r, a.radii.warm)
    &&& is_grid(codec, a.q, a.radii.cold) && is_grid(codec, a.r, a.radii.cold)
}

/// All anchors do.
pub open spec fn lie_on_grid<C: Codec>(codec: C, anchors: Seq<(Seq<char>, Anchor)>) -> bool {
    forall|i: int| 0 <= i < anchors.len() ==> lies_on_grid(codec, (#[trigger] anchors[i]).1)
}

/// The zone, on the anchor's surface, is the one that holds tile `(x, y)`.
pub open spec fn holds_tile<C: Codec>(codec: C, a: Anchor, x: i32, y: i32, zone: u64) -> bool {
    zone == codec.zone_key(a.owner, a.surface, codec.fold(x).0, codec.fold(y).0)
}

/// The zone holds a tile that is no further from the anchor than `radius`, either way.
pub open spec fn is_within<C: Codec>(codec: C, a: Anchor, radius: i32, zone: u64) -> bool {
    exists|x: i32, y: i32| #[trigger]
        holds_tile(codec, a, x, y, zone) && -radius <= x - a.q <= radius && -radius <= y - a.r
            <= radius
}

proof fn lemma_between<C: Codec>(
    codec: C,
    center: i32,
    radius: i32,
    lo: i32,
    hi: i32,
    c: i16,
) -> (x: i32)
    requires
        is_grid(codec, center, radius),
        center - radius <= lo <= hi <= center + radius,
        codec.fold(lo).0 <= c <= codec.fold(hi).0,
    ensures
        lo <= x <= hi,
        codec.fold(x).0 == c,
    decreases hi - lo,
{
    reveal(is_grid);
    if codec.fold(lo).0 == c {
        lo
    } else {
        assert(no_gap_after(codec, lo));
        lemma_between(codec, center, radius, (lo + 1) as i32, hi, c)
    }
}

/// A disk covers exactly the zones of the tiles within its radius.
pub proof fn law_disk_covers_its_tiles<C: Codec>(codec: C, a: Anchor, radius: i32, zone: u64)
    requires
        is_grid(codec, a.q, radius),
        is_grid(codec, a.r, radius),
    ensures
        covers(codec, a, radius, zone) <==> radius > 0 && is_within(codec, a, radius, zone),
{
    reveal(is_grid);
    if covers(codec, a, radius, zone) {
        let (cq, cr) = choose|cq: i16, cr: i16| #[trigger]
            in_disk(codec, a.q, a.r, radius, cq, cr) && zone == codec.zone_key(
                a.owner,
                a.surface,
                cq,
                cr,
            );
        let x = lemma_between(codec, a.q, radius, clip(a.q - radius), clip(a.q + radius), cq);
        let y = lemma_between(codec, a.r, radius, clip(a.r - radius), clip(a.r + radius), cr);
        assert(holds_tile(codec, a, x, y, zone));
    }
    if radius > 0 && is_within(codec, a, radius, zone) {
        let (x, y) = choose|x: i32, y: i32| #[trigger]
            holds_tile(codec, a, x, y, zone) && -radius <= x - a.q <= radius && -radius <= y - a.r
                <= radius;
        assert(clip(a.q - radius) <= x <= clip(a.q + radius));
        assert(clip(a.r - radius) <= y <= clip(a.r + radius));
        assert(in_disk(codec, a.q, a.r, radius, codec.fold(x).0, codec.fold(y).0));
    }
}

/// Some anchor's active disk reaches the zone.
pub open spec fn active_reaches<C: Codec>(
    codec: C,
    anchors: Seq<(Seq<char>, Anchor)>,
    zone: u64,
) -> bool {
    exists|i: int|
        0 <= i < anchors.len() && (#[trigger] anchors[i]).1.radii.active > 0 && is_within(
            codec,
            anchors[i].1,
            anchors[i].1.radii.active,
            zone,
        )
}

/// Some anchor's hot disk reaches the zone.
pub open spec fn hot_reaches<C: Codec>(
    codec: C,
    anchors: Seq<(Seq<char>, Anchor)>,
    zone: u64,
) -> bool {
    exists|i: int|
        0 <= i < anchors.len() && (#[trigger] anchors[i]).1.radii.hot > 0 && is_within(
            codec,
            anchors[i].1,
            anchors[i].1.radii.hot,
            zone,
        )
}

/// Some anchor's warm disk reaches the zone.
pub open spec fn warm_reaches<C: Codec>(
    codec: C,
    anchors: Seq<(Seq<char>, Anchor)>,
    zone: u64,
) -> bool {
    exists|i: int|
        0 <= i < anchors.len() && (#[trigger] anchors[i]).1.radii.warm > 0 && is_within(
            codec,
            anchors[i].1,
            anchors[i].1.radii.warm,
            zone,
        )
}

/// Some anchor's cold disk reaches the zone.
pub open spec fn cold_reaches<C: Codec>(
    codec: C,
    anchors: Seq<(Seq<char>, Anchor)>,
    zone: u64,
) -> bool {
    exists|i: int|
        0 <= i < anchors.len() && (#[trigger] anchors[i]).1.radii.cold > 0 && is_within(
            codec,
            anchors[i].1,
            anchors[i].1.radii.cold,
            zone,
        )
}

/// Tighter is greater.
pub proof fn law_tiers_are_ordered()
    ensures
        tier_rank_spec(ZoneTier::Active) > tier_rank_spec(ZoneTier::Hot) > tier_rank_spec(
            ZoneTier::Warm,
        ) > tier_rank_spec(ZoneTier::Cold),
{
}

/// A zone's tier: Active if it is held or holds a tile within some anchor's active radius;
/// else Hot, Warm or Cold by the next radius that reaches it; and none if no radius does.
pub proof fn law_tiers_follow_the_tiles<C: Codec>(zm: ZoneManager<C>, zone: u64)
    requires
        zm.wf(),
        lie_on_grid(zm.codec(), zm.anchors()),
    ensures
        ({
            let a = zm.refs().dom().contains(zone) || active_reaches(
                zm.codec(),
                zm.anchors(),
                zone,
            );
            let h = hot_reaches(zm.codec(), zm.anchors(), zone);
            let w = warm_reaches(zm.codec(), zm.anchors(), zone);
            let c = cold_reaches(zm.codec(), zm.anchors(), zone);
            &&& zm.tiers().dom().contains(zone) <==> a || h || w || c
            &&& a ==> zm.tiers()[zone] == ZoneTier::Active
            &&& !a && h ==> zm.tiers()[zone] == ZoneTier::Hot
            &&& !a && !h && w ==> zm.tiers()[zone] == ZoneTier::Warm
            &&& !a && !h && !w && c ==> zm.tiers()[zone] == ZoneTier::Cold
        }),
{
    zm.lemma_wf();
    let codec = zm.codec();
    let anchors = zm.anchors();
    assert(crate::subs::lookup(zm.tiers(), zone) == tier_from(codec, anchors, zm.refs(), zone));
    law_tightest_tier_wins(codec, anchors, zone);
    let best = best_tier(codec, anchors, zone);
    assert forall|i: int| 0 <= i < anchors.len() implies {
        let a = (#[trigger] anchors[i]).1;
        &&& covers(codec, a, a.radii.active, zone) <==> a.radii.active > 0 && is_within(
            codec,
            a,
            a.radii.active,
            zone,
        )
        &&& covers(codec, a, a.radii.hot, zone) <==> a.radii.hot > 0 && is_within(
            codec,
            a,
            a.radii.hot,
            zone,
        )
        &&& covers(codec, a, a.radii.warm, zone) <==> a.radii.warm > 0 && is_within(
            codec,
            a,
            a.radii.warm,
            zone,
        )
        &&& covers(codec, a, a.radii.cold, zone) <==> a.radii.cold > 0 && is_within(
            codec,
            a,
            a.radii.cold,
            zone,
        )
    } by {
        let a = anchors[i].1;
        assert(lies_on_grid(codec, anchors[i].1));
        law_disk_covers_its_tiles(codec, a, a.radii.active, zone);
        law_disk_covers_its_tiles(codec, a, a.radii.hot, zone);
        law_disk_covers_its_tiles(codec, a, a.radii.warm, zone);
        law_disk_covers_its_tiles(codec, a, a.radii.cold, zone);
    }
    if best is Some {
        let i = choose|i: int|
            0 <= i < anchors.len() && anchor_tier(codec, (#[trigger] anchors[i]).1, zone) == best;
        assert(anchor_tier(codec, anchors[i].1, zone) == best);
    }
    if active_reaches(codec, anchors, zone) {
        let i = choose|i: int|
            0 <= i < anchors.len() && (#[trigger] anchors[i]).1.radii.active > 0 && is_within(
                codec,
                anchors[i].1,
                anchors[i].1.radii.active,
                zone,
            );
        assert(anchor_tier(codec, anchors[i].1, zone) == Some(ZoneTier::Active));
    }
    if hot_reaches(codec, anchors, zone) {
        let i = choose|i: int|
            0 <= i < anchors.len() && (#[trigger] anchors[i]).1.radii.hot > 0 && is_within(
                codec,
                anchors[i].1,
                anchors[i].1.radii.hot,
                zone,
            );
        assert(anchor_tier(codec, anchors[i].1, zone) is Some);
    }
    if warm_reaches(codec, anchors, zone) {
        let i = choose|i: int|
            0 <= i < anchors.len() && (#[trigger] anchors[i]).1.radii.warm > 0 && is_within(
                codec,
                anchors[i].1,
                anchors[i].1.radii.warm,
                zone,
            );
        assert(anchor_tier(codec, anchors[i].1, zone) is Some);
    }
    if cold_reaches(codec, anchors, zone) {
        let i = choose|i: int|
            0 <= i < anchors.len() && (#[trigger] anchors[i]).1.radii.cold > 0 && is_within(
                codec,
                anchors[i].1,
                anchors[i].1.radii.cold,
                zone,
            );
        assert(anchor_tier(codec, anchors[i].1, zone) is Some);
    }
}

/// Setting an anchor gives that name that anchor, and leaves every other name alone.
pub proof fn law_anchor_is_set(
    anchors: Seq<(Seq<char>, Anchor)>,
    name: Seq<char>,
    a: Anchor,
    other: Seq<char>,
    b: Anchor,
)
    ensures
        with_anchor(anchors, name, a).contains((name, a)),
        with_anchor(anchors, name, a).contains((name, b)) ==> b == a,
        other != name ==> (with_anchor(anchors, name, a).contains((other, b))
            <==> anchors.contains((other, b))),
{
    let after = with_anchor(anchors, name, a);
    lemma_named_in(anchors, name);
    if named(anchors, name) is Some {
        let i = choose|i: int| 0 <= i < anchors.len() && (#[trigger] anchors[i]).0 == name;
        assert(after[i] == (name, a));
        if anchors.contains((other, b)) && other != name {
            let j = anchors.index_of((other, b));
            assert(after[j] == (other, b));
        }
        if after.contains((other, b)) && other != name {
            let j = after.index_of((other, b));
            assert(anchors[j] == (other, b));
        }
        if after.contains((name, b)) {
            let j = after.index_of((name, b));
            assert(after[j] == (name, b));
        }
    } else {
        assert(after[anchors.len() as int] == (name, a));
        if anchors.contains((other, b)) {
            let j = anchors.index_of((other, b));
            assert(after[j] == (other, b));
        }
        if after.contains((other, b)) && other != name {
            let j = after.index_of((other, b));
            assert(anchors[j] == (other, b));
        }
        if after.contains((name, b)) {
            let j = after.index_of((name, b));
            if j < anchors.len() {
                assert(anchors[j].0 == name);
            }
        }
    }
}

proof fn lemma_named_in(anchors: Seq<(Seq<char>, Anchor)>, name: Seq<char>)
    ensures
        named(anchors, name) is Some <==> exists|i: int|
            0 <= i < anchors.len() && (#[trigger] anchors[i]).0 == name,
    decreases anchors.len(),
{
    if anchors.len() > 0 {
        let rest = anchors.drop_last();
        lemma_named_in(rest, name);
        assert(anchors[anchors.len() - 1] == anchors.last());
        if exists|i: int| 0 <= i < rest.len() && (#[trigger] rest[i]).0 == name {
            let i = choose|i: int| 0 <= i < rest.len() && (#[trigger] rest[i]).0 == name;
            assert(anchors[i].0 == name);
        }
        if exists|i: int| 0 <= i < anchors.len() && (#[trigger] anchors[i]).0 == name {
            let i = choose|i: int| 0 <= i < anchors.len() && (#[trigger] anchors[i]).0 == name;
            if i < rest.len() {
                assert(rest[i].0 == name);
            }
        }
    }
}

/// Clearing an anchor takes that name away, and leaves every other name alone.
pub proof fn law_anchor_is_cleared(
    anchors: Seq<(Seq<char>, Anchor)>,
    name: Seq<char>,
    other: Seq<char>,
    b: Anchor,
)
    ensures
        without_anchor(anchors, name).contains((other, b)) <==> other != name && anchors.contains(
            (other, b),
        ),
    decreases anchors.len(),
{
    if anchors.len() > 0 {
        let rest = anchors.drop_last();
        law_anchor_is_cleared(rest, name, other, b);
        let before = without_anchor(rest, name);
        let after = without_anchor(anchors, name);
        let x = (other, b);
        assert(anchors.contains(x) <==> rest.contains(x) || x == anchors.last()) by {
            assert(anchors[anchors.len() - 1] == anchors.last());
            if rest.contains(x) {
                let j = rest.index_of(x);
                assert(anchors[j] == x);
            }
            if anchors.contains(x) && x != anchors.last() {
                let j = anchors.index_of(x);
                assert(rest[j] == x);
            }
        }
        if anchors.last().0 != name {
            assert(after.contains(x) <==> before.contains(x) || x == anchors.last()) by {
                assert(after[before.len() as int] == anchors.last());
                if before.contains(x) {
                    let j = before.index_of(x);
                    assert(after[j] == x);
                }
                if after.contains(x) && x != anchors.last() {
                    let j = after.index_of(x);
                    assert(before[j] == x);
                }
            }
        }
    }
}

/// The zone that an anchor stands in has the tier of its radii: Active with an active
/// radius, at least Hot with a hot one, at least Warm with a warm one, and some tier with a
/// cold one.
pub proof fn law_anchor_covers_its_own_zone<C: Codec>(zm: ZoneManager<C>, i: int)
    requires
        zm.wf(),
        0 <= i < zm.anchors().len(),
        lies_on_grid(zm.codec(), zm.anchors()[i].1),
    ensures
        ({
            let a = zm.anchors()[i].1;
            let zone = zm.cell_at(a.owner, a.surface, a.q, a.r).0;
            let tier = zm.tiers()[zone];
            &&& zone == zm.codec().zone_key(
                a.owner,
                a.surface,
                zm.codec().fold(a.q).0,
                zm.codec().fold(a.r).0,
            )
            &&& a.radii.active > 0 || a.radii.hot > 0 || a.radii.warm > 0 || a.radii.cold > 0
                ==> zm.tiers().dom().contains(zone)
            &&& a.radii.active > 0 ==> tier == ZoneTier::Active
            &&& a.radii.hot > 0 ==> tier == ZoneTier::Active || tier == ZoneTier::Hot
            &&& a.radii.warm > 0 ==> tier != ZoneTier::Cold
        }),
{
    zm.lemma_wf();
    let codec = zm.codec();
    let a = zm.anchors()[i].1;
    let zone = codec.zone_key(a.owner, a.surface, codec.fold(a.q).0, codec.fold(a.r).0);
    assert(holds_tile(codec, a, a.q, a.r, zone));
    law_disk_covers_its_tiles(codec, a, a.radii.active, zone);
    law_disk_covers_its_tiles(codec, a, a.radii.hot, zone);
    law_disk_covers_its_tiles(codec, a, a.radii.warm, zone);
    law_disk_covers_its_tiles(codec, a, a.radii.cold, zone);
    law_tightest_tier_wins(codec, zm.anchors(), zone);
    assert(crate::subs::lookup(zm.tiers(), zone) == tier_from(
        codec,
        zm.anchors(),
        zm.refs(),
        zone,
    ));
    assert(anchor_tier(codec, zm.anchors()[i].1, zone) == anchor_tier(codec, a, zone));
}

/// The zone that an anchor stands in is Active, once the anchor is set with an active
/// radius: that of the tile it was set to, on its surface and for its owner.
pub proof fn law_anchor_lights_its_own_zone<C: Codec>(
    old: ZoneManager<C>,
    new: ZoneManager<C>,
    name: Seq<char>,
    a: Anchor,
    now: u64,
)
    requires
        old.wf(),
        new.wf(),
        lies_on_grid(new.codec(), a),
        new.anchored_from(&old, name, a, now),
        a.radii.active > 0,
    ensures
        ({
            let zone = new.codec().zone_key(
                a.owner,
                a.surface,
                new.codec().fold(a.q).0,
                new.codec().fold(a.r).0,
            );
            new.tiers().dom().contains(zone) && new.tiers()[zone] == ZoneTier::Active
        }),
{
    if named(old.anchors(), name) == Some(a) {
        lemma_named_is_in(old.anchors(), name);
    } else {
        law_anchor_is_set(old.anchors(), name, a, name, a);
    }
    let i = new.anchors().index_of((name, a));
    assert(new.anchors()[i].1 == a);
    law_anchor_covers_its_own_zone(new, i);
}

/// The anchor found under a name is among the anchors.
pub proof fn lemma_named_is_in(anchors: Seq<(Seq<char>, Anchor)>, name: Seq<char>)
    requires
        named(anchors, name) is Some,
    ensures
        anchors.contains((name, named(anchors, name)->0)),
    decreases anchors.len(),
{
    let rest = anchors.drop_last();
    assert(anchors[anchors.len() - 1] == anchors.last());
    if anchors.last().0 != name {
        lemma_named_is_in(rest, name);
        let j = rest.index_of((name, named(anchors, name)->0));
        assert(anchors[j] == rest[j]);
    }
}

/// A codec made of functions asks each of them for what it is for, with the arguments in
/// their order.
pub proof fn law_codec_asks_its_functions<
    P: Fn(u32, u8, i16, i16) -> u64,
    R: Fn(u64) -> (u64, u8),
    L: Fn(i32) -> (i16, u8),
    W: Fn(i16, u8) -> i32,
>(
    c: FnCodec<P, R, L, W>,
    owner: u32,
    surface: u8,
    q: i16,
    r: i16,
    zone: u64,
    region: (u64, u8),
    cell: u8,
    tile: i32,
    place: (i16, u8),
)
    requires
        c.wf(),
    ensures
        call_ensures(c.pack, (owner, surface, q, r), zone) ==> c.zone_key(owner, surface, q, r)
            == zone,
        call_ensures(c.region, (zone,), region) ==> c.region_and_bit(zone) == region,
        call_ensures(c.local, (tile,), place) ==> c.fold(tile) == place,
        call_ensures(c.tile, (q, cell), tile) ==> c.unfold(q, cell) == tile,
{
}

} // verus!
