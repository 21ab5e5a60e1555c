//! How our souls are found, anchored and provided for.
use vstd::prelude::*;

use crate::codec::Codec;
use crate::realm::Known;
use crate::rows::{CardRow, Micro};
use crate::zones::{Anchor, AnchorRadii, ZoneManager};

verus! {

use crate::client::ClientState;
use crate::laws::contents::law_first_definition_counts;
use crate::laws::tiers::{law_anchor_is_set, lemma_named_is_in};
use crate::realm::{is_owned_list, RealmState};
use crate::text::decimal;
use crate::wire::MsgView;
use crate::zones::named;

/// The world tile that a row stands on: that of its cell, or of the first cell of its chunk
/// where it is stacked.
pub open spec fn stands_on<C: Codec>(codec: C, row: CardRow, q: i32, r: i32) -> bool {
    &&& row.surface == 64
    &&& match row.micro {
        Micro::Loose { local_q, local_r } => q == codec.unfold(row.chunk_q, local_q) && r
            == codec.unfold(row.chunk_r, local_r),
        Micro::Stacked { .. } => q == codec.unfold(row.chunk_q, 0) && r == codec.unfold(
            row.chunk_r,
            0,
        ),
    }
}

/// A card on the world surface stands on one tile, and no other card on any.
pub proof fn law_cards_stand_on_their_tile<C: Codec>(s: RealmState<C>, row: CardRow, q: i32, r: i32)
    ensures
        s.hex_of(row) == Some((q, r)) <==> stands_on(s.zones.codec(), row, q, r),
        s.hex_of(row) is None <==> row.surface != 64,
{
}

/// A card is a player soul of ours if we own it and its definition is from 0xFFF0 up.
pub proof fn law_player_souls_are_ours<'a>(known: &Known<'a>, id: u32)
    ensures
        known.is_mine(id) <==> (known.world.cards.at(id, known.now) matches Some(row) && known.me
            == Some(row.owner_id) && row.packed_definition >= 0xFFF0),
{
}

/// The radii of a definition are those its first definition gives; none where it is not
/// known. A container is what its definition says is one.
pub proof fn law_radii_are_defined<'a>(known: &Known<'a>, packed: u16, i: int)
    requires
        *known.content matches Some(c) ==> 0 <= i < c.cards().len() && c.cards()[i].packed == packed
            && forall|j: int| 0 <= j < i ==> (#[trigger] c.cards()[j]).packed != packed,
    ensures
        *known.content matches Some(c) ==> known.radii(packed) == c.cards()[i].radii
            && known.is_container(packed) == c.cards()[i].inventory,
        *known.content is None ==> known.radii(packed) == (AnchorRadii {
            active: 0,
            hot: 0,
            warm: 0,
            cold: 0,
        }) && !known.is_container(packed),
{
    if let Some(c) = *known.content {
        law_first_definition_counts(c.cards(), packed);
        let d = crate::content::def_in(c.cards(), packed)->0;
        let k = choose|k: int|
            0 <= k < c.cards().len() && #[trigger] c.cards()[k] == d && d.packed == packed
                && forall|j: int| 0 <= j < k ==> (#[trigger] c.cards()[j]).packed != packed;
        if k < i {
            assert(c.cards()[k].packed != packed);
        } else if i < k {
            assert(c.cards()[i].packed != packed);
        }
    }
}

/// Enlisting a player soul subscribes the cards that it owns, under the next number.
pub proof fn law_enlisting_subscribes_what_is_owned<C: Codec>(s: RealmState<C>, id: u32)
    requires
        s.links.next_sid < u32::MAX,
    ensures
        s.enlisted(id).player_souls == s.player_souls.insert(id as u64),
        s.enlisted(id).out.drop_last() == s.out,
        s.enlisted(id).out.last() == (MsgView::Sub {
            sid: s.links.next_sid,
            table: "cards"@,
            filter: Some("owner_id = "@ + decimal(id as nat)),
        }),
        s.enlisted(id).links.next_sid == s.links.next_sid + 1,
        s.enlisted(id).souls == s.souls,
        s.enlisted(id).zones == s.zones,
{
    assert(s.enlisted(id).out.drop_last() =~= s.out);
}

/// A card that one of our player souls owns and that stands on the world is a soul of ours,
/// at its tile. Its anchor stands there, for it, with the radii of its definition, unless it
/// stood there before; its inventory is held from first sight. Any other card changes
/// nothing.
pub proof fn law_owned_cards_on_the_world_are_souls<'a, C: Codec>(
    s: RealmState<C>,
    after: RealmState<C>,
    known: &Known<'a>,
    id: u32,
    row: CardRow,
    q: i32,
    r: i32,
    other: u64,
)
    requires
        after.settled(s, known, id),
        known.world.cards.at(id, known.now) == Some(row),
    ensures
        ({
            let ours = s.player_souls.contains(row.owner_id as u64) && stands_on(
                s.zones.codec(),
                row,
                q,
                r,
            );
            let seen = s.souls.dom().contains(id as u64);
            let moved = !(seen && s.souls[id as u64] == (q, r));
            let anchor = Anchor {
                q,
                r,
                surface: 64,
                owner: 0,
                radii: known.radii(row.packed_definition),
                soul: id,
            };
            &&& ours ==> {
                &&& after.souls.dom() == s.souls.dom().insert(id as u64)
                &&& after.souls[id as u64] == (q, r)
                &&& moved ==> after.zones.anchors().contains(
                    ("soul:"@ + decimal(id as nat), anchor),
                )
                &&& !seen ==> after.inventoried.contains(id as u64)
                &&& !seen ==> after.zones.refs().dom().contains(
                    s.zones.codec().zone_key(id, 1, 0, 0),
                )
            }
            &&& !s.player_souls.contains(row.owner_id as u64) || row.surface != 64 ==> after == s
            &&& other != id && s.souls.dom().contains(other) ==> after.souls[other]
                == s.souls[other]
            &&& after.player_souls == s.player_souls
            &&& after.out == s.out
            &&& after.links == s.links
        }),
{
    if s.player_souls.contains(row.owner_id as u64) && stands_on(s.zones.codec(), row, q, r) {
        assert(s.hex_of(row) == Some((q, r)));
        assert(after.souls.dom() =~= s.souls.dom().insert(id as u64));
        let seen = s.souls.dom().contains(id as u64);
        let name = "soul:"@ + decimal(id as nat);
        let a = crate::realm::soul_anchor(known, id, row, q, r);
        let mid = choose|mid: ZoneManager<C>|
            {
                &&& #[trigger] mid.wf()
                &&& if seen {
                    mid == s.zones
                } else {
                    mid.held_from(&s.zones, s.zones.inventory_of(id), known.now)
                }
                &&& if crate::subs::lookup(s.souls, id as u64) == Some((q, r)) {
                    after.zones == mid
                } else {
                    after.zones.anchored_from(&mid, name, a, known.now)
                }
            };
        assert(mid.refs().dom().contains(s.zones.codec().zone_key(id, 1, 0, 0)) || seen);
        if !(seen && s.souls[id as u64] == (q, r)) {
            if named(mid.anchors(), name) == Some(a) {
                lemma_named_is_in(mid.anchors(), name);
            } else {
                law_anchor_is_set(mid.anchors(), name, a, name, a);
            }
        }
    } else if s.player_souls.contains(row.owner_id as u64) {
        let hex = s.hex_of(row);
    }
}

/// What a look at a card keeps: player souls stay enlisted, souls stay souls, codecs stay,
/// and a soul that is at its tile stays there.
pub open spec fn goes_on<'a, C: Codec>(
    s: RealmState<C>,
    after: RealmState<C>,
    known: &Known<'a>,
    id: u32,
    row: CardRow,
    q: i32,
    r: i32,
) -> bool {
    &&& after.zones.codec() == s.zones.codec()
    &&& forall|p: u64| #[trigger] s.player_souls.contains(p) ==> after.player_souls.contains(p)
    &&& s.souls.dom().contains(id as u64) && s.souls[id as u64] == (q, r)
        ==> after.souls.dom().contains(id as u64) && after.souls[id as u64] == (q, r)
}

proof fn lemma_settled_goes_on<'a, C: Codec>(
    s: RealmState<C>,
    after: RealmState<C>,
    known: &Known<'a>,
    at: u32,
    id: u32,
    row: CardRow,
    q: i32,
    r: i32,
)
    requires
        after.settled(s, known, at),
        known.world.cards.at(id, known.now) == Some(row),
        stands_on(s.zones.codec(), row, q, r),
    ensures
        goes_on(s, after, known, id, row, q, r),
{
}

/// A player soul of ours that is discovered is enlisted; and of the cards it owns every one
/// that is no player soul and stands on the world is a soul of ours then, at its tile.
pub proof fn law_discovery_finds_our_souls<'a, C: Codec>(
    s: RealmState<C>,
    after: RealmState<C>,
    known: &Known<'a>,
    player_soul: u32,
    id: u32,
    row: CardRow,
    q: i32,
    r: i32,
)
    requires
        after.discovered(s, known, player_soul),
        known.world.cards.at(player_soul, known.now) matches Some(own) && known.me == Some(
            own.owner_id,
        ) && own.packed_definition >= 0xFFF0,
        known.world.cards.at(id, known.now) == Some(row),
        row.owner_id == player_soul,
        id != player_soul,
        !(known.me == Some(row.owner_id) && row.packed_definition >= 0xFFF0),
        stands_on(s.zones.codec(), row, q, r),
    ensures
        after.player_souls.contains(player_soul as u64),
        !s.player_souls.contains(player_soul as u64) ==> after.souls.dom().contains(id as u64)
            && after.souls[id as u64] == (q, r),
{
    if !s.player_souls.contains(player_soul as u64) {
        let e = s.enlisted(player_soul);
        let (ids, trace) = choose|ids: Seq<u32>, trace: Seq<RealmState<C>>|
            {
                &&& is_owned_list(known.world.cards, player_soul, known.now, ids)
                &&& #[trigger] RealmState::follows(known, ids, trace)
                &&& trace[0] == e
                &&& trace[ids.len() as int] == after
            };
        assert(ids.contains(id));
        let at = ids.index_of(id);
        lemma_followed(known, player_soul, ids, trace, at, id, row, q, r, 0, ids.len() as int);
    }
}

proof fn lemma_followed<'a, C: Codec>(
    known: &Known<'a>,
    player_soul: u32,
    ids: Seq<u32>,
    trace: Seq<RealmState<C>>,
    at: int,
    id: u32,
    row: CardRow,
    q: i32,
    r: i32,
    from: int,
    to: int,
)
    requires
        RealmState::follows(known, ids, trace),
        0 <= from <= to <= ids.len(),
        0 <= at < ids.len(),
        ids[at] == id,
        known.world.cards.at(id, known.now) == Some(row),
        row.owner_id == player_soul,
        !known.is_mine(id),
        stands_on(trace[from].zones.codec(), row, q, r),
        trace[from].player_souls.contains(player_soul as u64),
        from > at ==> trace[from].souls.dom().contains(id as u64) && trace[from].souls[id as u64]
            == (q, r),
    ensures
        stands_on(trace[to].zones.codec(), row, q, r),
        trace[to].player_souls.contains(player_soul as u64),
        to > at ==> trace[to].souls.dom().contains(id as u64) && trace[to].souls[id as u64] == (
            q,
            r,
        ),
    decreases to - from,
{
    if from < to {
        let a = trace[from];
        let b = trace[from + 1];
        assert(b.followed(a, known, ids[from]));
        if known.is_mine(ids[from]) {
            if !a.player_souls.contains(ids[from] as u64) {
                let e = a.enlisted(ids[from]);
                let (owned, inner) = choose|owned: Seq<u32>, inner: Seq<RealmState<C>>|
                    {
                        &&& is_owned_list(known.world.cards, ids[from], known.now, owned)
                        &&& #[trigger] RealmState::settles(known, owned, inner)
                        &&& inner[0] == e
                        &&& inner[owned.len() as int] == b
                    };
                lemma_settles(known, owned, inner, id, row, q, r, 0, owned.len() as int);
                assert(e.player_souls.contains(player_soul as u64));
            }
        } else {
            lemma_settled_goes_on(a, b, known, ids[from], id, row, q, r);
            if from == at {
                law_owned_cards_on_the_world_are_souls(a, b, known, id, row, q, r, 0);
            }
        }
        lemma_followed(known, player_soul, ids, trace, at, id, row, q, r, from + 1, to);
    }
}

proof fn lemma_settles<'a, C: Codec>(
    known: &Known<'a>,
    ids: Seq<u32>,
    trace: Seq<RealmState<C>>,
    id: u32,
    row: CardRow,
    q: i32,
    r: i32,
    from: int,
    to: int,
)
    requires
        RealmState::settles(known, ids, trace),
        0 <= from <= to <= ids.len(),
        known.world.cards.at(id, known.now) == Some(row),
        stands_on(trace[from].zones.codec(), row, q, r),
    ensures
        goes_on(trace[from], trace[to], known, id, row, q, r),
    decreases to - from,
{
    if from < to {
        let a = trace[from];
        let b = trace[from + 1];
        assert(b.settled(a, known, ids[from]));
        lemma_settled_goes_on(a, b, known, ids[from], id, row, q, r);
        lemma_settles(known, ids, trace, id, row, q, r, from + 1, to);
    }
}

/// A container that one of our souls owns, through owners, has its inventory held, once; no
/// other card has by this.
pub proof fn law_containers_of_ours_are_stocked<'a, C: Codec>(
    s: RealmState<C>,
    after: RealmState<C>,
    known: &Known<'a>,
    id: u32,
    row: CardRow,
)
    requires
        after.stocked(s, known, id),
        known.world.cards.at(id, known.now) == Some(row),
    ensures
        ({
            let ours = known.is_container(row.packed_definition) && s.soul_above(
                known.world.cards,
                id,
                known.now,
                32,
            ) is Some;
            &&& ours ==> after.inventoried.contains(id as u64)
            &&& ours && !s.inventoried.contains(id as u64) ==> after.zones.refs().dom().contains(
                s.zones.codec().zone_key(id, 1, 0, 0),
            )
            &&& !ours || s.inventoried.contains(id as u64) ==> after == s
            &&& after.souls == s.souls
            &&& after.player_souls == s.player_souls
            &&& after.out == s.out
        }),
{
}

/// A card is at a cell exactly where its current row stands on that tile of the world.
pub proof fn law_cards_are_at_their_cell<C: Codec>(s: ClientState<C>, id: u32, q: i32, r: i32)
    ensures
        s.cell_of(id) == Some((q, r)) <==> (s.world.cards.at(id, s.pulse.ms) matches Some(row)
            && stands_on(s.realm.zones.codec(), row, q, r)),
{
}

} // verus!
