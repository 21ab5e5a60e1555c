//! What a viewport shows.
use vstd::prelude::*;

use crate::codec::Codec;
use crate::matcher::{Frame, Subject};
use crate::rows::{CardRow, Micro, ZoneRow};
use crate::view::{ChatMsg, Renderable, Viewport};
use crate::wire::{Command, GateMsg};
use crate::world::World;
use crate::zones::ZoneManager;

verus! {

use crate::laws::versions::law_due_rows_are_noticed;
use crate::text::decimal;
use crate::view::{
    aims, any_redraws, folds, given_cell, law_sorting_keeps_messages, placed_in_time, redraws, signed_id,
    sorted_in_time, zone_owner, ViewState,
};
use crate::wire::{EventView, MsgView};
use crate::world::{is_current_all, is_current_zones};

/// The tile lies no further from the centre than the half width and one more in columns,
/// and than the half height and one more in rows.
pub open spec fn is_in_view(v: Viewport, q: i32, r: i32) -> bool {
    &&& v.center_q - v.half_cols - 1 <= q <= v.center_q + v.half_cols + 1
    &&& v.center_r - v.half_rows - 1 <= r <= v.center_r + v.half_rows + 1
}

/// The tile is that of a cell of a zone: seven cells by seven, rows of eight in store.
pub open spec fn is_tile_of<C: Codec>(
    codec: C,
    zone: ZoneRow,
    col: int,
    row: int,
    t: Renderable,
) -> bool {
    &&& 0 <= col < 7
    &&& 0 <= row < 7
    &&& row * 8 + col < zone.tiles@.len()
    &&& zone.tiles@[row * 8 + col].def_id != 0
    &&& t == (Renderable::Tile {
        q: codec.unfold(zone.chunk_q, col as u8),
        r: codec.unfold(zone.chunk_r, row as u8),
        packed: zone.tiles@[row * 8 + col].packed,
        stock0: zone.tiles@[row * 8 + col].stock0,
        stock1: zone.tiles@[row * 8 + col].stock1,
    })
}

/// The card is that of a row, in the cell where it lies, or where the root of its stack
/// lies.
pub open spec fn is_card_of<C: Codec>(
    codec: C,
    world: World,
    now: u64,
    row: CardRow,
    col: u8,
    line: u8,
    c: Renderable,
) -> bool {
    &&& !row.dead
    &&& row.micro == (Micro::Loose { local_q: col, local_r: line }) || (
    row.micro matches Micro::Stacked { root, .. } && (world.cards.at(root, now) matches Some(base)
        && base.micro == (Micro::Loose { local_q: col, local_r: line })))
    &&& c == (Renderable::Card {
        card_id: row.card_id,
        q: codec.unfold(row.chunk_q, col),
        r: codec.unfold(row.chunk_r, line),
        packed: row.packed_definition,
        stock: row.stock.word,
        flags: row.flags,
    })
}

/// A tile is shown: that of a cell of a current zone of the surface and the owner, in view.
pub open spec fn tile_is_due<C: Codec>(
    v: Viewport,
    codec: C,
    world: World,
    now: u64,
    t: Renderable,
) -> bool {
    &&& t matches Renderable::Tile { q, r, .. } && is_in_view(v, q, r)
    &&& exists|zone: ZoneRow, col: int, row: int| #[trigger]
        is_tile_of(codec, zone, col, row, t) && world.zones.at(zone.macro_zone, now) == Some(zone)
            && zone.surface == v.surface && zone.macro_zone / 0x1_0000_0000 == v.owner
}

/// A card is shown: that of a current row of the surface and the owner, in view.
pub open spec fn card_is_due<C: Codec>(
    v: Viewport,
    codec: C,
    world: World,
    now: u64,
    c: Renderable,
) -> bool {
    &&& c matches Renderable::Card { q, r, .. } && is_in_view(v, q, r)
    &&& exists|row: CardRow, col: u8, line: u8| #[trigger]
        is_card_of(codec, world, now, row, col, line, c) && world.cards.at(row.card_id, now)
            == Some(row) && row.surface == v.surface && row.macro_zone / 0x1_0000_0000 == v.owner
}

/// What is shown is every tile and every card that is due and nothing else, the tiles
/// before the cards.
pub open spec fn shows_exactly<C: Codec>(
    v: Viewport,
    codec: C,
    world: World,
    now: u64,
    out: Seq<Renderable>,
) -> bool {
    &&& forall|x: Renderable| #[trigger]
        out.contains(x) <==> tile_is_due(v, codec, world, now, x) || card_is_due(
            v,
            codec,
            world,
            now,
            x,
        )
    &&& forall|i: int, j: int|
        0 <= i < j < out.len() && #[trigger] out[j] is Tile ==> #[trigger] out[i] is Tile
}

/// What is drawn is exactly what lies in view: every tile with a definition of a shown zone
/// within the half width of columns and the half height of rows, and a margin of one, and
/// every card that lies there.
pub proof fn law_view_shows_what_lies_in_it<C: Codec>(
    v: Viewport,
    codec: C,
    world: World,
    now: u64,
    zs: Seq<&ZoneRow>,
    cs: Seq<&CardRow>,
)
    requires
        world.wf(),
        is_current_zones(world.zones, now, zs),
        is_current_all(world.cards, now, cs),
    ensures
        shows_exactly(
            v,
            codec,
            world,
            now,
            v.zones_drawn(codec, zs) + v.cards_drawn(codec, world, cs, now),
        ),
{
    let tiles = v.zones_drawn(codec, zs);
    let cards = v.cards_drawn(codec, world, cs, now);
    let out = tiles + cards;
    lemma_kinds_of_tiles(v, codec, zs);
    lemma_kinds_of_cards(v, codec, world, cs, now);
    assert forall|x: Renderable| #[trigger] out.contains(x) <==> tile_is_due(
        v,
        codec,
        world,
        now,
        x,
    ) || card_is_due(v, codec, world, now, x) by {
        lemma_zones(v, codec, zs, x);
        lemma_cards(v, codec, world, cs, now, x);
        if tiles.contains(x) {
            let k = tiles.index_of(x);
            assert(out[k] == x);
            let (m, col, row) = choose|m: int, col: int, row: int| #[trigger]
                tile_from(v, codec, zs, m, col, row, x);
            assert(is_tile_of(codec, *zs[m], col, row, x));
            assert(tile_is_due(v, codec, world, now, x));
        }
        if cards.contains(x) {
            let k = cards.index_of(x);
            assert(out[tiles.len() + k] == x);
            let (m, col, line) = choose|m: int, col: u8, line: u8| #[trigger]
                card_from(v, codec, world, now, cs, m, col, line, x);
            assert(is_card_of(codec, world, now, *cs[m], col, line, x));
            assert(card_is_due(v, codec, world, now, x));
        }
        if out.contains(x) {
            let k = out.index_of(x);
            if k < tiles.len() {
                assert(tiles[k] == x);
            } else {
                assert(cards[k - tiles.len()] == x);
            }
        }
        if tile_is_due(v, codec, world, now, x) {
            let (zone, col, row) = choose|zone: ZoneRow, col: int, row: int| #[trigger]
                is_tile_of(codec, zone, col, row, x) && world.zones.at(zone.macro_zone, now)
                    == Some(zone) && zone.surface == v.surface && zone.macro_zone / 0x1_0000_0000
                    == v.owner;
            let m = choose|m: int|
                0 <= m < zs.len() && (#[trigger] zs[m]).macro_zone == zone.macro_zone;
            assert(world.zones.at(zs[m].macro_zone, now) == Some(*zs[m]));
            assert(tile_from(v, codec, zs, m, col, row, x));
        }
        if card_is_due(v, codec, world, now, x) {
            let (row, col, line) = choose|row: CardRow, col: u8, line: u8| #[trigger]
                is_card_of(codec, world, now, row, col, line, x) && world.cards.at(row.card_id, now)
                    == Some(row) && row.surface == v.surface && row.macro_zone / 0x1_0000_0000
                    == v.owner;
            let m = choose|m: int| 0 <= m < cs.len() && (#[trigger] cs[m]).card_id == row.card_id;
            assert(world.cards.at(cs[m].card_id, now) == Some(*cs[m]));
            assert(card_from(v, codec, world, now, cs, m, col, line, x));
        }
    }
    assert forall|i: int, j: int|
        0 <= i < j < out.len() && #[trigger] out[j] is Tile implies #[trigger] out[i] is Tile by {
        if j >= tiles.len() {
            assert(out[j] == cards[j - tiles.len()]);
        } else {
            assert(out[i] == tiles[i]);
        }
    }
}

/// The tile is that of a cell of the `m`-th zone, and is to be shown.
spec fn tile_from<C: Codec>(
    v: Viewport,
    codec: C,
    zs: Seq<&ZoneRow>,
    m: int,
    col: int,
    row: int,
    x: Renderable,
) -> bool {
    &&& 0 <= m < zs.len()
    &&& is_tile_of(codec, *zs[m], col, row, x)
    &&& x matches Renderable::Tile { q, r, .. } && is_in_view(v, q, r)
    &&& zs[m].surface == v.surface
    &&& zs[m].macro_zone / 0x1_0000_0000 == v.owner
}

/// The card is that of the `m`-th row, and is to be shown.
spec fn card_from<C: Codec>(
    v: Viewport,
    codec: C,
    world: World,
    now: u64,
    cs: Seq<&CardRow>,
    m: int,
    col: u8,
    line: u8,
    x: Renderable,
) -> bool {
    &&& 0 <= m < cs.len()
    &&& is_card_of(codec, world, now, *cs[m], col, line, x)
    &&& x matches Renderable::Card { q, r, .. } && is_in_view(v, q, r)
    &&& cs[m].surface == v.surface
    &&& cs[m].macro_zone / 0x1_0000_0000 == v.owner
}

proof fn lemma_owner(zone: u64)
    ensures
        zone_owner(zone) as u64 == zone / 0x1_0000_0000,
{
    assert(zone / 0x1_0000_0000 <= u32::MAX);
}

proof fn lemma_tiles<C: Codec>(v: Viewport, codec: C, zone: ZoneRow, n: nat, x: Renderable)
    requires
        n <= 49,
    ensures
        v.tiles_drawn(codec, zone, n).contains(x) <==> exists|i: int|
            0 <= i < n && #[trigger] v.tile_drawn(codec, zone, i as nat) == Some(x),
    decreases n,
{
    if n > 0 {
        let m = (n - 1) as nat;
        lemma_tiles(v, codec, zone, m, x);
        let before = v.tiles_drawn(codec, zone, m);
        let all = v.tiles_drawn(codec, zone, n);
        if before.contains(x) {
            let k = before.index_of(x);
            assert(all[k] == x);
        }
        if all.contains(x) {
            let k = all.index_of(x);
            if k < before.len() {
                assert(before[k] == x);
                let i = choose|i: int|
                    0 <= i < m && #[trigger] v.tile_drawn(codec, zone, i as nat) == Some(x);
                assert(v.tile_drawn(codec, zone, i as nat) == Some(x));
            } else {
                assert(v.tile_drawn(codec, zone, (n - 1) as nat) == Some(x));
                let i: int = n - 1;
                assert(v.tile_drawn(codec, zone, i as nat) == Some(x));
            }
        }
        if exists|i: int| 0 <= i < n && #[trigger] v.tile_drawn(codec, zone, i as nat) == Some(x) {
            let i = choose|i: int|
                0 <= i < n && #[trigger] v.tile_drawn(codec, zone, i as nat) == Some(x);
            if i == n - 1 {
                assert(all[before.len() as int] == x);
            }
        }
    }
}

proof fn lemma_cells<C: Codec>(v: Viewport, codec: C, zone: ZoneRow, x: Renderable)
    ensures
        v.tiles_drawn(codec, zone, 49).contains(x) <==> exists|col: int, row: int| #[trigger]
            is_tile_of(codec, zone, col, row, x) && (x matches Renderable::Tile { q, r, .. }
                && is_in_view(v, q, r)),
{
    lemma_tiles(v, codec, zone, 49, x);
    if exists|i: int| 0 <= i < 49 && #[trigger] v.tile_drawn(codec, zone, i as nat) == Some(x) {
        let i = choose|i: int|
            0 <= i < 49 && #[trigger] v.tile_drawn(codec, zone, i as nat) == Some(x);
        let col = i % 7;
        let row = i / 7;
        assert(is_tile_of(codec, zone, col, row, x));
    }
    if exists|col: int, row: int| #[trigger]
        is_tile_of(codec, zone, col, row, x) && (x matches Renderable::Tile { q, r, .. }
            && is_in_view(v, q, r)) {
        let (col, row) = choose|col: int, row: int| #[trigger]
            is_tile_of(codec, zone, col, row, x) && (x matches Renderable::Tile { q, r, .. }
                && is_in_view(v, q, r));
        let i = row * 7 + col;
        assert(i % 7 == col && i / 7 == row) by (nonlinear_arith)
            requires
                i == row * 7 + col,
                0 <= col < 7,
                0 <= row < 7,
        ;
        assert(v.tile_drawn(codec, zone, i as nat) == Some(x));
    }
}

proof fn lemma_zones<C: Codec>(v: Viewport, codec: C, zs: Seq<&ZoneRow>, x: Renderable)
    ensures
        v.zones_drawn(codec, zs).contains(x) <==> exists|m: int, col: int, row: int| #[trigger]
            tile_from(v, codec, zs, m, col, row, x),
    decreases zs.len(),
{
    if zs.len() > 0 {
        let rest = zs.drop_last();
        let n = zs.len() - 1;
        let zone = *zs.last();
        lemma_zones(v, codec, rest, x);
        lemma_cells(v, codec, zone, x);
        lemma_owner(zone.macro_zone);
        let before = v.zones_drawn(codec, rest);
        let all = v.zones_drawn(codec, zs);
        let more = v.tiles_drawn(codec, zone, 49);
        assert(*zs[n] == zone);
        if v.shows_zone(zone.surface, zone.macro_zone) {
            assert(all == before + more);
            if before.contains(x) {
                let k = before.index_of(x);
                assert(all[k] == x);
            }
            if more.contains(x) {
                let k = more.index_of(x);
                assert(all[before.len() + k] == x);
            }
            if all.contains(x) {
                let k = all.index_of(x);
                if k < before.len() {
                    assert(before[k] == x);
                } else {
                    assert(more[k - before.len()] == x);
                }
            }
        }
        if exists|m: int, col: int, row: int| #[trigger]
            tile_from(v, codec, rest, m, col, row, x) {
            let (m, col, row) = choose|m: int, col: int, row: int| #[trigger]
                tile_from(v, codec, rest, m, col, row, x);
            assert(zs[m] == rest[m]);
            assert(tile_from(v, codec, zs, m, col, row, x));
        }
        if exists|m: int, col: int, row: int| #[trigger] tile_from(v, codec, zs, m, col, row, x) {
            let (m, col, row) = choose|m: int, col: int, row: int| #[trigger]
                tile_from(v, codec, zs, m, col, row, x);
            if m < n {
                assert(zs[m] == rest[m]);
                assert(tile_from(v, codec, rest, m, col, row, x));
            } else {
                assert(is_tile_of(codec, zone, col, row, x));
            }
        }
        if v.shows_zone(zone.surface, zone.macro_zone) && more.contains(x) {
            let (col, row) = choose|col: int, row: int| #[trigger]
                is_tile_of(codec, zone, col, row, x) && (x matches Renderable::Tile { q, r, .. }
                    && is_in_view(v, q, r));
            assert(tile_from(v, codec, zs, n, col, row, x));
        }
    }
}

proof fn lemma_card<C: Codec>(
    v: Viewport,
    codec: C,
    world: World,
    row: CardRow,
    now: u64,
    x: Renderable,
)
    ensures
        v.card_drawn(codec, world, row, now) == Some(x) <==> row.surface == v.surface
            && row.macro_zone / 0x1_0000_0000 == v.owner && exists|col: u8, line: u8| #[trigger]
            is_card_of(codec, world, now, row, col, line, x) && (x matches Renderable::Card {
                q,
                r,
                ..
            } && is_in_view(v, q, r)),
{
    lemma_owner(row.macro_zone);
    if v.card_drawn(codec, world, row, now) == Some(x) {
        let (col, line) = Viewport::cell_of(world, row, now)->0;
        assert(is_card_of(codec, world, now, row, col, line, x));
    }
}

proof fn lemma_cards<C: Codec>(
    v: Viewport,
    codec: C,
    world: World,
    cs: Seq<&CardRow>,
    now: u64,
    x: Renderable,
)
    ensures
        v.cards_drawn(codec, world, cs, now).contains(x) <==> exists|m: int, col: u8, line: u8|
            #[trigger] card_from(v, codec, world, now, cs, m, col, line, x),
    decreases cs.len(),
{
    if cs.len() > 0 {
        let rest = cs.drop_last();
        let n = cs.len() - 1;
        let row = *cs.last();
        lemma_cards(v, codec, world, rest, now, x);
        lemma_card(v, codec, world, row, now, x);
        let before = v.cards_drawn(codec, world, rest, now);
        let all = v.cards_drawn(codec, world, cs, now);
        assert(*cs[n] == row);
        if before.contains(x) {
            let k = before.index_of(x);
            assert(all[k] == x);
        }
        if all.contains(x) {
            let k = all.index_of(x);
            if k < before.len() {
                assert(before[k] == x);
            }
        }
        if v.card_drawn(codec, world, row, now) == Some(x) {
            assert(all[before.len() as int] == x);
            let (col, line) = choose|col: u8, line: u8| #[trigger]
                is_card_of(codec, world, now, row, col, line, x) && (x matches Renderable::Card {
                    q,
                    r,
                    ..
                } && is_in_view(v, q, r));
            assert(card_from(v, codec, world, now, cs, n, col, line, x));
        }
        if exists|m: int, col: u8, line: u8| #[trigger]
            card_from(v, codec, world, now, rest, m, col, line, x) {
            let (m, col, line) = choose|m: int, col: u8, line: u8| #[trigger]
                card_from(v, codec, world, now, rest, m, col, line, x);
            assert(cs[m] == rest[m]);
            assert(card_from(v, codec, world, now, cs, m, col, line, x));
        }
        if exists|m: int, col: u8, line: u8| #[trigger]
            card_from(v, codec, world, now, cs, m, col, line, x) {
            let (m, col, line) = choose|m: int, col: u8, line: u8| #[trigger]
                card_from(v, codec, world, now, cs, m, col, line, x);
            if m < n {
                assert(cs[m] == rest[m]);
                assert(card_from(v, codec, world, now, rest, m, col, line, x));
            } else {
                assert(is_card_of(codec, world, now, row, col, line, x));
            }
        }
    }
}

proof fn lemma_kinds_of_zone<C: Codec>(v: Viewport, codec: C, zone: ZoneRow, n: nat)
    ensures
        forall|i: int|
            0 <= i < v.tiles_drawn(codec, zone, n).len() ==> #[trigger] v.tiles_drawn(
                codec,
                zone,
                n,
            )[i] is Tile,
    decreases n,
{
    if n > 0 {
        lemma_kinds_of_zone(v, codec, zone, (n - 1) as nat);
    }
}

proof fn lemma_kinds_of_tiles<C: Codec>(v: Viewport, codec: C, zs: Seq<&ZoneRow>)
    ensures
        forall|i: int|
            0 <= i < v.zones_drawn(codec, zs).len() ==> #[trigger] v.zones_drawn(codec, zs)[i] is Tile,
    decreases zs.len(),
{
    if zs.len() > 0 {
        lemma_kinds_of_tiles(v, codec, zs.drop_last());
        lemma_kinds_of_zone(v, codec, *zs.last(), 49);
    }
}

proof fn lemma_kinds_of_cards<C: Codec>(
    v: Viewport,
    codec: C,
    world: World,
    cs: Seq<&CardRow>,
    now: u64,
)
    ensures
        forall|i: int|
            0 <= i < v.cards_drawn(codec, world, cs, now).len() ==> #[trigger] v.cards_drawn(
                codec,
                world,
                cs,
                now,
            )[i] is Card,
    decreases cs.len(),
{
    if cs.len() > 0 {
        lemma_kinds_of_cards(v, codec, world, cs.drop_last(), now);
    }
}

/// A card is drawn once at most.
pub proof fn law_each_card_is_drawn_once<C: Codec>(
    v: Viewport,
    codec: C,
    world: World,
    cs: Seq<&CardRow>,
    now: u64,
    i: int,
    j: int,
)
    requires
        is_current_all(world.cards, now, cs),
        0 <= i < j < v.cards_drawn(codec, world, cs, now).len(),
    ensures
        v.cards_drawn(codec, world, cs, now)[i]->card_id < v.cards_drawn(
            codec,
            world,
            cs,
            now,
        )[j]->card_id,
{
    lemma_ids_ascend(v, codec, world, cs, now);
}

proof fn lemma_ids_ascend<C: Codec>(
    v: Viewport,
    codec: C,
    world: World,
    cs: Seq<&CardRow>,
    now: u64,
)
    requires
        forall|a: int, b: int|
            0 <= a < b < cs.len() ==> (#[trigger] cs[a]).card_id < (#[trigger] cs[b]).card_id,
    ensures
        ({
            let out = v.cards_drawn(codec, world, cs, now);
            &&& forall|i: int|
                0 <= i < out.len() ==> exists|m: int|
                    0 <= m < cs.len() && (#[trigger] out[i])->card_id == (#[trigger] cs[m]).card_id
            &&& forall|i: int, j: int|
                0 <= i < j < out.len() ==> (#[trigger] out[i])->card_id < (
                #[trigger] out[j])->card_id
        }),
    decreases cs.len(),
{
    if cs.len() > 0 {
        let rest = cs.drop_last();
        let n = cs.len() - 1;
        assert(forall|a: int| 0 <= a < n ==> #[trigger] rest[a] == cs[a]);
        assert(forall|a: int| 0 <= a < n ==> rest[a] == #[trigger] cs[a]);
        lemma_ids_ascend(v, codec, world, rest, now);
        let before = v.cards_drawn(codec, world, rest, now);
        let out = v.cards_drawn(codec, world, cs, now);
        assert(cs[n] == cs.last());
        assert forall|i: int| 0 <= i < out.len() implies exists|m: int|
            0 <= m < cs.len() && (#[trigger] out[i])->card_id == (#[trigger] cs[m]).card_id by {
            if i < before.len() {
                assert(out[i] == before[i]);
                let m = choose|m: int|
                    0 <= m < rest.len() && before[i]->card_id == (#[trigger] rest[m]).card_id;
                assert(cs[m] == rest[m]);
            } else {
                assert(out[i]->card_id == cs[n].card_id);
            }
        }
        assert forall|i: int, j: int| 0 <= i < j < out.len() implies (#[trigger] out[i])->card_id
            < (#[trigger] out[j])->card_id by {
            assert(out[i] == before[i]);
            let m = choose|m: int|
                0 <= m < rest.len() && before[i]->card_id == (#[trigger] rest[m]).card_id;
            assert(cs[m] == rest[m]);
            if j < before.len() {
                assert(out[j] == before[j]);
            } else {
                assert(out[j]->card_id == cs[n].card_id);
            }
        }
    }
}

/// A viewport's anchor stands at its centre, on its surface and for its owner, under a name
/// of its own, with an active disk of at least one tile and a margin of two, and no other.
pub proof fn law_viewport_is_anchored_at_its_centre(cmd: Command, v: Viewport, radius_tiles: i32)
    requires
        aims(cmd, v, radius_tiles),
        radius_tiles < i32::MAX - 2,
    ensures
        cmd matches Command::SetAnchor { name, surface, owner, q, r, radii } && name@
            == "viewport:"@ + decimal(v.surface as nat) + (":"@ + decimal(v.owner as nat))
            && surface == v.surface && owner == v.owner && q == v.center_q && r == v.center_r
            && radii.active == (if radius_tiles >= 1 {
            radius_tiles + 2
        } else {
            3
        }) && radii.hot == 0 && radii.warm == 0 && radii.cold == 0,
{
}

/// A card that is given to its own zone's owner without a place is left to the server;
/// else it goes to the cell of the tile, in a grid that is shared but for inventories.
pub proof fn law_given_cards_go_to_the_tile<C: Codec>(
    zones: ZoneManager<C>,
    owner: u32,
    zone_owner: u32,
    surface: u8,
    q: i32,
    r: i32,
)
    ensures
        ({
            let cell = given_cell(zones, owner, zone_owner, surface, q, r);
            let codec = zones.codec();
            let left = zone_owner == owner && q == 0 && r == 0;
            let grid: u32 = if surface == 1 {
                zone_owner
            } else {
                0
            };
            &&& left ==> cell == (0u64, 0u8, 0u8)
            &&& !left ==> cell.0 == codec.zone_key(grid, surface, codec.fold(q).0, codec.fold(r).0)
                && cell.1 == codec.fold(q).1 && cell.2 == codec.fold(r).1
        }),
{
}

/// There is something to redraw exactly where a row of a card or a zone arrived since the
/// last look, or where one came due since: its time is after that of the last look and not
/// after now. Then the look is taken.
pub proof fn law_redraws_what_changed<C: Codec>(
    before: ViewState<C>,
    after: ViewState<C>,
    out: Seq<MsgView>,
    redraw: bool,
)
    requires
        after.finished(before, out, redraw),
    ensures
        redraw <==> before.changed || holds_due(
            before.core.world.cards@,
            before.drawn_ms,
            before.core.pulse.ms,
        ) || holds_due(before.core.world.zones@, before.drawn_ms, before.core.pulse.ms)
            || holds_due(before.core.world.tile_cards@, before.drawn_ms, before.core.pulse.ms),
        !after.changed,
        after.drawn_ms == before.core.pulse.ms,
        before.core.realm.out.is_prefix_of(out),
{
    let (a, b) = (before.drawn_ms, before.core.pulse.ms);
    law_due_rows_are_noticed(before.core.world.cards@, a, b);
    law_due_rows_are_noticed(before.core.world.zones@, a, b);
    law_due_rows_are_noticed(before.core.world.tile_cards@, a, b);
    let frames = choose|frames: Seq<MsgView>|
        {
            &&& #[trigger] after.core.framed(before.core.taken(), frames)
            &&& out == before.core.realm.out + frames
        };
}

/// Some stored row's time is after `from` and not after `to`.
pub open spec fn holds_due<R>(m: Map<u64, Map<u64, R>>, from: u64, to: u64) -> bool {
    exists|id: u64, k: u64|
        m.dom().contains(id) && #[trigger] m[id].dom().contains(k) && from < k / 0x1_0000 && k
            / 0x1_0000 <= to
}

/// A frame asks for a redraw exactly where it brings or takes a card or a zone, and the wish
/// is kept until the next look; the last version heard of is kept too.
pub proof fn law_frames_ask_for_a_redraw<C: Codec>(
    before: ViewState<C>,
    after: ViewState<C>,
    msg: GateMsg,
    bytes: usize,
    evs: Seq<EventView>,
)
    requires
        after.took(before, msg, bytes, evs),
    ensures
        after.changed <==> before.changed || exists|i: int|
            0 <= i < evs.len() && ((#[trigger] evs[i]) is CardUpserted || evs[i] is CardRemoved
                || evs[i] is ZoneUpserted),
        after.drawn_ms == before.drawn_ms,
        msg matches GateMsg::ContentChanged { version } ==> after.content_changed == Some(
            version@,
        ),
        !(msg is ContentChanged) ==> after.content_changed == before.content_changed,
        after.calls == before.calls.replied(msg, bytes),
        after.subs == before.subs.heard(msg, bytes),
{
    if any_redraws(evs) {
        let i = choose|i: int| 0 <= i < evs.len() && redraws(#[trigger] evs[i]);
        assert(evs[i] is CardUpserted || evs[i] is CardRemoved || evs[i] is ZoneUpserted);
    }
    if exists|i: int|
        0 <= i < evs.len() && ((#[trigger] evs[i]) is CardUpserted || evs[i] is CardRemoved
            || evs[i] is ZoneUpserted) {
        let i = choose|i: int|
            0 <= i < evs.len() && ((#[trigger] evs[i]) is CardUpserted || evs[i] is CardRemoved
                || evs[i] is ZoneUpserted);
        assert(redraws(evs[i]));
    }
}

/// Sorted messages are in the order of their times, and those of one time in the order in
/// which they were.
pub proof fn law_messages_of_one_time_keep_their_order(v: Seq<ChatMsg>, i: int, j: int, t: u64)
    ensures
        0 <= i < j < sorted_in_time(v).len() ==> sorted_in_time(v)[i].sent_at
            <= sorted_in_time(v)[j].sent_at,
        sorted_in_time(v).filter(|m: ChatMsg| m.sent_at == t) == v.filter(
            |m: ChatMsg| m.sent_at == t,
        ),
{
    law_sorting_keeps_messages(v);
    lemma_sorting_is_stable(v, t);
}

proof fn lemma_placing_is_stable(v: Seq<ChatMsg>, m: ChatMsg, t: u64)
    ensures
        placed_in_time(v, m).filter(|x: ChatMsg| x.sent_at == t) == v.push(m).filter(
            |x: ChatMsg| x.sent_at == t,
        ),
    decreases v.len(),
{
    let f = |x: ChatMsg| x.sent_at == t;
    if v.len() > 0 && !(v.last().sent_at <= m.sent_at) {
        let rest = v.drop_last();
        let last = v.last();
        lemma_placing_is_stable(rest, m, t);
        let p = placed_in_time(rest, m);
        assert(placed_in_time(v, m) == p.push(last));
        lemma_filter_one_more(p, last, f);
        lemma_filter_one_more(rest, m, f);
        lemma_filter_one_more(v, m, f);
        assert(rest.push(last) =~= v);
        lemma_filter_one_more(rest, last, f);
        assert(!(f(last) && f(m)));
        assert(placed_in_time(v, m).filter(f) =~= v.push(m).filter(f));
    }
}

proof fn lemma_filter_one_more(s: Seq<ChatMsg>, x: ChatMsg, f: spec_fn(ChatMsg) -> bool)
    ensures
        f(x) ==> s.push(x).filter(f) == s.filter(f).push(x),
        !f(x) ==> s.push(x).filter(f) == s.filter(f),
{
    reveal(Seq::filter);
    assert(s.push(x).drop_last() =~= s);
}

proof fn lemma_sorting_is_stable(v: Seq<ChatMsg>, t: u64)
    ensures
        sorted_in_time(v).filter(|x: ChatMsg| x.sent_at == t) == v.filter(
            |x: ChatMsg| x.sent_at == t,
        ),
    decreases v.len(),
{
    if v.len() > 0 {
        let rest = v.drop_last();
        let f = |x: ChatMsg| x.sent_at == t;
        lemma_sorting_is_stable(rest, t);
        let s = sorted_in_time(rest);
        lemma_placing_is_stable(s, v.last(), t);
        lemma_filter_one_more(s, v.last(), f);
        lemma_filter_one_more(rest, v.last(), f);
        assert(rest.push(v.last()) =~= v);
    }
}

/// An id is shown as a number, and the lack of one as minus one.
pub proof fn law_missing_ids_are_minus_one(id: Option<u32>)
    ensures
        id is None ==> signed_id(id) == -1,
        id matches Some(x) ==> x <= i32::MAX ==> signed_id(id) == x,
{
}

/// Step `i` took the `i`-th frame in, and counted it.
pub open spec fn took_frame<C: Codec>(
    states: Seq<ViewState<C>>,
    frames: Seq<(GateMsg, usize)>,
    i: int,
) -> bool {
    &&& exists|evs: Seq<EventView>| #[trigger]
        states[i + 1].core.applied(states[i].core, frames[i].0, evs)
    &&& states[i + 1].calls == states[i].calls.replied(frames[i].0, frames[i].1)
    &&& states[i + 1].subs == states[i].subs.heard(frames[i].0, frames[i].1)
}

/// A drive step takes its frames in one after the other, as they arrived, with the local
/// time of the step; and ends with the clock at that time, nothing left to redraw, and the
/// frames that waited at the head of what it sends.
pub proof fn law_drive_step_takes_frames_in_order<
    C: Codec,
    J: Fn(&Frame) -> bool,
    S: Fn(&String, &Subject) -> bool,
>(
    before: ViewState<C>,
    after: ViewState<C>,
    perf_us: u64,
    frames: Seq<(GateMsg, usize)>,
    judge: J,
    shows: S,
    out: Seq<MsgView>,
    redraw: bool,
)
    requires
        after.pumped(before, perf_us, frames, judge, shows, out, redraw),
    ensures
        exists|states: Seq<ViewState<C>>|
            {
                &&& #[trigger] states.len() == frames.len() + 1
                &&& states[0].core.ticked(before.core, perf_us, judge, shows)
                &&& states[0].calls == before.calls
                &&& forall|i: int|
                    0 <= i < frames.len() ==> #[trigger] took_frame(states, frames, i)
                &&& after.calls == states.last().calls
                &&& after.subs == states.last().subs
                &&& after.content_changed == states.last().content_changed
            },
        !after.changed,
{
    let (states, last) = choose|states: Seq<ViewState<C>>, last: ViewState<C>|
        {
            &&& #[trigger] folds(states, frames)
            &&& states[0].ticked_from(before, perf_us, judge, shows)
            &&& last.ticked_from(states.last(), perf_us, judge, shows)
            &&& #[trigger] after.finished(last, out, redraw)
        };
    assert forall|i: int| 0 <= i < frames.len() implies #[trigger] took_frame(states, frames, i) by {
        assert(states[i + 1].took_some(states[i], frames[i]));
        let evs = choose|evs: Seq<EventView>| #[trigger]
            states[i + 1].took(states[i], frames[i].0, frames[i].1, evs);
        assert(states[i + 1].core.applied(states[i].core, frames[i].0, evs));
    }
    assert(states.len() == frames.len() + 1);
}

} // verus!
