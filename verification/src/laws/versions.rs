//! What the world shows of its versioned rows, and what a sweep leaves of them.
use vstd::prelude::*;

use crate::rows::{CardRow, Micro, ZoneRow};
use crate::world::{CardView, Position, TileView, World};

verus! {

use crate::history::{
    current_in, holds_stamp, latest_at, next_at, next_time, swept, with_version, without_version,
};
use crate::world::{
    comes_due, first_on_cell, is_last, is_members, is_run, last_row, resynced, run_end, window_of,
    Cards,
};

/// `k` is the largest stamp whose millisecond, in its upper bits, has come.
pub open spec fn is_due_last(stamps: Set<u64>, now: u64, k: u64) -> bool {
    &&& stamps.contains(k)
    &&& k / 0x1_0000 <= now
    &&& forall|j: u64| #[trigger] stamps.contains(j) && j / 0x1_0000 <= now ==> j <= k
}

/// The row current at a moment is the latest whose time has come; there is none only where
/// no row's time has come.
pub proof fn law_current_is_the_latest_due<R>(hist: Map<u64, R>, now: u64, k: u64)
    ensures
        is_due_last(hist.dom(), now, k) ==> current_in(hist, now) == Some(hist[k]),
        current_in(hist, now) matches Some(row) ==> exists|j: u64| #[trigger]
            is_due_last(hist.dom(), now, j) && hist[j] == row,
        hist.dom().contains(k) && k / 0x1_0000 <= now && hist.dom().finite() ==> current_in(
            hist,
            now,
        ) is Some,
{
    if is_due_last(hist.dom(), now, k) {
        assert(latest_at(hist.dom(), now, k));
        let l = choose|l: u64| latest_at(hist.dom(), now, l);
        assert(latest_at(hist.dom(), now, l));
        assert(l == k);
    }
    if current_in(hist, now) is Some {
        let l = choose|l: u64| latest_at(hist.dom(), now, l);
        assert(latest_at(hist.dom(), now, l));
        assert(is_due_last(hist.dom(), now, l));
    }
    if hist.dom().contains(k) && k / 0x1_0000 <= now && hist.dom().finite() {
        let due = hist.dom().filter(|j: u64| j / 0x1_0000 <= now);
        assert(due.contains(k));
        let top = lemma_largest(due);
        assert(latest_at(hist.dom(), now, top)) by {
            assert forall|j: u64| #[trigger]
                hist.dom().contains(j) && crate::rows::time_of(j) <= now implies j <= top by {
                assert(due.contains(j));
            }
        }
    }
}

proof fn lemma_largest(s: Set<u64>) -> (top: u64)
    requires
        s.finite(),
        s.len() > 0 || exists|k: u64| s.contains(k),
    ensures
        s.contains(top),
        forall|k: u64| #[trigger] s.contains(k) ==> k <= top,
    decreases s.len(),
{
    let a = s.choose();
    assert(s.contains(a)) by {
        if !(exists|k: u64| s.contains(k)) {
            assert(s =~= Set::empty());
        }
    }
    let rest = s.remove(a);
    if exists|k: u64| rest.contains(k) {
        let b = lemma_largest(rest);
        if a >= b {
            assert forall|k: u64| #[trigger] s.contains(k) implies k <= a by {
                if k != a {
                    assert(rest.contains(k));
                }
            }
            a
        } else {
            assert forall|k: u64| #[trigger] s.contains(k) implies k <= b by {
                if k != a {
                    assert(rest.contains(k));
                }
            }
            b
        }
    } else {
        assert forall|k: u64| #[trigger] s.contains(k) implies k <= a by {
            if k != a {
                assert(rest.contains(k));
            }
        }
        a
    }
}

/// A version put in is read back; every other version is as before.
pub proof fn law_version_is_read_back<R>(
    m: Map<u64, Map<u64, R>>,
    id: u64,
    stamp: u64,
    row: R,
    other: u64,
    k: u64,
)
    ensures
        ({
            let after = with_version(m, id, stamp, row);
            &&& after.dom().contains(id)
            &&& after[id].dom().contains(stamp)
            &&& after[id][stamp] == row
            &&& (other, k) != (id, stamp) ==> ((after.dom().contains(other)
                && after[other].dom().contains(k)) <==> (m.dom().contains(other)
                && m[other].dom().contains(k)))
            &&& (other, k) != (id, stamp) && m.dom().contains(other) && m[other].dom().contains(k)
                ==> after[other][k] == m[other][k]
            &&& other != id ==> (after.dom().contains(other) <==> m.dom().contains(other))
        }),
{
}

/// A version taken out is gone, and with its last version the id is; every other version
/// is as before.
pub proof fn law_version_is_taken_out<R>(
    m: Map<u64, Map<u64, R>>,
    id: u64,
    stamp: u64,
    other: u64,
    k: u64,
)
    requires
        forall|i: u64| #[trigger]
            m.dom().contains(i) ==> m[i].dom().finite() && exists|j: u64| m[i].dom().contains(j),
    ensures
        ({
            let after = without_version(m, id, stamp);
            &&& (after.dom().contains(other) && after[other].dom().contains(k)) <==> (
            m.dom().contains(other) && m[other].dom().contains(k) && (other, k) != (id, stamp))
            &&& after.dom().contains(other) && after[other].dom().contains(k) ==> after[other][k]
                == m[other][k]
            &&& after.dom().contains(other) ==> exists|j: u64| after[other].dom().contains(j)
        }),
{
    if m.dom().contains(id) {
        let left = m[id].remove(stamp).dom();
        assert(left.finite());
        if left.len() == 0 {
            assert(left =~= Set::empty());
            assert forall|j: u64| m[id].dom().contains(j) implies j == stamp by {
                if j != stamp {
                    assert(left.contains(j));
                }
            }
        } else {
            let j = left.choose();
            assert(left.contains(j));
        }
    }
}

/// A sweep keeps exactly what can still be seen: what is to come, what is current now, and
/// what was current at a pinned moment.
pub proof fn law_sweep_drops_what_cannot_be_seen<R>(
    hist: Map<u64, R>,
    now: u64,
    pins: Seq<u64>,
    k: u64,
)
    ensures
        swept(hist, now, pins).dom().contains(k) <==> hist.dom().contains(k) && (k / 0x1_0000 > now
            || is_due_last(hist.dom(), now, k) || exists|i: int|
            0 <= i < pins.len() && is_due_last(hist.dom(), #[trigger] pins[i], k)),
        swept(hist, now, pins).dom().contains(k) ==> swept(hist, now, pins)[k] == hist[k],
{
    assert(is_due_last(hist.dom(), now, k) <==> latest_at(hist.dom(), now, k));
    assert forall|i: int| 0 <= i < pins.len() implies (is_due_last(
        hist.dom(),
        #[trigger] pins[i],
        k,
    ) <==> latest_at(hist.dom(), pins[i], k)) by {}
}

/// A card's latest zone is that of its version with the largest stamp, due or not; the pins
/// that hold its rows are those of the zone it is in now, or of its latest where it is
/// nowhere yet.
pub proof fn law_zone_of_a_card(cards: Cards, id: u32, now: u64, last: u64)
    requires
        cards@.dom().contains(id as u64),
        cards@[id as u64].dom().contains(last),
        forall|j: u64| #[trigger] cards@[id as u64].dom().contains(j) ==> j <= last,
    ensures
        cards.latest_zone(id) == Some(cards@[id as u64][last].macro_zone),
        cards.at(id, now) matches Some(row) ==> cards.home(id as u64, now) == row.macro_zone,
        cards.at(id, now) is None ==> cards.home(id as u64, now)
            == cards@[id as u64][last].macro_zone,
{
    let hist = cards@[id as u64];
    assert(is_last(hist.dom(), last));
    let k = choose|k: u64| is_last(hist.dom(), k);
    assert(is_last(hist.dom(), k));
    assert(k == last);
    assert(last_row(hist) == hist[last]);
}

/// A pinned version is where it is pinned, and its flags are taken over under the mask;
/// everything else of it stays.
pub proof fn law_pinned_row_is_there(to: Position, row: CardRow, pmask: u32)
    ensures
        ({
            let p = to.place(row, pmask);
            &&& (p.macro_zone, p.surface, p.chunk_q, p.chunk_r, p.micro_location) == (
                to.macro_zone,
                to.surface,
                to.chunk_q,
                to.chunk_r,
                to.micro_location,
            )
            &&& p.micro == to.micro
            &&& p.flags & pmask == to.flags & pmask
            &&& p.flags & !pmask == row.flags & !pmask
            &&& (p.valid_at, p.card_id, p.owner_id, p.packed_definition, p.is_soul) == (
                row.valid_at,
                row.card_id,
                row.owner_id,
                row.packed_definition,
                row.is_soul,
            )
            &&& (p.flags_bk, p.pos_need, p.pos_held, p.dead, p.stock) == (
                row.flags_bk,
                row.pos_need,
                row.pos_held,
                row.dead,
                row.stock,
            )
        }),
{
    let (f, m) = (row.flags, to.flags);
    assert(((f & !pmask) | (m & pmask)) & pmask == m & pmask) by (bit_vector);
    assert(((f & !pmask) | (m & pmask)) & !pmask == f & !pmask) by (bit_vector);
}

/// A local version carries the stock of the latest version from the server that is not of a
/// later millisecond; versions from the server, and local ones before any, keep theirs.
pub proof fn law_local_rows_follow_the_servers_stock(
    hist: Map<u64, CardRow>,
    local: Set<u64>,
    k: u64,
    server: u64,
)
    requires
        hist.dom().contains(k),
        hist.dom().contains(server),
        !local.contains(server),
        server / 0x1_0000 <= k / 0x1_0000,
        forall|j: u64| #[trigger]
            hist.dom().contains(j) && !local.contains(j) && j / 0x1_0000 <= k / 0x1_0000 ==> j
                <= server,
    ensures
        resynced(hist, local).dom() == hist.dom(),
        resynced(hist, local)[server] == hist[server],
        local.contains(k) ==> resynced(hist, local)[k].stock == hist[server].stock,
        !local.contains(k) ==> resynced(hist, local)[k] == hist[k],
        resynced(hist, local)[k].macro_zone == hist[k].macro_zone,
        resynced(hist, local)[k].micro == hist[k].micro,
        resynced(hist, local)[k].flags == hist[k].flags,
        resynced(hist, local)[k].valid_at == hist[k].valid_at,
{
    let dom = hist.dom().difference(local);
    let t = crate::rows::time_of(k);
    assert(latest_at(dom, t, server)) by {
        assert forall|j: u64| #[trigger]
            dom.contains(j) && crate::rows::time_of(j) <= t implies j <= server by {
            assert(hist.dom().contains(j));
        }
    }
    let l = choose|l: u64| latest_at(dom, t, l);
    assert(latest_at(dom, t, l));
    assert(l == server);
    assert(resynced(hist, local).dom() =~= hist.dom());
}

/// The tile of a cell of a loaded zone is what the lowest tile-card that lies loose there
/// says; without one, what is stored for the cell, unless it is empty. Cells are stored in
/// rows of eight.
pub proof fn law_tile_card_goes_before_the_grid(
    world: World,
    zone: ZoneRow,
    q: u8,
    r: u8,
    now: u64,
    card: CardRow,
)
    requires
        world.zones.at(zone.macro_zone, now) == Some(zone),
    ensures
        ({
            let tile = world.tile_spec(zone.macro_zone, q, r, now);
            let promoted = world.tile_cards.at(card.card_id, now) == Some(card) && card.macro_zone
                == zone.macro_zone && card.micro == (Micro::Loose { local_q: q, local_r: r })
                && forall|id: u32|
                (#[trigger] world.tile_cards.at(id, now)) is Some && world.tile_cards.at(
                    id,
                    now,
                )->0.macro_zone == zone.macro_zone && world.tile_cards.at(id, now)->0.micro == (
                Micro::Loose { local_q: q, local_r: r }) ==> card.card_id <= id;
            let bare = forall|id: u32|
                (#[trigger] world.tile_cards.at(id, now)) is Some ==> !(world.tile_cards.at(
                    id,
                    now,
                )->0.macro_zone == zone.macro_zone && world.tile_cards.at(id, now)->0.micro == (
                Micro::Loose { local_q: q, local_r: r }));
            let idx = r * 8 + q;
            &&& promoted ==> tile == Some(
                TileView {
                    macro_zone: zone.macro_zone,
                    packed_definition: card.packed_definition,
                    stock0: card.stock.s0,
                    stock1: card.stock.s1,
                },
            )
            &&& bare && idx < zone.tiles@.len() && zone.tiles@[idx].def_id != 0 ==> tile == Some(
                TileView {
                    macro_zone: zone.macro_zone,
                    packed_definition: zone.tiles@[idx].packed,
                    stock0: zone.tiles@[idx].stock0,
                    stock1: zone.tiles@[idx].stock1,
                },
            )
            &&& bare && !(idx < zone.tiles@.len() && zone.tiles@[idx].def_id != 0) ==> tile is None
        }),
{
    let promoted = world.tile_cards.at(card.card_id, now) == Some(card) && card.macro_zone
        == zone.macro_zone && card.micro == (Micro::Loose { local_q: q, local_r: r })
        && forall|id: u32|
        (#[trigger] world.tile_cards.at(id, now)) is Some && world.tile_cards.at(
            id,
            now,
        )->0.macro_zone == zone.macro_zone && world.tile_cards.at(id, now)->0.micro == (
        Micro::Loose { local_q: q, local_r: r }) ==> card.card_id <= id;
    if promoted {
        assert(first_on_cell(world.tile_cards, zone.macro_zone, q, r, now, card.card_id));
        let id = choose|id: u32|
            first_on_cell(world.tile_cards, zone.macro_zone, q, r, now, id);
        assert(first_on_cell(world.tile_cards, zone.macro_zone, q, r, now, id));
        assert(id <= card.card_id);
        assert(world.tile_cards.at(id, now) is Some);
        assert(id == card.card_id);
    }
    if exists|id: u32| first_on_cell(world.tile_cards, zone.macro_zone, q, r, now, id) {
        let id = choose|id: u32|
            first_on_cell(world.tile_cards, zone.macro_zone, q, r, now, id);
        assert(world.tile_cards.at(id, now) is Some);
    }
}

/// A zone that is not loaded shows no tile.
pub proof fn law_unloaded_zone_has_no_tile(world: World, zone: u64, q: u8, r: u8, now: u64)
    requires
        world.zones.at(zone, now) is None,
    ensures
        world.tile_spec(zone, q, r, now) is None,
{
}

/// The members of a stack are the cards whose row is stacked on its root, on whichever
/// branch, each once, by id, each as its row has it.
pub proof fn law_members_are_stacked_on_the_root(
    cards: Cards,
    root: u32,
    now: u64,
    members: Seq<CardView>,
    id: u32,
)
    requires
        is_members(cards, root, now, members),
    ensures
        (exists|i: int| 0 <= i < members.len() && (#[trigger] members[i]).card_id == id) <==> (
        cards.at(id, now) matches Some(row) && row.micro matches Micro::Stacked { root: r, .. } && r
            == root),
        forall|i: int|
            0 <= i < members.len() ==> (cards.at((#[trigger] members[i]).card_id, now) matches Some(
                row,
            ) && members[i].owner_id == row.owner_id && members[i].micro_location
                == row.micro_location && members[i].micro == row.micro && members[i].macro_zone
                == row.macro_zone && members[i].packed_definition == row.packed_definition
                && members[i].flags == row.flags && members[i].stock == row.stock),
        forall|i: int, j: int|
            0 <= i < j < members.len() ==> (#[trigger] members[i]).card_id < (
            #[trigger] members[j]).card_id,
{
    if exists|i: int| 0 <= i < members.len() && (#[trigger] members[i]).card_id == id {
        let i = choose|i: int| 0 <= i < members.len() && (#[trigger] members[i]).card_id == id;
        assert(crate::world::is_member(cards, root, now, members[i]));
    }
    assert forall|i: int| 0 <= i < members.len() implies (cards.at(
        (#[trigger] members[i]).card_id,
        now,
    ) matches Some(row) && members[i].owner_id == row.owner_id && members[i].micro_location
        == row.micro_location && members[i].micro == row.micro && members[i].macro_zone
        == row.macro_zone && members[i].packed_definition == row.packed_definition
        && members[i].flags == row.flags && members[i].stock == row.stock) by {
        assert(crate::world::is_member(cards, root, now, members[i]));
    }
}

/// The next row to come is the one with the smallest stamp whose time is after now, and the
/// next moment at which anything changes is the time of the earliest such row of all.
pub proof fn law_next_row_is_the_first_to_come<R>(
    m: Map<u64, Map<u64, R>>,
    stamps: Set<u64>,
    now: u64,
    k: u64,
    t: u64,
    id: u64,
    j: u64,
)
    ensures
        next_at(stamps, now, k) ==> stamps.contains(k) && k / 0x1_0000 > now && (stamps.contains(j)
            && j / 0x1_0000 > now ==> k <= j),
        next_time(m, now, t) ==> t > now && (m.dom().contains(id) && m[id].dom().contains(j) && j
            / 0x1_0000 > now ==> t <= j / 0x1_0000),
        next_time(m, now, t) ==> exists|i: u64, s: u64|
            m.dom().contains(i) && #[trigger] m[i].dom().contains(s) && s / 0x1_0000 == t,
{
    if next_time(m, now, t) {
        let (i, s) = choose|i: u64, s: u64| #[trigger]
            holds_stamp(m, i, s) && crate::rows::time_of(s) == t;
        assert(m[i].dom().contains(s));
        if m.dom().contains(id) && m[id].dom().contains(j) {
            assert(holds_stamp(m, id, j));
        }
    }
}

/// Something comes due between two moments exactly where a stored row's millisecond is
/// after the first and not after the second.
pub proof fn law_due_rows_are_noticed<R>(m: Map<u64, Map<u64, R>>, from: u64, to: u64)
    ensures
        comes_due(m, from, to) <==> exists|id: u64, k: u64|
            m.dom().contains(id) && #[trigger] m[id].dom().contains(k) && from < k / 0x1_0000 && k
                / 0x1_0000 <= to,
{
    if comes_due(m, from, to) {
        let (id, k) = choose|id: u64, k: u64| #[trigger]
            holds_stamp(m, id, k) && from < crate::rows::time_of(k) <= to;
        assert(m[id].dom().contains(k));
    }
    if exists|id: u64, k: u64|
        m.dom().contains(id) && #[trigger] m[id].dom().contains(k) && from < k / 0x1_0000 && k
            / 0x1_0000 <= to {
        let (id, k) = choose|id: u64, k: u64|
            m.dom().contains(id) && #[trigger] m[id].dom().contains(k) && from < k / 0x1_0000 && k
                / 0x1_0000 <= to;
        assert(holds_stamp(m, id, k));
    }
}

/// Row `i` starts a stretch of active rows that lasts to row `j`.
pub open spec fn is_stretch(active: Seq<bool>, i: int, j: int) -> bool {
    &&& 0 <= i < j <= active.len()
    &&& forall|m: int| i <= m < j ==> #[trigger] active[m]
    &&& i == 0 || !active[i - 1]
    &&& j == active.len() || !active[j]
}

/// A progress window runs from the first to the end of a stretch of active rows: to the
/// next row, which is not active, or to the last row where none follows. It is not over;
/// every earlier stretch is; and there is none only where all are.
pub proof fn law_progress_window_is_the_first_not_over(
    times: Seq<u64>,
    active: Seq<bool>,
    now: u64,
    w: Option<(u64, u64)>,
    a: int,
    b: int,
)
    requires
        times.len() == active.len(),
        window_of(times, active, now, w),
        is_stretch(active, a, b),
    ensures
        ({
            let end = if b < times.len() {
                times[b]
            } else {
                times.last()
            };
            &&& w is None ==> end <= now
            &&& w matches Some((s, e)) ==> e > now && exists|i: int, j: int| #[trigger]
                is_stretch(active, i, j) && s == times[i] && e == (if j < times.len() {
                    times[j]
                } else {
                    times.last()
                }) && (a < i ==> end <= now) && (a == i ==> end == e)
        }),
{
    assert(is_run(active, a, b));
    if let Some((s, e)) = w {
        let (i, j) = choose|i: int, j: int| #[trigger]
            crate::world::first_open_run(times, active, now, i, j) && s == times[i] && e == run_end(
                times,
                j,
            );
        assert(is_run(active, i, j));
        assert(is_stretch(active, i, j));
        if a == i {
            if b < j {
                assert(active[b]);
            } else if j < b {
                assert(active[j]);
            }
        }
    }
}

/// What a card or a zone shows at a moment is the version with the largest stamp whose
/// millisecond has come; nothing where it has none.
pub proof fn law_world_shows_the_latest_due(world: World, id: u32, zone: u64, now: u64, k: u64)
    ensures
        world.cards@.dom().contains(id as u64) && is_due_last(
            world.cards@[id as u64].dom(),
            now,
            k,
        ) ==> world.cards.at(id, now) == Some(world.cards@[id as u64][k]),
        world.cards.at(id, now) is Some ==> world.cards@.dom().contains(id as u64),
        world.zones@.dom().contains(zone) && is_due_last(world.zones@[zone].dom(), now, k)
            ==> world.zones.at(zone, now) == Some(world.zones@[zone][k]),
        world.zones.at(zone, now) is Some ==> world.zones@.dom().contains(zone),
        world.cards.at(id, now) matches Some(row) ==> exists|j: u64| #[trigger]
            is_due_last(world.cards@[id as u64].dom(), now, j) && world.cards@[id as u64][j] == row,
        world.zones.at(zone, now) matches Some(row) ==> exists|j: u64| #[trigger]
            is_due_last(world.zones@[zone].dom(), now, j) && world.zones@[zone][j] == row,
{
    if world.cards@.dom().contains(id as u64) {
        law_current_is_the_latest_due(world.cards@[id as u64], now, k);
    } else {
        law_current_is_the_latest_due(Map::<u64, CardRow>::empty(), now, k);
    }
    if world.zones@.dom().contains(zone) {
        law_current_is_the_latest_due(world.zones@[zone], now, k);
    } else {
        law_current_is_the_latest_due(Map::<u64, ZoneRow>::empty(), now, k);
    }
}

} // verus!
