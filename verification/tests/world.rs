use std::collections::BTreeSet;

use resonantdust_client::rows::{
    pack_valid_at, stamp_time_ms, CardRow, Micro, RowOp, Stock, TileSlot, ZoneRow,
};
use resonantdust_client::world::{first_window, Cards, Position, World, Zones};

const STACK_DIR_UP: u8 = 1;

/// A loose row of a card in the first cell of zone 0.
fn loose_row(card_id: u32, time_ms: u64, owner_id: u32) -> CardRow {
    CardRow {
        valid_at: pack_valid_at(time_ms, 1),
        card_id,
        macro_zone: 0,
        surface: 0,
        chunk_q: 0,
        chunk_r: 0,
        micro_location: 0,
        micro: Micro::Loose { local_q: 0, local_r: 0 },
        owner_id,
        packed_definition: 0,
        is_soul: false,
        flags: 0,
        flags_bk: 0,
        pos_need: false,
        pos_held: false,
        dead: false,
        stock: Stock { word: 0, s0: 0, s1: 0, claimed: false },
    }
}

fn zone_row(macro_zone: u64, time_ms: u64, tiles: Vec<TileSlot>) -> ZoneRow {
    ZoneRow {
        valid_at: pack_valid_at(time_ms, 1),
        zone_id: 1,
        macro_zone,
        surface: 64,
        chunk_q: 0,
        chunk_r: 0,
        packed_definition: 0,
        owner_id: 0,
        tiles,
    }
}

#[test]
fn stamps_carry_their_time() {
    assert_eq!(pack_valid_at(5, 3), 5 * 65536 + 3);
    assert_eq!(stamp_time_ms(pack_valid_at(1234, 9)), 1234);
    assert_eq!(loose_row(1, 77, 0).time_ms(), 77);
}

#[test]
fn world_gc_reaps_unpinned_but_keeps_current_future_and_pinned() {
    let mut cards = Cards::new();
    for t in [100u64, 200, 300, 400] {
        cards.apply(RowOp::Insert, loose_row(1024, t, 7));
    }
    assert_eq!(cards.version_count(), 4);
    // now=250, nothing pinned: keep the current (200) and the future (300, 400).
    cards.gc(250, |_zone| vec![]);
    assert_eq!(cards.version_count(), 3);
    assert!(cards.current(1024, 150).is_none(), "unpinned old version reaped");
    assert_eq!(cards.current(1024, 250).unwrap().time_ms(), 200);

    // Put the old version back; a watermark at t=150 pins it.
    cards.apply(RowOp::Insert, loose_row(1024, 100, 7));
    assert_eq!(cards.version_count(), 4);
    cards.gc(250, |_zone| vec![150]);
    assert_eq!(cards.version_count(), 4, "pinned old version retained as memory");
}

#[test]
fn next_future_row_brackets_the_completion_window() {
    let mut cards = Cards::new();
    cards.apply(RowOp::Insert, loose_row(1024, 100, 7));
    cards.apply(RowOp::Insert, loose_row(1024, 400, 7));
    assert_eq!(cards.next_future_row(1024, 250).map(|r| r.time_ms()), Some(400));
    assert_eq!(cards.current(1024, 250).unwrap().time_ms(), 100);
    assert!(cards.next_future_row(1024, 500).is_none());
    assert!(cards.next_future_row(9999, 250).is_none());
}

/// A row whose lowest stock bit is on or off.
fn bar_row(t: u64, on: bool) -> CardRow {
    let mut r = loose_row(1024, t, 7);
    r.stock.word = on as u64;
    r
}

fn bar_on(r: &CardRow) -> bool {
    r.stock.word & 1 != 0
}

#[test]
fn progress_window_scans_the_bit_interval() {
    let mut cards = Cards::new();
    cards.apply(RowOp::Insert, bar_row(100, true));
    cards.apply(RowOp::Insert, bar_row(400, false));
    assert_eq!(cards.progress_window(1024, 250, bar_on), Some((100, 400)));
    assert_eq!(cards.progress_window(1024, 50, bar_on), Some((100, 400)));
    assert_eq!(cards.progress_window(1024, 400, bar_on), None);
    assert_eq!(cards.progress_window(1024, 500, bar_on), None);
    assert_eq!(cards.progress_window(9999, 250, bar_on), None);
}

#[test]
fn progress_window_skips_finished_runs() {
    let mut cards = Cards::new();
    for (t, on) in [(100, true), (200, false), (300, true), (600, false)] {
        cards.apply(RowOp::Insert, bar_row(t, on));
    }
    assert_eq!(cards.progress_window(1024, 400, bar_on), Some((300, 600)));
    assert_eq!(cards.progress_window(1024, 250, bar_on), Some((300, 600)));
}

#[test]
fn progress_window_open_run_falls_back_to_last_row() {
    let mut cards = Cards::new();
    cards.apply(RowOp::Insert, bar_row(100, true));
    cards.apply(RowOp::Insert, bar_row(400, true));
    assert_eq!(cards.progress_window(1024, 250, bar_on), Some((100, 400)));
    assert_eq!(cards.progress_window(1024, 400, bar_on), None);
}

#[test]
fn world_current_resolves_to_latest_at_or_before_now() {
    let mut cards = Cards::new();
    cards.apply(RowOp::Insert, loose_row(1024, 100, 7));
    cards.apply(RowOp::Insert, loose_row(1024, 200, 7));
    assert!(cards.current(1024, 50).is_none());
    assert_eq!(cards.current(1024, 150).unwrap().time_ms(), 100);
    assert_eq!(cards.current(1024, 250).unwrap().time_ms(), 200);
    assert_eq!(cards.len(), 1);
}

#[test]
fn world_future_stamped_rows_are_excluded_until_their_time() {
    let mut cards = Cards::new();
    cards.apply(RowOp::Insert, loose_row(1024, 100, 7));
    cards.apply(RowOp::Insert, loose_row(1024, 500, 7));
    assert_eq!(cards.current(1024, 300).unwrap().time_ms(), 100);
    assert_eq!(cards.current(1024, 600).unwrap().time_ms(), 500);
}

#[test]
fn world_delete_drops_version_then_card() {
    let mut cards = Cards::new();
    let r1 = loose_row(1024, 100, 7);
    let r2 = loose_row(1024, 200, 7);
    let (v1, v2) = (r1.valid_at, r2.valid_at);
    cards.apply(RowOp::Insert, r1);
    cards.apply(RowOp::Insert, r2);
    cards.apply(RowOp::Delete, loose_row(1024, 100, 7).with_valid_at(v1));
    assert_eq!(cards.current(1024, 250).unwrap().time_ms(), 200);
    cards.apply(RowOp::Delete, loose_row(1024, 200, 7).with_valid_at(v2));
    assert!(cards.current(1024, 250).is_none());
    assert!(cards.is_empty());
}

#[test]
fn world_placement_decodes_through_codec() {
    // A stacked member of root 2048 on the upper branch at slot 3.
    let mut row = loose_row(1025, 100, 0);
    row.micro_location = 2048;
    row.micro = Micro::Stacked { root: 2048, branch: STACK_DIR_UP, index: 3 };
    match row.micro() {
        Micro::Stacked { root, branch, index } => {
            assert_eq!((root, branch, index), (2048, STACK_DIR_UP, 3));
        }
        other => panic!("expected stacked, got {other:?}"),
    }
}

#[test]
fn sweeping_twice_changes_nothing_more() {
    let mut cards = Cards::new();
    for t in [100u64, 200, 300] {
        cards.apply(RowOp::Insert, loose_row(1, t, 7));
    }
    cards.gc(350, |_zone| vec![]);
    assert_eq!(cards.version_count(), 1);
    cards.gc(350, |_zone| vec![]);
    assert_eq!(cards.version_count(), 1);
    assert_eq!(cards.current(1, 350).unwrap().time_ms(), 300);
}

#[test]
fn pinning_overrides_future_positions_but_not_required_ones() {
    let to = Position {
        macro_zone: 9,
        surface: 64,
        chunk_q: 0,
        chunk_r: 0,
        micro_location: 5,
        micro: Micro::Loose { local_q: 5, local_r: 0 },
        flags: 0b11,
    };
    let mut cards = Cards::new();
    let mut now = loose_row(1, 100, 7);
    now.flags = 0b100;
    cards.apply(RowOp::Insert, now);
    cards.apply(RowOp::Insert, loose_row(1, 500, 7));
    let mut required = loose_row(1, 900, 7);
    required.pos_need = true;
    cards.apply(RowOp::Insert, required);
    cards.pin_position(1, &to, 0b01);
    let row = cards.current(1, 100).unwrap();
    assert_eq!((row.macro_zone, row.micro_location, row.flags), (9, 5, 0b101));
    assert_eq!(cards.current(1, 500).unwrap().macro_zone, 9);
    assert_eq!(cards.current(1, 900).unwrap().macro_zone, 0);
}

#[test]
fn local_rows_adopt_the_stock_before_them() {
    let mut cards = Cards::new();
    let mut server = loose_row(1, 100, 7);
    server.stock.word = 42;
    cards.apply(RowOp::Insert, server);
    let local = loose_row(1, 200, 7);
    let mut stamps = BTreeSet::new();
    stamps.insert(local.valid_at);
    cards.apply(RowOp::Insert, local);
    cards.resync_local_stock(1, &stamps);
    assert_eq!(cards.current(1, 200).unwrap().stock.word, 42);
    // A local row with nothing before it keeps its own.
    let mut first = loose_row(2, 50, 7);
    first.stock.word = 9;
    let mut lone = BTreeSet::new();
    lone.insert(first.valid_at);
    cards.apply(RowOp::Insert, first);
    cards.resync_local_stock(2, &lone);
    assert_eq!(cards.current(2, 50).unwrap().stock.word, 9);
}

#[test]
fn the_soonest_future_row_is_found() {
    let mut cards = Cards::new();
    assert_eq!(cards.min_future_time(0), None);
    cards.apply(RowOp::Insert, loose_row(1, 700, 7));
    cards.apply(RowOp::Insert, loose_row(2, 600, 7));
    cards.apply(RowOp::Insert, loose_row(2, 100, 7));
    assert_eq!(cards.min_future_time(100), Some(600));
    assert_eq!(cards.min_future_time(650), Some(700));
    assert_eq!(cards.min_future_time(700), None);
    assert_eq!(cards.zone_of(1), Some(0));
    assert_eq!(cards.zone_of(3), None);
}

#[test]
fn windows_are_read_off_times_and_bits() {
    assert_eq!(first_window(&vec![], &vec![], 5), None);
    assert_eq!(first_window(&vec![10, 20], &vec![true, false], 5), Some((10, 20)));
    assert_eq!(first_window(&vec![10, 20], &vec![true, false], 20), None);
    assert_eq!(first_window(&vec![10, 20, 30], &vec![false, true, true], 25), Some((20, 30)));
}

#[test]
fn members_are_the_cards_of_a_stack() {
    let mut world = World::new();
    for (id, at) in [(12u32, 0u8), (11, 1)] {
        let mut row = loose_row(id, 100, 7);
        row.micro = Micro::Stacked { root: 10, branch: STACK_DIR_UP, index: at };
        world.cards.apply(RowOp::Insert, row);
    }
    world.cards.apply(RowOp::Insert, loose_row(10, 100, 7));
    let ids: Vec<u32> = world.members_of(10, 150).iter().map(|v| v.card_id).collect();
    assert_eq!(ids, vec![11, 12]);
    assert!(world.members_of(11, 150).is_empty());
    assert_eq!(world.card_at(10, 150).map(|v| v.owner_id), Some(7));
    assert!(world.card_at(10, 50).is_none());
    assert!(world.tracks_tiles());
}

#[test]
fn a_promoted_tile_hides_the_grid() {
    let slot = TileSlot { def_id: 4, packed: 0x304, stock0: 2, stock1: 0 };
    let empty = TileSlot { def_id: 0, packed: 0x300, stock0: 0, stock1: 0 };
    let mut world = World::new();
    world.zones.apply(RowOp::Insert, zone_row(9, 100, vec![slot, empty]));
    let tile = world.tile_at(9, 0, 0, 150).unwrap();
    assert_eq!((tile.packed_definition, tile.stock0), (0x304, 2));
    assert!(world.tile_at(9, 1, 0, 150).is_none());
    assert!(world.tile_at(9, 0, 0, 50).is_none());
    assert!(world.tile_card_at(9, 0, 0, 150).is_none());
    let mut promoted = loose_row(77, 120, 0);
    promoted.macro_zone = 9;
    promoted.packed_definition = 0x305;
    promoted.stock = Stock { word: 1, s0: 1, s1: 8, claimed: false };
    world.tile_cards.apply(RowOp::Insert, promoted);
    assert_eq!(world.tile_card_at(9, 0, 0, 150), Some((0x305, 1, 8)));
    assert_eq!(world.tile_at(9, 0, 0, 150).unwrap().packed_definition, 0x305);
    // Before the promotion the grid still shows.
    assert_eq!(world.tile_at(9, 0, 0, 110).unwrap().packed_definition, 0x304);
}

#[test]
fn zones_keep_versions_too() {
    let mut zones = Zones::new();
    zones.apply(RowOp::Insert, zone_row(9, 100, vec![]));
    zones.apply(RowOp::Update, zone_row(9, 200, vec![]));
    zones.apply(RowOp::Insert, zone_row(8, 300, vec![]));
    assert_eq!(zones.len(), 2);
    assert_eq!(zones.current(9, 150).unwrap().time_ms(), 100);
    assert_eq!(zones.current_all(250).len(), 1);
    assert_eq!(zones.min_future_time(250), Some(300));
    zones.gc(250, |_zone| vec![]);
    assert!(zones.current(9, 150).is_none());
    zones.apply(RowOp::Delete, zone_row(8, 300, vec![]));
    assert_eq!(zones.len(), 1);
}

#[test]
fn blocked_cards_are_dead_or_claimed() {
    let mut row = loose_row(1, 1, 1);
    assert!(!row.bind_blocked());
    row.stock.claimed = true;
    assert!(row.bind_blocked());
    row.stock.claimed = false;
    row.dead = true;
    assert!(row.bind_blocked() && row.is_dead());
}

#[test]
fn a_zone_sweep_keeps_what_is_shown_now_later_and_at_pins() {
    let mut zones = Zones::new();
    for t in [100u64, 200, 300, 400] {
        zones.apply(RowOp::Insert, zone_row(9, t, vec![]));
        zones.apply(RowOp::Insert, zone_row(8, t, vec![]));
    }
    let pins = |zone: u64| if zone == 9 { vec![150u64] } else { vec![] };
    zones.gc(350, pins);
    let at = |z: u64, t: u64| zones.current(z, t).map(|r| r.time_ms());
    assert_eq!((at(9, 150), at(9, 350), at(9, 400)), (Some(100), Some(300), Some(400)));
    assert_eq!((at(8, 150), at(8, 350), at(8, 400)), (None, Some(300), Some(400)));
    assert_eq!(at(9, 250), Some(100), "the row of 200 is gone");
    assert_eq!(zones.len(), 2);
}

#[test]
fn rows_that_come_due_are_noticed() {
    let mut world = World::new();
    assert!(!world.promotes(0, u64::MAX));
    world.zones.apply(RowOp::Insert, zone_row(9, 500, vec![]));
    assert!(!world.promotes(0, 499) && world.promotes(499, 500) && !world.promotes(500, 900));
    world.tile_cards.apply(RowOp::Insert, loose_row(1, 700, 0));
    assert!(world.promotes(500, 900));
    world.cards.apply(RowOp::Insert, loose_row(2, 1000, 0));
    assert!(world.promotes(900, 1000) && !world.promotes(1000, 900));
}

#[test]
fn no_card_is_kept_without_a_version() {
    let mut cards = Cards::new();
    assert!(cards.is_empty() && cards.len() == 0 && cards.version_count() == 0);
    for t in [100u64, 200, 300] {
        cards.apply(RowOp::Insert, loose_row(7, t, 1));
    }
    cards.apply(RowOp::Insert, loose_row(8, 100, 1));
    assert_eq!((cards.len(), cards.version_count()), (2, 4));
    cards.gc(300, |_zone| vec![]);
    assert_eq!((cards.len(), cards.version_count()), (2, 2));
    cards.apply(RowOp::Delete, loose_row(7, 300, 1));
    cards.apply(RowOp::Delete, loose_row(8, 100, 1));
    assert!(cards.is_empty() && cards.len() == 0 && cards.version_count() == 0);
}
