use resonantdust_client::client::Client;
use resonantdust_client::codec::FnCodec;
use resonantdust_client::matcher::{Frame, Subject};
use resonantdust_client::rows::{
    pack_valid_at, CardRow, Micro, RowOp, Stock, TileSlot, ZoneRow,
};
use resonantdust_client::view::{id_or_none, owner_of, sort_chat, ChatMsg, Renderable, ViewClient};
use resonantdust_client::wire::{ClientCall, ClientMsg, Command, GateMsg, RowData};
use resonantdust_client::zones::{INVENTORY_LAYER, WORLD_LAYER};

type Pack = fn(u32, u8, i16, i16) -> u64;
type Region = fn(u64) -> (u64, u8);
type Local = fn(i32) -> (i16, u8);
type Tile = fn(i16, u8) -> i32;
type TestClient = Client<FnCodec<Pack, Region, Local, Tile>>;

const PLACEMENT_BITS: u32 = 0xFF;

fn pack_macro_zone_full(owner: u32, surface: u8, q: i16, r: i16) -> u64 {
    ((owner as u64) << 32)
        | ((surface as u64) << 24)
        | ((q as u64 & 0xFFF) << 12)
        | (r as u64 & 0xFFF)
}

fn region_of_zone(zone: u64) -> (u64, u8) {
    let q = zone >> 12 & 0xFFF;
    let r = zone & 0xFFF;
    let region = (zone >> 24 << 24) | (q / 8) << 12 | (r / 8);
    (region, (r % 8 * 8 + q % 8) as u8)
}

/// Chunks of eight tiles.
fn zone_local(tile: i32) -> (i16, u8) {
    (tile.div_euclid(8) as i16, tile.rem_euclid(8) as u8)
}

fn world_tile(chunk: i16, local: u8) -> i32 {
    chunk as i32 * 8 + local as i32
}

fn client() -> TestClient {
    Client::new(
        FnCodec {
            pack: pack_macro_zone_full as Pack,
            region: region_of_zone as Region,
            local: zone_local as Local,
            tile: world_tile as Tile,
        },
        PLACEMENT_BITS,
    )
}

fn card_row(card_id: u32, owner_id: u32, macro_zone: u64, time_ms: u64) -> CardRow {
    CardRow {
        valid_at: pack_valid_at(time_ms, 1),
        card_id,
        macro_zone,
        surface: (macro_zone >> 24) as u8,
        chunk_q: (macro_zone >> 12 & 0xFFF) as i16,
        chunk_r: (macro_zone & 0xFFF) as i16,
        micro_location: 0,
        micro: Micro::Loose { local_q: 0, local_r: 0 },
        owner_id,
        packed_definition: 0,
        is_soul: false,
        flags: 0,
        flags_bk: 0,
        pos_need: false,
        pos_held: false,
        dead: false,
        stock: Stock { word: 0, s0: 0, s1: 0, claimed: false },
    }
}

type TestView = ViewClient<FnCodec<Pack, Region, Local, Tile>>;

fn view() -> TestView {
    let mut core = client();
    core.set_clock_ms(1000);
    ViewClient::new(core)
}

fn card_frame(row: CardRow) -> GateMsg {
    GateMsg::Row { op: RowOp::Insert, row: RowData::Card(row) }
}

fn zone_frame(macro_zone: u64, q: i16, r: i16, tiles: Vec<TileSlot>) -> GateMsg {
    GateMsg::Row {
        op: RowOp::Insert,
        row: RowData::Zone(ZoneRow {
            valid_at: pack_valid_at(100, 1),
            zone_id: 1,
            macro_zone,
            surface: (macro_zone >> 24) as u8,
            chunk_q: q,
            chunk_r: r,
            packed_definition: 0,
            owner_id: 0,
            tiles,
        }),
    }
}

#[test]
fn a_region_shows_its_tiles_and_then_its_cards() {
    let world = pack_macro_zone_full(0, WORLD_LAYER, 0, 0);
    let mut v = view();
    let wood = TileSlot { def_id: 4, packed: 0x304, stock0: 2, stock1: 1 };
    let none = TileSlot { def_id: 0, packed: 0, stock0: 0, stock1: 0 };
    v.take_frame(zone_frame(world, 0, 0, vec![none, wood]), 10);
    let mut loose = card_row(7, 1, world, 100);
    loose.micro = Micro::Loose { local_q: 2, local_r: 0 };
    v.take_frame(card_frame(loose), 10);
    let mut stacked = card_row(8, 1, world, 100);
    stacked.micro = Micro::Stacked { root: 7, branch: 1, index: 0 };
    v.take_frame(card_frame(stacked), 10);
    let mut dead = card_row(9, 1, world, 100);
    dead.dead = true;
    v.take_frame(card_frame(dead), 10);
    // Elsewhere: an inventory, and a stack whose root is not known.
    v.take_frame(card_frame(card_row(10, 1, pack_macro_zone_full(6, INVENTORY_LAYER, 0, 0), 100)), 10);
    let mut lost = card_row(11, 1, world, 100);
    lost.micro = Micro::Stacked { root: 99, branch: 1, index: 0 };
    v.take_frame(card_frame(lost), 10);
    let drawn = v.render_region(WORLD_LAYER, 0, 0, 0, 3, 3);
    assert_eq!(
        drawn,
        vec![
            Renderable::Tile { q: 1, r: 0, packed: 0x304, stock0: 2, stock1: 1 },
            Renderable::Card { card_id: 7, q: 2, r: 0, packed: 0, stock: 0, flags: 0 },
            Renderable::Card { card_id: 8, q: 2, r: 0, packed: 0, stock: 0, flags: 0 },
        ]
    );
    // One tile beyond the visible half still counts, two do not.
    assert_eq!(v.render_region(WORLD_LAYER, 0, 0, 0, 1, 1).len(), 3);
    assert_eq!(v.render_region(WORLD_LAYER, 0, 0, 0, 0, 0).len(), 1);
    let pocket = v.render_region(INVENTORY_LAYER, 6, 0, 0, 1, 1);
    assert_eq!(pocket.len(), 1);
}

#[test]
fn changes_ask_for_one_redraw() {
    let mut v = view();
    assert!(!v.finish().1);
    v.take_frame(card_frame(card_row(1, 1, 0, 100)), 10);
    assert!(v.finish().1);
    assert!(!v.finish().1);
    v.take_frame(GateMsg::Applied { sid: 1 }, 10);
    assert!(!v.finish().1);
    v.take_frame(GateMsg::ContentChanged { version: "7".to_string() }, 10);
    assert_eq!(v.take_content_changed(), Some("7".to_string()));
    assert_eq!(v.take_content_changed(), None);
}

#[test]
fn traffic_is_tallied() {
    let mut v = view();
    let frames = v.dispatch(Command::Login { name: "ann".to_string() });
    for f in &frames {
        v.note_sent(f, 100);
    }
    v.take_frame(GateMsg::CallPromise { cid: 1, timeout_ms: 5 }, 7);
    v.take_frame(GateMsg::CallOk { cid: 1, server_micros: String::new() }, 8);
    v.take_frame(GateMsg::CallOk { cid: 1, server_micros: String::new() }, 9);
    v.take_frame(GateMsg::Applied { sid: 1 }, 3);
    let calls = v.call_stats();
    assert_eq!(calls.len(), 1);
    let (name, s) = &calls[0];
    assert_eq!(name, "claim_or_login");
    assert_eq!(
        (s.requests, s.ok, s.err, s.promise, s.tx_bytes, s.rx_bytes),
        (1, 1, 0, 1, 100, 15),
        "a promise keeps the call, a reply ends it"
    );
    let subs = v.sub_stats();
    assert_eq!((subs[0].0.as_str(), subs[0].1.active, subs[0].1.rx_bytes), ("players", 1, 3));
    v.note_sent(&ClientMsg::Unsub { sid: 1 }, 4);
    let after = v.sub_stats();
    assert_eq!((after[0].1.active, after[0].1.total, after[0].1.tx_bytes), (0, 1, 104));
}

#[test]
fn aiming_a_viewport_anchors_what_is_visible() {
    let mut v = view();
    let frames = v.set_anchor(WORLD_LAYER, 0, 4, 4, 0);
    assert!(frames.iter().any(|f| matches!(f, ClientMsg::Sub { table, .. } if table == "zones")));
    assert!(!v.client().zones().active_zones().is_empty());
}

#[test]
fn cards_are_given_to_the_cell_of_a_tile() {
    let mut v = view();
    let cell = |out: Vec<ClientMsg>| match &out[0] {
        ClientMsg::Call { call: ClientCall::CreateCard { macro_zone, q, r, .. }, .. } => {
            (*macro_zone, *q, *r)
        }
        other => panic!("expected a creation, got {other:?}"),
    };
    assert_eq!(cell(v.give(6, "log".to_string(), 6, INVENTORY_LAYER, 0, 0)), (0, 0, 0));
    assert_eq!(
        cell(v.give(6, "log".to_string(), 9, INVENTORY_LAYER, 0, 1)),
        (pack_macro_zone_full(9, INVENTORY_LAYER, 0, 0), 0, 1)
    );
    assert_eq!(
        cell(v.give(6, "log".to_string(), 9, WORLD_LAYER, 17, 8)),
        (pack_macro_zone_full(0, WORLD_LAYER, 2, 1), 1, 0)
    );
}

#[test]
fn ids_are_signed_for_the_shell() {
    let mut v = view();
    assert_eq!((v.player_id(), v.player_soul_id()), (-1, -1));
    v.dispatch(Command::Login { name: "ann".to_string() });
    v.take_frame(
        GateMsg::Row {
            op: RowOp::Insert,
            row: RowData::Player { name: Some("ann".to_string()), player_id: Some(12) },
        },
        1,
    );
    let mut soul = card_row(40, 12, 0, 100);
    soul.packed_definition = 0xFFFF;
    v.take_frame(card_frame(soul), 1);
    assert_eq!((v.player_id(), v.player_soul_id()), (12, 40));
    assert_eq!(id_or_none(Some(5)), 5);
    assert_eq!(owner_of(pack_macro_zone_full(6, INVENTORY_LAYER, 0, 0)), 6);
    let judge = |_: &Frame| false;
    let shows = |_: &String, _: &Subject| false;
    v.tick(1_000_000, &judge, &shows);
    // Without a sample the clock stays.
    assert_eq!(v.client().clock_ms(), 1000);
}

#[test]
fn chat_is_sorted_by_time_and_keeps_ties_in_order() {
    let msg = |sent_at: u64, body: &str| ChatMsg {
        sent_at,
        sender_player_id: 1,
        sender_name: "ann".to_string(),
        body: body.to_string(),
    };
    let out = sort_chat(vec![msg(3, "c"), msg(1, "a"), msg(3, "d"), msg(2, "b")]);
    let bodies: Vec<&str> = out.iter().map(|m| m.body.as_str()).collect();
    assert_eq!(bodies, vec!["a", "b", "c", "d"]);
}

#[test]
fn samples_are_held_against_the_time_of_their_step() {
    let mut v = view();
    let judge = |_: &Frame| false;
    let shows = |_: &String, _: &Subject| false;
    let frames = vec![
        (GateMsg::Time { server_micros: "5000000000".to_string() }, 30),
        (card_frame(card_row(1, 1, 0, 100)), 20),
    ];
    let (_, redraw) = v.pump(1_000_000_000, frames, &judge, &shows);
    assert!(redraw);
    // Server time, behind by three seconds; not run forward by the local time so far.
    assert_eq!(v.client().clock_ms(), 4_997_000);
    let (_, redraw) = v.pump(1_000_500_000, vec![], &judge, &shows);
    assert!(!redraw);
    assert_eq!(v.client().clock_ms(), 4_997_500);
    assert!(v.place(Err("no".to_string())).is_err());
}

#[test]
fn a_zone_that_comes_due_is_drawn_without_a_row() {
    let mut v = view();
    let world = pack_macro_zone_full(0, WORLD_LAYER, 0, 0);
    let wood = TileSlot { def_id: 4, packed: 0x304, stock0: 2, stock1: 1 };
    let mut frame = zone_frame(world, 0, 0, vec![wood]);
    if let GateMsg::Row { row: RowData::Zone(z), .. } = &mut frame {
        z.valid_at = pack_valid_at(20_000, 1);
    }
    let judge = |_: &Frame| false;
    let shows = |_: &String, _: &Subject| true;
    let time = GateMsg::Time { server_micros: "15000000".to_string() };
    let (_, drawn) = v.pump(1_000_000, vec![(time, 10), (frame, 10)], &judge, &shows);
    assert!(drawn, "a row arrived");
    assert!(v.render_region(WORLD_LAYER, 0, 0, 0, 3, 3).is_empty(), "it is still to come");
    assert!(!v.pump(1_500_000, vec![], &judge, &shows).1);
    assert!(v.pump(9_000_000, vec![], &judge, &shows).1, "the clock reached it");
    assert_eq!(v.render_region(WORLD_LAYER, 0, 0, 0, 3, 3).len(), 1);
    assert!(!v.pump(9_500_000, vec![], &judge, &shows).1);
}
