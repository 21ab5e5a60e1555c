use resonantdust_client::client::Client;
use resonantdust_client::codec::FnCodec;
use resonantdust_client::content::{CardDef, Content, Recipe, RecipeEntry, RecipeIter, Stmt, Token};
use resonantdust_client::matcher::{Frame, Subject};
use resonantdust_client::moves::Write;
use resonantdust_client::rows::{
    pack_valid_at, CardRow, Micro, RegionRow, RowOp, Stock, TileSlot, ZoneRow,
};
use resonantdust_client::wire::{
    is_player_soul, ClientCall, ClientMsg, Command, Event, GateMsg, RowData,
};
use resonantdust_client::world::Position;
use resonantdust_client::zones::{AnchorRadii, INVENTORY_LAYER, WORLD_LAYER};

type Pack = fn(u32, u8, i16, i16) -> u64;
type Region = fn(u64) -> (u64, u8);
type Local = fn(i32) -> (i16, u8);
type Tile = fn(i16, u8) -> i32;
type TestClient = Client<FnCodec<Pack, Region, Local, Tile>>;

const STACK_DIR_UP: u8 = 1;
const PLACEMENT_BITS: u32 = 0xFF;

fn pack_macro_zone_full(owner: u32, surface: u8, q: i16, r: i16) -> u64 {
    ((owner as u64) << 32)
        | ((surface as u64) << 24)
        | ((q as u64 & 0xFFF) << 12)
        | (r as u64 & 0xFFF)
}

fn region_of_zone(zone: u64) -> (u64, u8) {
    let q = zone >> 12 & 0xFFF;
    let r = zone & 0xFFF;
    let region = (zone >> 24 << 24) | (q / 8) << 12 | (r / 8);
    (region, (r % 8 * 8 + q % 8) as u8)
}

/// Chunks of eight tiles.
fn zone_local(tile: i32) -> (i16, u8) {
    (tile.div_euclid(8) as i16, tile.rem_euclid(8) as u8)
}

fn world_tile(chunk: i16, local: u8) -> i32 {
    chunk as i32 * 8 + local as i32
}

fn client() -> TestClient {
    Client::new(
        FnCodec {
            pack: pack_macro_zone_full as Pack,
            region: region_of_zone as Region,
            local: zone_local as Local,
            tile: world_tile as Tile,
        },
        PLACEMENT_BITS,
    )
}

fn card_row(card_id: u32, owner_id: u32, macro_zone: u64, time_ms: u64) -> CardRow {
    CardRow {
        valid_at: pack_valid_at(time_ms, 1),
        card_id,
        macro_zone,
        surface: (macro_zone >> 24) as u8,
        chunk_q: (macro_zone >> 12 & 0xFFF) as i16,
        chunk_r: (macro_zone & 0xFFF) as i16,
        micro_location: 0,
        micro: Micro::Loose { local_q: 0, local_r: 0 },
        owner_id,
        packed_definition: 0,
        is_soul: false,
        flags: 0,
        flags_bk: 0,
        pos_need: false,
        pos_held: false,
        dead: false,
        stock: Stock { word: 0, s0: 0, s1: 0, claimed: false },
    }
}

fn card_frame(op: RowOp, row: CardRow) -> GateMsg {
    GateMsg::Row { op, row: RowData::Card(row) }
}

fn cards_row_frame(op: RowOp, card_id: u32, owner_id: u32, time_ms: u64) -> GateMsg {
    card_frame(op, card_row(card_id, owner_id, 0, time_ms))
}

fn player_frame(id: u32, name: &str) -> GateMsg {
    GateMsg::Row {
        op: RowOp::Insert,
        row: RowData::Player { name: Some(name.to_string()), player_id: Some(id) },
    }
}

/// Log in as a player of this id.
fn logged_in(id: u32) -> TestClient {
    let mut c = client();
    c.dispatch(Command::Login { name: "ann".to_string() });
    c.apply(player_frame(id, "ann"));
    c.set_clock_ms(1000);
    let _ = c.drain_outbound();
    c
}

fn count_sub(frames: &[ClientMsg], table: &str) -> usize {
    frames.iter().filter(|f| matches!(f, ClientMsg::Sub { table: t, .. } if t == table)).count()
}

fn count_call(frames: &[ClientMsg], reducer: &str) -> usize {
    frames
        .iter()
        .filter(|f| matches!(f, ClientMsg::Call { call, .. } if call.reducer() == reducer))
        .count()
}

fn nothing(_: &Frame) -> bool {
    false
}

fn shown(_: &String, _: &Subject) -> bool {
    true
}

#[test]
fn login_dispatches_players_watch_before_call_with_monotonic_ids() {
    let mut c = client();
    let frames = c.dispatch(Command::Login { name: "ann".to_string() });
    assert_eq!(frames.len(), 2);
    match &frames[0] {
        ClientMsg::Sub { sid, table, filter } => {
            assert_eq!((*sid, table.as_str()), (1, "players"));
            assert_eq!(filter.as_deref(), Some("name = 'ann'"));
        }
        other => panic!("expected sub, got {other:?}"),
    }
    match &frames[1] {
        ClientMsg::Call { cid, call } => {
            assert_eq!((*cid, call.reducer().as_str()), (1, "claim_or_login"));
            match call {
                ClientCall::ClaimOrLogin { name, .. } => assert_eq!(name, "ann"),
                other => panic!("expected a login, got {other:?}"),
            }
        }
        other => panic!("expected call, got {other:?}"),
    }
    let more = c.dispatch(Command::Subscribe { table: "cards".to_string(), filter: None });
    assert!(matches!(&more[0], ClientMsg::Sub { sid: 2, .. }));
    let args = serde_json::Value::Object(serde_json::Map::new());
    let call = c.dispatch(Command::Call { reducer: "ping".to_string(), args });
    assert!(matches!(&call[0], ClientMsg::Call { cid: 2, .. }));
}

#[test]
fn learns_player_id_then_creates_player_soul_owned_by_it() {
    let mut c = client();
    c.dispatch(Command::Login { name: "ann".to_string() });
    assert_eq!(c.apply(player_frame(999, "bob")), vec![]);
    assert_eq!(c.player_id(), None);
    assert_eq!(c.apply(player_frame(1024, "ann")), vec![Event::PlayerId { id: 1024 }]);
    assert_eq!(c.player_id(), Some(1024));
    let owner = c.player_id().unwrap();
    let frames = c.dispatch(Command::CreateCard {
        owner,
        card_key: "player_soul".to_string(),
        surface: 0,
        macro_zone: 0,
        q: 0,
        r: 0,
    });
    match &frames[0] {
        ClientMsg::Call { call, .. } => {
            assert_eq!(call.reducer(), "create_card");
            match call {
                ClientCall::CreateCard { owner_id, card_key, .. } => {
                    assert_eq!((*owner_id, card_key.as_str()), (1024, "player_soul"));
                }
                other => panic!("expected a creation, got {other:?}"),
            }
        }
        other => panic!("expected call, got {other:?}"),
    }
}

#[test]
fn clock_sample_emits_event_and_stamps_outbound() {
    let mut c = client();
    let events = c.apply(GateMsg::Time { server_micros: "5000000".to_string() });
    assert!(matches!(events.as_slice(), [Event::Clock { .. }]));
    c.set_clock_ms(5000);
    let spawn = c.dispatch(Command::CreateCard {
        owner: 1,
        card_key: "player_soul".to_string(),
        surface: 0,
        macro_zone: 0,
        q: 0,
        r: 0,
    });
    match &spawn[0] {
        ClientMsg::Call { call: ClientCall::CreateCard { client_time_ms, .. }, .. } => {
            assert_eq!(*client_time_ms, 5000)
        }
        other => panic!("expected call, got {other:?}"),
    }
}

#[test]
fn cards_rows_fold_into_the_world_with_events() {
    let mut c = client();
    assert_eq!(
        c.apply(cards_row_frame(RowOp::Insert, 1024, 7, 100)),
        vec![Event::CardUpserted { card_id: 1024 }]
    );
    assert_eq!(
        c.apply(cards_row_frame(RowOp::Insert, 1025, 7, 100)),
        vec![Event::CardUpserted { card_id: 1025 }]
    );
    assert_eq!(c.world().cards.current_all(150).len(), 2);
    assert_eq!(c.world().cards.current(1024, 150).unwrap().owner_id, 7);
    assert_eq!(
        c.apply(cards_row_frame(RowOp::Delete, 1025, 7, 100)),
        vec![Event::CardRemoved { card_id: 1025 }]
    );
    assert_eq!(c.world().cards.current_all(150).len(), 1);
}

/// A plan that stacks a card on another, in a zone.
fn stack_plan(card_id: u32, root: u32, zone: u64) -> Vec<Write> {
    vec![Write {
        card_id,
        to: Position {
            macro_zone: zone,
            surface: (zone >> 24) as u8,
            chunk_q: 0,
            chunk_r: 0,
            micro_location: root,
            micro: Micro::Stacked { root, branch: STACK_DIR_UP, index: 0 },
            flags: 0b11,
        },
    }]
}

/// A plan that puts a card loose in a cell.
fn loose_plan(card_id: u32, zone: u64, q: u8, r: u8) -> Vec<Write> {
    vec![Write {
        card_id,
        to: Position {
            macro_zone: zone,
            surface: (zone >> 24) as u8,
            chunk_q: 0,
            chunk_r: 0,
            micro_location: q as u32 * 8 + r as u32,
            micro: Micro::Loose { local_q: q, local_r: r },
            flags: 0,
        },
    }]
}

#[test]
fn place_validates_and_emits_place_card_frame_without_mutating_world() {
    let world = pack_macro_zone_full(0, WORLD_LAYER, 0, 0);
    let mut c = logged_in(7);
    let mut soul = card_row(1024, 7, world, 100);
    soul.packed_definition = 0xFFFF;
    c.apply(card_frame(RowOp::Insert, soul));
    assert!(is_player_soul(c.world().cards.current(1024, 1000).unwrap().packed_definition));
    c.apply(card_frame(RowOp::Insert, card_row(2000, 1024, world, 100)));
    c.apply(card_frame(RowOp::Insert, card_row(2001, 1024, world, 100)));
    let _ = c.drain_outbound();

    let frames = c.place(Ok(stack_plan(2000, 2001, world))).unwrap();
    assert!(frames.is_empty(), "place is local, no immediate wire frame");
    assert_eq!(count_call(&c.drain_outbound(), "move_cards"), 0);
    let r = c.world().cards.current(2000, 1000).unwrap();
    assert!(matches!(r.micro(), Micro::Stacked { root: 2001, .. }), "place applies the move");
    assert!(c.is_dirty(2000), "moved card is dirty until flushed");

    let flush = c.flush_positions();
    match &flush[0] {
        ClientMsg::Call { call, .. } => {
            assert_eq!(call.reducer(), "move_cards");
            match call {
                ClientCall::MoveCards {
                    card_ids, caller_player_id, stack_states, macro_zones, ..
                } => {
                    assert_eq!(card_ids[0], 2000);
                    assert_eq!(*caller_player_id, 7);
                    assert_eq!((stack_states[0], macro_zones[0]), (0b11, world));
                }
                other => panic!("expected moves, got {other:?}"),
            }
        }
        other => panic!("expected move_cards call, got {other:?}"),
    }
    assert!(!c.is_dirty(2000), "flush clears the dirty set");

    // An infeasible move changes nothing.
    assert!(c.place(Err("a card cannot be its own parent".to_string())).is_err());
    assert!(!c.is_dirty(2001));
}

#[test]
fn place_syncs_in_shared_zone_stays_local_when_private() {
    let world = pack_macro_zone_full(0, WORLD_LAYER, 0, 0);
    let mut c = logged_in(7);
    let mut soul = card_row(1024, 7, world, 100);
    soul.packed_definition = 0xFFFF;
    c.apply(card_frame(RowOp::Insert, soul));
    c.apply(card_frame(RowOp::Insert, card_row(3000, 1024, world, 100)));
    c.apply(card_frame(RowOp::Insert, card_row(3001, 1024, world, 100)));
    let _ = c.drain_outbound();

    c.place(Ok(stack_plan(3000, 3001, world))).unwrap();
    assert!(c.is_dirty(3000));
    assert_eq!(count_call(&c.drain_outbound(), "move_cards"), 0, "private-zone move stays local");

    c.apply(GateMsg::ZoneObservers { macro_zone: world.to_string(), observers: 2 });
    assert_eq!(c.observers(world), 2);
    let out = c.drain_outbound();
    assert!(
        matches!(out.first(), Some(ClientMsg::Call { call, .. }) if call.reducer() == "move_cards")
    );

    c.place(Ok(loose_plan(3001, world, 1, 1))).unwrap();
    let out = c.drain_outbound();
    assert!(
        matches!(out.first(), Some(ClientMsg::Call { call, .. }) if call.reducer() == "move_cards"),
        "move in a shared zone syncs immediately"
    );
}

fn region_row_frame(op: RowOp, macro_region: u64, presence: u64, available: u64) -> GateMsg {
    GateMsg::Row {
        op,
        row: RowData::Region(RegionRow {
            valid_at: pack_valid_at(100, 1),
            macro_region,
            zone_presence: presence,
            zone_available: available,
            distance: u16::MAX,
        }),
    }
}

/// An anchor whose active ring is the nine chunks around (2, 2).
fn nine_zones() -> Command {
    Command::SetAnchor {
        name: "soul".to_string(),
        surface: WORLD_LAYER,
        owner: 0,
        q: 16,
        r: 16,
        radii: AnchorRadii { active: 8, hot: 0, warm: 0, cold: 0 },
    }
}

#[test]
fn set_anchor_scopes_subscriptions_and_gates_region() {
    let mut c = client();
    let frames = c.dispatch(nine_zones());
    assert_eq!(count_sub(&frames, "zones"), 9, "one scoped zones sub per active zone");
    assert_eq!(count_sub(&frames, "cards"), 9, "one scoped cards sub per active zone");
    assert_eq!(count_sub(&frames, "regions"), 1);
    assert_eq!(count_call(&frames, "ensure_region"), 1);
    assert_eq!(count_call(&frames, "request_zone"), 0);
    assert!(frames.iter().any(|f| matches!(f,
        ClientMsg::Sub { table, filter: Some(fl), .. }
            if table == "cards" && fl.starts_with("macro_zone = "))));
}

#[test]
fn region_row_arrival_requests_each_active_zone_once() {
    let mut c = client();
    c.dispatch(nine_zones());
    let (region, _) = region_of_zone(pack_macro_zone_full(0, WORLD_LAYER, 2, 2));
    assert_eq!(c.apply(region_row_frame(RowOp::Insert, region, u64::MAX, 0)), vec![]);
    let frames = c.zone_frames();
    assert_eq!(count_call(&frames, "request_zone"), 9, "each active zone requested once");
    c.apply(region_row_frame(RowOp::Update, region, u64::MAX, 0));
    assert_eq!(count_call(&c.zone_frames(), "request_zone"), 0, "no duplicate requests");
}

#[test]
fn zone_arrival_clears_the_pending_request() {
    let mut c = client();
    c.dispatch(nine_zones());
    let target = pack_macro_zone_full(0, WORLD_LAYER, 2, 2);
    let (region, _) = region_of_zone(target);
    c.apply(region_row_frame(RowOp::Insert, region, u64::MAX, 0));
    let _ = c.zone_frames();

    let zone = ZoneRow {
        valid_at: pack_valid_at(100, 1),
        zone_id: 1,
        macro_zone: target,
        surface: WORLD_LAYER,
        chunk_q: 2,
        chunk_r: 2,
        packed_definition: 0,
        owner_id: 0,
        tiles: vec![],
    };
    assert_eq!(
        c.apply(GateMsg::Row { op: RowOp::Insert, row: RowData::Zone(zone) }),
        vec![Event::ZoneUpserted { macro_zone: target }]
    );
    let _ = c.zone_frames();
    c.apply(region_row_frame(RowOp::Update, region, u64::MAX, u64::MAX));
    let frames = c.zone_frames();
    assert!(
        !frames.iter().any(|f| matches!(f,
            ClientMsg::Call { call: ClientCall::RequestZone { macro_zone, .. }, .. }
                if *macro_zone == target)),
        "an arrived zone is not re-requested"
    );
}

fn card_frame_at(card_id: u32, owner_id: u32, macro_zone: u64, packed_definition: u16) -> GateMsg {
    let mut row = card_row(card_id, owner_id, macro_zone, 100);
    row.packed_definition = packed_definition;
    card_frame(RowOp::Insert, row)
}

#[test]
fn discovery_walks_player_to_soul_to_inventory() {
    let mut c = client();
    c.dispatch(Command::Login { name: "ann".to_string() });
    c.set_clock_ms(1000);
    c.apply(player_frame(1000, "ann"));
    let frames = c.drain_outbound();
    assert!(
        frames.iter().any(|f| matches!(f,
            ClientMsg::Sub { table, filter: Some(fl), .. }
                if table == "cards" && fl == "owner_id = 1000 AND packed_definition >= 65520")),
        "learning player_id subscribes the player_soul roster"
    );

    let psoul = pack_macro_zone_full(0, 0, 0, 0);
    c.apply(card_frame_at(5000, 1000, psoul, 0xFFFF));
    let frames = c.drain_outbound();
    assert!(
        frames.iter().any(|f| matches!(f,
            ClientMsg::Sub { table, filter: Some(fl), .. }
                if table == "cards" && fl == "owner_id = 5000")),
        "the player_soul row subscribes its soul roster"
    );
    assert!(c.souls().is_empty(), "the player_soul is not itself a soul");
    assert_eq!(c.player_souls(), vec![5000]);

    let world00 = pack_macro_zone_full(0, WORLD_LAYER, 0, 0);
    c.apply(card_frame_at(6000, 5000, world00, 0));
    assert_eq!(c.souls(), vec![6000], "the soul is discovered");
    let frames = c.drain_outbound();
    let inv = pack_macro_zone_full(6000, INVENTORY_LAYER, 0, 0);
    assert!(
        frames.iter().any(|f| matches!(f,
            ClientMsg::Sub { table, filter: Some(fl), .. }
                if table == "cards" && *fl == format!("macro_zone = {inv}"))),
        "the soul's inventory container is subscribed (cards scoped to it)"
    );
    assert!(c.zones().active_zones().contains(&inv), "inventory zone is active");
    assert_eq!(c.zones().active_zones().len(), 1, "inventory only");
}

#[test]
fn call_replies_and_protocol_errors_surface() {
    let mut c = client();
    assert_eq!(
        c.apply(GateMsg::CallOk { cid: 3, server_micros: "0".to_string() }),
        vec![Event::Clock { ms: 0 }, Event::CallOk { cid: 3 }]
    );
    assert_eq!(
        c.apply(GateMsg::CallErr {
            cid: 4,
            error: "nope".to_string(),
            server_micros: "".to_string()
        }),
        vec![Event::CallErr { cid: 4, error: "nope".to_string() }]
    );
    assert_eq!(
        c.apply(GateMsg::Error { error: "bad".to_string() }),
        vec![Event::Error { error: "bad".to_string() }]
    );
    assert_eq!(c.drain_errors(), vec!["bad".to_string()]);
    assert!(c.drain_errors().is_empty());
}

#[test]
fn undecodable_rows_are_errors_and_unknown_tables_are_not() {
    let mut c = client();
    let bad = RowData::Undecodable { table: "cards".to_string(), error: "oops".to_string() };
    assert_eq!(c.apply(GateMsg::Row { op: RowOp::Insert, row: bad }).len(), 1);
    assert_eq!(c.drain_errors().len(), 1);
    let other = RowData::Other { table: "chat".to_string() };
    assert_eq!(c.apply(GateMsg::Row { op: RowOp::Insert, row: other }), vec![]);
    assert!(c.drain_errors().is_empty());
    assert_eq!(c.apply(GateMsg::Applied { sid: 4 }), vec![Event::Applied { sid: 4 }]);
    assert_eq!(c.apply(GateMsg::ContentChanged { version: "2".to_string() }), vec![]);
}

fn word(s: &str) -> Token {
    Token::Word(s.to_string())
}

/// A recipe on the root alone, and one with two inputs on the upper stack.
fn content() -> Content {
    let human = CardDef {
        name: "human".to_string(),
        packed: 3,
        inventory: true,
        radii: AnchorRadii { active: 2, hot: 0, warm: 0, cold: 0 },
    };
    let log = CardDef {
        name: "log".to_string(),
        packed: 4,
        inventory: false,
        radii: AnchorRadii::default(),
    };
    let alone = Recipe {
        iters: vec![],
        input: vec![Stmt::Instr(vec![Token::Slot("root".to_string()), word("use")])],
        output: vec![],
    };
    let pair = Recipe {
        iters: vec![
            RecipeIter { parent: String::new(), branch: 1 },
            RecipeIter { parent: String::new(), branch: 1 },
        ],
        input: vec![
            Stmt::Instr(vec![Token::Slot("slot.1.0".to_string()), word("use")]),
            Stmt::Instr(vec![Token::Slot("slot.1.1".to_string()), word("use")]),
        ],
        output: vec![],
    };
    Content::new(
        vec![human, log],
        vec![
            RecipeEntry { id: 1, name: "alone".to_string(), body: Some(alone) },
            RecipeEntry { id: 2, name: "pair".to_string(), body: Some(pair) },
        ],
    )
    .unwrap()
}

#[test]
fn proposals_commit_what_is_dirty_first() {
    let world = pack_macro_zone_full(0, WORLD_LAYER, 0, 0);
    let mut c = logged_in(7);
    let refused = c.propose("alone", 1, vec![], 64, 0, 0);
    assert_eq!(refused.unwrap_err(), "propose: content bundle not loaded");
    c.set_bundle(content());
    assert_eq!(c.packed_def("log"), Some(4));
    assert_eq!(c.packed_def("stone"), None);
    let refused = c.propose("nothing", 1, vec![], 64, 0, 0);
    assert_eq!(refused.unwrap_err(), "propose: unknown recipe \"nothing\"");
    c.apply(card_frame(RowOp::Insert, card_row(10, 7, world, 100)));
    c.apply(card_frame(RowOp::Insert, card_row(11, 7, world, 100)));
    let _ = c.drain_outbound();
    c.place(Ok(stack_plan(10, 11, world))).unwrap();
    let frames = c.propose("alone", 11, vec![vec![10]], 64, world, 5).unwrap();
    assert_eq!(frames.len(), 2);
    assert_eq!(count_call(&frames[..1], "move_cards"), 1);
    match &frames[1] {
        ClientMsg::Call { call: ClientCall::ProposeAction { recipe_id, root, bindings, .. }, .. } => {
            assert_eq!((*recipe_id, *root, bindings.clone()), (1, 11, vec![vec![10]]));
        }
        other => panic!("expected a proposal, got {other:?}"),
    }
    assert!(!c.is_dirty(10));
}

/// A client with a soul of its own and one loose card of that soul.
fn settled() -> TestClient {
    let world = pack_macro_zone_full(0, WORLD_LAYER, 0, 0);
    let mut c = logged_in(7);
    c.set_bundle(content());
    c.apply(card_frame_at(5000, 7, pack_macro_zone_full(0, 0, 0, 0), 0xFFFF));
    c.apply(card_frame_at(6000, 5000, world, 3));
    let inv = pack_macro_zone_full(6000, INVENTORY_LAYER, 0, 0);
    c.apply(card_frame_at(20, 6000, inv, 4));
    let _ = c.drain_outbound();
    c
}

#[test]
fn a_matched_root_is_queued_fired_and_answered() {
    let mut c = settled();
    // The clock follows the server: thirteen seconds, behind by three.
    c.apply(GateMsg::Time { server_micros: "13000000".to_string() });
    let judge = |f: &Frame| f.recipe == "alone" && f.root == 20;
    c.tick(2_000_000, &judge, &shown);
    assert_eq!(c.queued(), vec![(20, "alone".to_string(), true)], "one input fires at once");
    let frames = c.drain_outbound();
    assert_eq!(count_call(&frames, "propose_action"), 1);
    let cid = match frames.iter().find(|f| matches!(f, ClientMsg::Call { .. })) {
        Some(ClientMsg::Call { cid, .. }) => *cid,
        other => panic!("expected call, got {other:?}"),
    };
    c.apply(GateMsg::CallOk { cid, server_micros: String::new() });
    assert!(c.queued().is_empty());
    assert_eq!(c.drain_action_outcomes(), vec![("alone".to_string(), None)]);
    assert!(c.drain_action_outcomes().is_empty());
}

#[test]
fn a_rejected_proposal_is_an_outcome_with_its_reason() {
    let mut c = settled();
    c.apply(GateMsg::Time { server_micros: "13000000".to_string() });
    let judge = |f: &Frame| f.recipe == "alone" && f.root == 20;
    c.tick(2_000_000, &judge, &shown);
    let frames = c.drain_outbound();
    let cid = frames
        .iter()
        .find_map(|f| match f {
            ClientMsg::Call { cid, .. } => Some(*cid),
            _ => None,
        })
        .unwrap();
    c.apply(GateMsg::CallErr {
        cid,
        error: "no".to_string(),
        server_micros: String::new(),
    });
    assert_eq!(c.drain_action_outcomes(), vec![("alone".to_string(), Some("no".to_string()))]);
}

#[test]
fn matching_is_budgeted_to_once_a_second() {
    let mut c = settled();
    c.apply(GateMsg::Time { server_micros: "13000000".to_string() });
    c.tick(2_000_000, &nothing, &shown);
    // A changed root within the second waits.
    let inv = pack_macro_zone_full(6000, INVENTORY_LAYER, 0, 0);
    c.apply(card_frame(RowOp::Update, card_row(20, 6000, inv, 200)));
    let judge = |f: &Frame| f.recipe == "alone" && f.root == 20;
    c.tick(2_500_000, &judge, &shown);
    assert!(c.queued().is_empty());
    c.tick(3_000_000, &judge, &shown);
    assert_eq!(c.queued().len(), 1);
}

#[test]
fn the_filter_is_compared_with_the_full_search() {
    let c = settled();
    let judge = |f: &Frame| f.root == 20;
    let found = c.match_recipes(&judge, &shown, 6000, 20);
    assert_eq!(found.len(), 1);
    assert_eq!((found[0].recipe.as_str(), found[0].input_count), ("alone", 1));
    assert_eq!(c.match_recipes_unfiltered(&judge, &shown, 6000, 20).len(), 1);
    assert!(c.filter_is_sound(&judge, &shown, 6000, 20));
}

#[test]
fn souls_stand_on_world_tiles() {
    let c = settled();
    assert_eq!(c.soul_cell(6000), Some((0, 0)));
    assert_eq!(c.soul_cell(20), None);
    assert_eq!(c.soul_cell(99), None);
    assert_eq!(c.souls(), vec![6000]);
    assert!(c.zones().active_zones().len() > 1, "the soul's own anchor");
}

#[test]
fn tile_names_are_listed_once_each() {
    let mut c = client();
    c.set_clock_ms(1000);
    let zone = ZoneRow {
        valid_at: pack_valid_at(100, 1),
        zone_id: 1,
        macro_zone: 9,
        surface: WORLD_LAYER,
        chunk_q: 0,
        chunk_r: 0,
        packed_definition: 0,
        owner_id: 0,
        tiles: vec![
            TileSlot { def_id: 4, packed: 4, stock0: 0, stock1: 0 },
            TileSlot { def_id: 3, packed: 3, stock0: 0, stock1: 0 },
            TileSlot { def_id: 4, packed: 4, stock0: 0, stock1: 0 },
            TileSlot { def_id: 0, packed: 0, stock0: 0, stock1: 0 },
        ],
    };
    c.apply(GateMsg::Row { op: RowOp::Insert, row: RowData::Zone(zone) });
    assert!(c.zone_tile_names(9).is_empty());
    c.set_bundle(content());
    assert_eq!(c.zone_tile_names(9), vec!["log".to_string(), "human".to_string()]);
    assert!(c.zone_tile_names(8).is_empty());
}

#[test]
fn old_rows_are_swept_and_remembered_ones_kept() {
    let mut c = client();
    for t in [100u64, 200, 300] {
        c.apply(cards_row_frame(RowOp::Insert, 1, 7, t));
    }
    c.set_clock_ms(400);
    c.gc();
    assert_eq!(c.world().cards.version_count(), 1);
}

#[test]
fn taking_a_row_twice_discovers_once() {
    let mut c = settled();
    let world = pack_macro_zone_full(0, WORLD_LAYER, 0, 0);
    c.apply(card_frame_at(6000, 5000, world, 3));
    c.apply(card_frame_at(5000, 7, pack_macro_zone_full(0, 0, 0, 0), 0xFFFF));
    assert_eq!(c.souls(), vec![6000]);
    assert!(c.drain_outbound().iter().all(|f| !matches!(f, ClientMsg::Sub { .. })));
}

#[test]
fn a_held_root_matches_nothing() {
    let mut c = settled();
    let judge = |f: &Frame| f.root == 20;
    assert_eq!(c.match_recipes(&judge, &shown, 6000, 20).len(), 1);
    let inv = pack_macro_zone_full(6000, INVENTORY_LAYER, 0, 0);
    let mut row = card_row(20, 6000, inv, 200);
    row.packed_definition = 4;
    row.stock.claimed = true;
    c.apply(card_frame(RowOp::Update, row));
    assert!(c.match_recipes(&judge, &shown, 6000, 20).is_empty());
    assert!(c.match_recipes_unfiltered(&judge, &shown, 6000, 20).is_empty());
}

#[test]
fn ticking_moves_nothing() {
    let mut c = settled();
    c.apply(GateMsg::Time { server_micros: "13000000".to_string() });
    let before = c.world().cards.version_count();
    let judge = |f: &Frame| f.recipe == "alone";
    c.tick(2_000_000, &judge, &shown);
    assert_eq!(c.world().cards.version_count(), before);
    assert_eq!(c.souls(), vec![6000]);
}

#[test]
fn a_row_to_come_is_matched_when_it_comes_due() {
    let mut c = settled();
    c.apply(GateMsg::Time { server_micros: "13000000".to_string() });
    c.tick(1_500_000, &nothing, &shown);
    // A new card, stamped five seconds ahead of the client's clock.
    let inv = pack_macro_zone_full(6000, INVENTORY_LAYER, 0, 0);
    let due = c.clock_ms() + 5000;
    let mut row = card_row(30, 6000, inv, due);
    row.packed_definition = 4;
    c.apply(card_frame(RowOp::Insert, row));
    let judge = |f: &Frame| f.recipe == "alone" && f.root == 30;
    c.tick(4_000_000, &judge, &shown);
    assert!(c.queued().is_empty(), "not due yet");
    c.tick(8_000_000, &judge, &shown);
    assert_eq!(c.queued().len(), 1);
}

#[test]
fn calls_for_zones_that_were_left_are_retired() {
    let mut c = client();
    c.dispatch(nine_zones());
    let (region, _) = region_of_zone(pack_macro_zone_full(0, WORLD_LAYER, 2, 2));
    c.apply(region_row_frame(RowOp::Insert, region, u64::MAX, 0));
    assert_eq!(count_call(&c.zone_frames(), "request_zone"), 9);
    // Nothing answers, and the anchor goes elsewhere: the old requests are not retried.
    let far = Command::SetAnchor {
        name: "soul".to_string(),
        surface: WORLD_LAYER,
        owner: 0,
        q: 1604,
        r: 1604,
        radii: AnchorRadii { active: 1, hot: 0, warm: 0, cold: 0 },
    };
    c.dispatch(far);
    c.tick(60_000_000, &nothing, &shown);
    let _ = c.drain_outbound();
    c.tick(120_000_000, &nothing, &shown);
    let frames = c.drain_outbound();
    assert_eq!(count_call(&frames, "request_zone"), 0);
    assert!(count_call(&frames, "ensure_region") <= 1);
}

#[test]
fn each_recipe_matches_once_and_only_with_content() {
    let c = settled();
    let yes = |_: &Frame| true;
    let found = c.match_recipes(&yes, &shown, 6000, 20);
    let mut names: Vec<String> = found.iter().map(|m| m.recipe.clone()).collect();
    names.sort();
    names.dedup();
    assert_eq!(names.len(), found.len());
    assert!(client().match_recipes(&yes, &shown, 6000, 20).is_empty());
}
