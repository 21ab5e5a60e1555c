use resonantdust_client::client::Client;
use resonantdust_client::codec::FnCodec;
use resonantdust_client::content::{CardDef, Content};
use resonantdust_client::harness::{kit, mode, programme, roster, roster_of, Asked, Mode};
use resonantdust_client::moves::Placement;
use resonantdust_client::ordmap::OrdMap;
use resonantdust_client::rows::{pack_valid_at, CardRow, Micro, RowOp, Stock};
use resonantdust_client::scenarios::{
    both, each, held_by, mine, need, not, peers, run_combined, run_corpus_dim_chain, run_cut_tree,
    run_forge_as, run_jim_lock_test, run_magnetic, run_move_reject, run_move_step, run_move_to,
    run_stock_progress, run_triple_corpus, seed_soul, seen_at, theirs, there, Setting, HUMAN,
    PLAYER_SOULS,
};
use resonantdust_client::script::{
    Action, Check, Key, Measure, Owner, Place, Query, Recipe, Run, Seat, Spot, Step, Who,
};
use resonantdust_client::wire::{Command, GateMsg, RowData};
use resonantdust_client::zones::{AnchorRadii, INVENTORY_LAYER, WORLD_LAYER};

type Pack = fn(u32, u8, i16, i16) -> u64;
type Region = fn(u64) -> (u64, u8);
type Local = fn(i32) -> (i16, u8);
type Tile = fn(i16, u8) -> i32;
type TestClient = Client<FnCodec<Pack, Region, Local, Tile>>;

const STACK_DIR_UP: u8 = 1;
const PLACEMENT_BITS: u32 = 0xFF;

fn pack_macro_zone_full(owner: u32, surface: u8, q: i16, r: i16) -> u64 {
    ((owner as u64) << 32)
        | ((surface as u64) << 24)
        | ((q as u64 & 0xFFF) << 12)
        | (r as u64 & 0xFFF)
}

fn region_of_zone(zone: u64) -> (u64, u8) {
    let q = zone >> 12 & 0xFFF;
    let r = zone & 0xFFF;
    let region = (zone >> 24 << 24) | (q / 8) << 12 | (r / 8);
    (region, (r % 8 * 8 + q % 8) as u8)
}

/// Chunks of eight tiles.
fn zone_local(tile: i32) -> (i16, u8) {
    (tile.div_euclid(8) as i16, tile.rem_euclid(8) as u8)
}

fn world_tile(chunk: i16, local: u8) -> i32 {
    chunk as i32 * 8 + local as i32
}

fn client() -> TestClient {
    Client::new(
        FnCodec {
            pack: pack_macro_zone_full as Pack,
            region: region_of_zone as Region,
            local: zone_local as Local,
            tile: world_tile as Tile,
        },
        PLACEMENT_BITS,
    )
}

fn card_row(card_id: u32, owner_id: u32, macro_zone: u64, time_ms: u64) -> CardRow {
    CardRow {
        valid_at: pack_valid_at(time_ms, 1),
        card_id,
        macro_zone,
        surface: (macro_zone >> 24) as u8,
        chunk_q: (macro_zone >> 12 & 0xFFF) as i16,
        chunk_r: (macro_zone & 0xFFF) as i16,
        micro_location: 0,
        micro: Micro::Loose { local_q: 0, local_r: 0 },
        owner_id,
        packed_definition: 0,
        is_soul: false,
        flags: 0,
        flags_bk: 0,
        pos_need: false,
        pos_held: false,
        dead: false,
        stock: Stock { word: 0, s0: 0, s1: 0, claimed: false },
    }
}


const STACK_DIR_DOWN: u8 = 2;

fn setting() -> Setting {
    Setting {
        up: STACK_DIR_UP,
        down: STACK_DIR_DOWN,
        zone: pack_macro_zone_full(0, WORLD_LAYER, 3, 3),
    }
}

fn put(c: &mut TestClient, row: CardRow) {
    c.apply(GateMsg::Row { op: RowOp::Insert, row: RowData::Card(row) });
}

/// A client of a player, with a player soul, a world soul and two corpus.
fn player(id: u32, base: u32) -> TestClient {
    let mut c = client();
    c.dispatch(Command::Login { name: "ann".to_string() });
    c.set_clock_ms(1000);
    c.apply(GateMsg::Row {
        op: RowOp::Insert,
        row: RowData::Player { name: Some("ann".to_string()), player_id: Some(id) },
    });
    let def = |name: &str, packed: u16| CardDef {
        name: name.to_string(),
        packed,
        inventory: false,
        radii: AnchorRadii::default(),
    };
    c.set_bundle(Content::new(vec![def("corpus", 5), def("human", 6)], vec![]).unwrap());
    let mut psoul = card_row(base, id, 0, 100);
    psoul.packed_definition = 0xFFFF;
    put(&mut c, psoul);
    let mut human = card_row(base + 1, base, pack_macro_zone_full(0, WORLD_LAYER, 0, 0), 100);
    human.packed_definition = 6;
    put(&mut c, human);
    let inv = pack_macro_zone_full(base + 1, INVENTORY_LAYER, 0, 0);
    for n in [2, 3] {
        let mut corpus = card_row(base + n, base + 1, inv, 100);
        corpus.packed_definition = 5;
        put(&mut c, corpus);
    }
    c
}

/// Which player owns which card.
fn owners(ids: &[(u32, u32)]) -> OrdMap<u32> {
    let mut m = OrdMap::new();
    for (card, player) in ids {
        m.insert(*card as u64, *player);
    }
    m
}

fn player_owners(id: u32, base: u32) -> OrdMap<u32> {
    owners(&[(base, id), (base + 1, id), (base + 2, id), (base + 3, id)])
}

type Log = Vec<(String, Option<String>)>;

#[test]
fn a_script_moves_on_step_by_step() {
    let c = player(7, 50);
    let own = player_owners(7, 50);
    let log: Log = vec![];
    let seats = vec![Seat { client: &c, owners: &own, log: &log, errors: 0 }];
    let script = vec![
        Step::Pump(500),
        need(0, Check::Finds(Query::Owned(Key::Corpus, true), 2)),
        Step::Keep(0, Query::Owned(Key::Corpus, true), 4),
        Step::Put(0, mine(4, 1), Spot::Onto(mine(4, 0), STACK_DIR_UP)),
        Step::Forget,
    ];
    let mut run = Run::new();
    assert_eq!(run.turn(&script, &seats, true), Action::Pump(500));
    assert_eq!(run.turn(&script, &seats, true), Action::Go);
    assert_eq!(run.turn(&script, &seats, true), Action::Go);
    assert_eq!(run.kept(0, 4), Some(52));
    assert_eq!(
        run.turn(&script, &seats, true),
        Action::Put { seat: 0, card_id: 53, at: Placement::Stack { parent_id: 52, direction: STACK_DIR_UP } }
    );
    assert_eq!(run.turn(&script, &seats, true), Action::Go);
    assert_eq!(run.turn(&script, &seats, true), Action::Forget);
    assert_eq!(run.turn(&script, &seats, true), Action::Passed);
    assert_eq!(run.turn(&script, &seats, true), Action::Passed);
    // The registers outlive a script.
    run.restart();
    assert_eq!(run.turn(&vec![], &seats, true), Action::Passed);
    assert_eq!((run.kept(0, 4), run.kept(0, 5)), (Some(52), None));
}

#[test]
fn a_refused_move_fails_or_is_what_was_wanted() {
    let c = player(7, 50);
    let own = player_owners(7, 50);
    let log: Log = vec![];
    let seats = vec![Seat { client: &c, owners: &own, log: &log, errors: 0 }];
    let keep = || Step::Keep(0, Query::Owned(Key::Corpus, true), 4);
    let spot = Spot::Cell(WORLD_LAYER, Place::Zone(9), 1, 2);
    let script = vec![keep(), Step::Put(0, mine(4, 0), spot)];
    let mut run = Run::new();
    run.turn(&script, &seats, true);
    assert_eq!(
        run.turn(&script, &seats, true),
        Action::Put { seat: 0, card_id: 52, at: Placement::Loose { surface: WORLD_LAYER, macro_zone: 9, q: 1, r: 2, x: 0, y: 0 } }
    );
    assert_eq!(run.turn(&script, &seats, false), Action::Failed(1));

    let script = vec![keep(), Step::Refused(0, mine(4, 0), spot)];
    let mut run = Run::new();
    run.turn(&script, &seats, true);
    run.turn(&script, &seats, true);
    assert_eq!(run.turn(&script, &seats, false), Action::Go);
    assert_eq!(run.turn(&script, &seats, true), Action::Passed);

    let script = vec![keep(), Step::Coax(0, mine(4, 0), spot, 1, 300)];
    let mut run = Run::new();
    run.turn(&script, &seats, true);
    assert!(matches!(run.turn(&script, &seats, true), Action::Put { .. }));
    assert_eq!(run.turn(&script, &seats, false), Action::Pump(300));
    assert!(matches!(run.turn(&script, &seats, true), Action::Put { .. }));
    assert_eq!(run.turn(&script, &seats, false), Action::Failed(1));
}

#[test]
fn waits_end_at_their_limit() {
    let c = player(7, 50);
    let own = player_owners(7, 50);
    let log: Log = vec![("pair".to_string(), Some("no".to_string()))];
    let seats = vec![Seat { client: &c, owners: &own, log: &log, errors: 0 }];
    let script = vec![Step::Poll(2, 500, seen_at(0, Check::AnyQueued))];
    let mut run = Run::new();
    assert_eq!(run.turn(&script, &seats, true), Action::Pump(500));
    assert_eq!(run.turn(&script, &seats, true), Action::Pump(500));
    assert_eq!(run.turn(&script, &seats, true), Action::Failed(0));
    // An await looks first, a poll waits first.
    let at_once = vec![Step::Await(0, 500, seen_at(0, not(Check::AnyQueued)))];
    assert_eq!(Run::new().turn(&at_once, &seats, true), Action::Go);
    let guarded = vec![Step::Guard(9, 500, Check::AnyRejected, not(Check::AnyQueued))];
    let mut run = Run::new();
    assert_eq!(run.turn(&guarded, &seats, true), Action::Pump(500));
    assert_eq!(run.turn(&guarded, &seats, true), Action::Failed(0));
}

#[test]
fn steps_fail_where_something_is_missing() {
    let c = player(7, 50);
    let own = player_owners(7, 50);
    let log: Log = vec![];
    let seats = vec![Seat { client: &c, owners: &own, log: &log, errors: 0 }];
    let fails = |step: Step| Run::new().turn(&vec![step], &seats, true) == Action::Failed(0);
    assert!(fails(Step::Put(0, mine(9, 0), Spot::Onto(mine(9, 0), 1))));
    assert!(fails(Step::Keep(3, Query::Souls, 0)));
    assert!(fails(Step::Mark(0, Measure::MicroOf(mine(9, 0)), 0)));
    assert!(fails(Step::Locate(0, mine(9, 0), 0)));
    assert!(fails(Step::Walk(0, mine(9, 0), 0, 1, false)));
    assert!(fails(Step::Sound(0, mine(9, 0), mine(9, 0))));
    assert!(fails(need(0, Check::Known(mine(9, 0)))));
    assert!(fails(Step::Reply(1)));
}

#[test]
fn checks_look_at_every_client() {
    let (a, b) = (player(7, 50), player(8, 60));
    let (own_a, own_b) = (player_owners(7, 50), player_owners(8, 60));
    let log: Log = vec![
        ("corpus_dim".to_string(), None),
        ("corpus_dim".to_string(), Some("late".to_string())),
    ];
    let quiet: Log = vec![];
    let seats = vec![
        Seat { client: &a, owners: &own_a, log: &log, errors: 0 },
        Seat { client: &b, owners: &own_b, log: &quiet, errors: 2 },
    ];
    let mut run = Run::new();
    let fill = vec![
        Step::Keep(0, Query::Souls, 0),
        Step::Keep(1, Query::Souls, 0),
        Step::Mark(0, Measure::CountOf(Key::Corpus, false), 3),
        Step::Mark(0, Measure::ZoneOf(mine(0, 0)), 1),
        Step::Locate(0, mine(0, 0), 0),
    ];
    for _ in 0..5 {
        assert_eq!(run.turn(&fill, &seats, true), Action::Go);
    }
    let mut holds = |check: Check| {
        run.restart();
        run.turn(&vec![Step::Need(check)], &seats, true) == Action::Go
    };
    assert!(holds(each(Check::Finds(Query::Owned(Key::Corpus, true), 2))));
    assert!(!holds(each(Check::Finds(Query::Owned(Key::Corpus, true), 3))));
    assert!(holds(each(peers(not(Check::Same(mine(0, 0), theirs(0, 0)))))));
    assert!(holds(each(peers(not(Check::Known(theirs(0, 0)))))));
    assert!(holds(seen_at(0, peers(there(Check::IsSoul(mine(0, 0)))))));
    assert!(holds(seen_at(0, Check::Accepted(Recipe::CorpusDim))));
    assert!(holds(seen_at(0, both(Check::Ended(Recipe::CorpusDim), Check::Rejected(Recipe::CorpusDim)))));
    assert!(!holds(seen_at(1, Check::AnyOutcome)));
    assert!(holds(seen_at(1, Check::AnyError)) && !holds(seen_at(0, Check::AnyError)));
    assert!(holds(seen_at(0, Check::InZone(mine(0, 0), Place::Marked(Who::At(0), 1)))));
    assert!(!holds(seen_at(1, Check::Known(held_by(0, 0, 0)))));
    assert!(!holds(seen_at(0, Check::More(Key::Corpus, false, 3))));
    assert!(holds(seen_at(0, Check::Occupied(Place::Inventory(mine(0, 0))))));
    assert!(holds(seen_at(0, peers(not(Check::Occupied(Place::Inventory(theirs(0, 0))))))));
    assert!(holds(seen_at(0, Check::AtCell(mine(0, 0), 0, 0))));
    assert!(!holds(seen_at(0, Check::AtCell(mine(0, 0), 0, 1))));
    assert!(holds(seen_at(0, Check::Defined(Key::Corpus))));
    assert!(!holds(seen_at(0, Check::Defined(Key::Axe))));
    assert!(holds(each(Check::Loose(mine(0, 0)))) && holds(each(Check::Alive(mine(0, 0)))));
    assert!(!holds(each(Check::WatchedByAll(Place::Zone(9)))));
    assert!(!holds(each(peers(Check::SeesPeers(Key::Corpus)))));
}

#[test]
fn stacks_and_stocks_are_read() {
    let mut c = player(7, 50);
    let inv = pack_macro_zone_full(51, INVENTORY_LAYER, 0, 0);
    let mut moved = card_row(53, 51, inv, 200);
    moved.packed_definition = 5;
    moved.micro = Micro::Stacked { root: 52, branch: STACK_DIR_UP, index: 0 };
    moved.micro_location = 52;
    moved.pos_held = true;
    moved.stock = Stock { word: 3, s0: 3, s1: 0, claimed: true };
    put(&mut c, moved);
    let mut third = card_row(54, 51, inv, 200);
    third.packed_definition = 5;
    third.dead = true;
    third.micro = Micro::Stacked { root: 52, branch: STACK_DIR_UP, index: 1 };
    put(&mut c, third);
    let own = player_owners(7, 50);
    let log: Log = vec![];
    let seats = vec![Seat { client: &c, owners: &own, log: &log, errors: 0 }];
    let mut run = Run::new();
    let fill = vec![Step::Keep(0, Query::Owned(Key::Corpus, false), 4), Step::Mark(0, Measure::MicroOf(mine(4, 1)), 2)];
    run.turn(&fill, &seats, true);
    run.turn(&fill, &seats, true);
    let mut holds = |check: Check| {
        run.restart();
        run.turn(&vec![need(0, check)], &seats, true) == Action::Go
    };
    assert!(holds(Check::StackedOn(mine(4, 1), mine(4, 0))));
    assert!(holds(Check::StackedAt(mine(4, 1), mine(4, 0), STACK_DIR_UP, 0)));
    assert!(!holds(Check::StackedAt(mine(4, 1), mine(4, 0), STACK_DIR_DOWN, 0)));
    assert!(holds(Check::StackedAs(mine(4, 1), mine(4, 0), 0)));
    assert!(!holds(Check::StackedOn(mine(4, 0), mine(4, 1))));
    assert!(holds(Check::PosHeld(mine(4, 1))) && holds(Check::SlotHeld(mine(4, 1))));
    assert!(holds(Check::Stock(mine(4, 1), 3)) && holds(Check::StockFrom(mine(4, 1), 2)));
    assert!(holds(Check::MicroIs(mine(4, 1), Who::Me, 2)));
    assert!(!holds(Check::MicroIs(mine(4, 0), Who::Me, 2)));
    assert!(!holds(Check::AllDead(4)) && !holds(Check::Dead(mine(4, 0))));
    assert!(!holds(Check::Follows(mine(4, 0), mine(4, 1))));
    assert!(!holds(Check::Finds(Query::Owned(Key::Corpus, false), 3)), "a dead card is not owned");
}

#[test]
fn characters_are_seeded_from_the_soul_down() {
    let c = player(7, 50);
    let fresh = client();
    let loadout = vec![Key::Corpus, Key::Axe];
    let script = seed_soul(&c, 0, Key::Human, &loadout, None);
    // Known player soul: the world soul, two cards, and a pause.
    assert_eq!(script.len(), 5 + 2 + 1);
    let script = seed_soul(&fresh, 0, Key::Human, &loadout, Some((20, 22)));
    assert_eq!(script.len(), 2 + 5 + 2 + 1);
    let zone = pack_macro_zone_full(0, WORLD_LAYER, 2, 2);
    assert!(matches!(
        script[0],
        Step::Create(0, Owner::Player, Key::PlayerSoul, 0, Place::Zone(0), 0, 0)
    ));
    assert!(matches!(
        script[4],
        Step::Create(0, Owner::Of(_), Key::Human, WORLD_LAYER, Place::Zone(z), 4, 6) if z == zone
    ));
    assert!(matches!(
        script[7],
        Step::Create(0, Owner::Of(_), Key::Corpus, INVENTORY_LAYER, Place::Zone(0), 0, 0)
    ));
    assert!(matches!(script[9], Step::Pump(2000)));
    // Run it as far as the server's first answer.
    let own = player_owners(7, 50);
    let log: Log = vec![];
    let seats = vec![Seat { client: &c, owners: &own, log: &log, errors: 0 }];
    let mut run = Run::new();
    let script = seed_soul(&c, 0, Key::Human, &loadout, None);
    run.turn(&script, &seats, true);
    run.turn(&script, &seats, true);
    assert_eq!(
        run.turn(&script, &seats, true),
        Action::Create {
            seat: 0,
            owner: 50,
            key: Key::Human,
            surface: WORLD_LAYER,
            macro_zone: 0,
            q: 0,
            r: 0
        }
    );
    assert_eq!(run.turn(&script, &seats, true), Action::Pump(20));
    assert_eq!(run.kept(0, PLAYER_SOULS), Some(50));
    assert_eq!(run.kept(0, HUMAN), None);
}

#[test]
fn the_scenarios_have_their_steps() {
    let set = setting();
    assert_eq!(run_stock_progress(0).len(), 10);
    assert_eq!(run_forge_as(0).len(), 10);
    assert_eq!(run_corpus_dim_chain(0, set.up).len(), 14 + 10 + 8);
    assert_eq!(run_magnetic(0, set).len(), 9);
    assert_eq!(run_cut_tree(0, set, (3, 2)).len(), 17 + 10);
    assert_eq!(run_triple_corpus(1, set.up).len(), 16 + 9);
    assert_eq!(run_move_step(0).len(), 11);
    assert_eq!(run_move_to(0, 3).len(), 7);
    assert_eq!(run_move_reject(0).len(), 7);
    assert_eq!(run_combined(set).len(), 4 + 6 + 6 + 10 + 13 + 6 + 7 + 15 + 11);
    assert_eq!(run_jim_lock_test(2, set.up).len(), 7 + 18 + 20 + 6 + 10 + 7);
    let script = run_triple_corpus(1, set.up);
    assert!(matches!(script[0], Step::Pump(3000)));
    assert!(matches!(script[15], Step::Sound(1, _, _)));
    assert!(matches!(script[16], Step::Poll(24, 500, _)));
}

#[test]
fn names_come_from_a_list_or_are_our_own() {
    assert_eq!(roster(None), vec!["alice", "bob"]);
    assert_eq!(roster(Some(" alice , ,jim\t".to_string())), vec!["alice", "jim"]);
    assert_eq!(roster(Some(" , ".to_string())), vec!["alice", "bob"]);
    assert_eq!(roster_of(vec!["x".to_string(), String::new()]), vec!["x"]);
}

#[test]
fn kits_and_places_depend_on_the_name() {
    let (cards, at) = kit(&"alice".to_string(), 1);
    assert_eq!(cards, vec![Key::TestDust, Key::Corpus, Key::Corpus, Key::Corpus, Key::Axe]);
    assert_eq!(at, 22);
    let (cards, at) = kit(&"jim".to_string(), 2);
    assert_eq!((cards.len(), cards[0], at), (7, Key::Dust, 56));
    assert_eq!(Key::TestDust.name(), "test_dust");
    assert_eq!(Recipe::CorpusBTop.name(), "corpus_b_top");
}

#[test]
fn modes_are_tried_in_order() {
    let none = Asked {
        cut_tree: false,
        magnetic: false,
        forge: false,
        movement: false,
        individual: false,
        skip_move_sync: false,
    };
    let two = vec!["alice".to_string(), "bob".to_string()];
    let jim = vec!["alice".to_string(), "jim".to_string()];
    assert_eq!(mode(none, &two), Mode::Combined);
    assert_eq!(mode(none, &vec!["alice".to_string()]), Mode::TooFew);
    assert_eq!(mode(none, &jim), Mode::Locks(1));
    assert_eq!(mode(Asked { individual: true, ..none }, &two), Mode::Individual);
    assert_eq!(mode(Asked { magnetic: true, movement: true, ..none }, &jim), Mode::Magnetic);
    assert_eq!(mode(Asked { cut_tree: true, magnetic: true, ..none }, &jim), Mode::CutTree);
    assert_eq!(mode(Asked { forge: true, ..none }, &two), Mode::Forge);
}

#[test]
fn programmes_hold_their_parts() {
    let set = setting();
    let parts = programme(Mode::Individual, 2, set, false);
    let alone: Vec<Option<usize>> = parts.iter().map(|p| p.alone).collect();
    assert_eq!(alone, vec![None, None, Some(0), Some(0), Some(1), Some(0)]);
    assert_eq!(programme(Mode::Individual, 2, set, true).len(), 5);
    assert_eq!(programme(Mode::Individual, 1, set, false).len(), 3);
    assert_eq!(programme(Mode::Movement, 2, set, false).len(), 3);
    assert!(programme(Mode::TooFew, 1, set, false).is_empty());
    assert_eq!(programme(Mode::Locks(1), 2, set, false)[0].alone, None);
    for m in [Mode::CutTree, Mode::Magnetic, Mode::Forge] {
        assert_eq!(programme(m, 2, set, false)[0].alone, Some(0));
    }
    assert_eq!(programme(Mode::Combined, 2, set, false)[0].steps.len(), run_combined(set).len());
}

#[test]
fn placements_flatten_to_one_shape() {
    let a = Placement::Stack { parent_id: 5, direction: 2 }.args();
    assert_eq!((a.kind, a.parent_id, a.direction, a.xy), (0, 5, 2, 0));
    let b = Placement::Loose { surface: 64, macro_zone: 9, q: 1, r: 2, x: -1, y: 3 }.args();
    assert_eq!((b.kind, b.surface, b.macro_zone, b.q, b.r, b.xy), (1, 64, 9, 1, 2, 0xFFFF_0003));
}
