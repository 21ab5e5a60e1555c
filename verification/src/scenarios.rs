//! The scenarios: what each of them does, step by step.
//!
//! Every scenario is a script. The registers it fills are named below; a card in one of
//! them is [`mine`] at the client the step or check is about, [`held_by`] a certain
//! client, or [`theirs`] where a check looks at another client.
use vstd::prelude::*;

use crate::client::Client;
use crate::codec::Codec;
use crate::script::{Card, Check, Key, Measure, Owner, Place, Query, Recipe, Spot, Step, Who};
use crate::zones::{INVENTORY_LAYER, WORLD_LAYER};

verus! {

use crate::script::{is_run, law_passed_run_met_its_demands, RunState, Seat};

/// The surface of player souls, which is never shown.
pub const PLAYER_SOUL_SURFACE: u8 = 0;

/// The world soul a client was seeded with.
pub const HUMAN: usize = 0;

/// The player souls of a client.
pub const PLAYER_SOULS: usize = 1;

/// The souls of a client.
pub const SOULS: usize = 2;

/// What there was before.
pub const BEFORE: usize = 3;

pub const CORPUS: usize = 4;

pub const AXES: usize = 5;

pub const DUST: usize = 6;

pub const LOGS: usize = 7;

/// Cards that cap a stack.
pub const CAPS: usize = 8;

pub const DIMS: usize = 9;

pub const LOGS_BEFORE: usize = 10;

pub const TALLY: usize = 11;

pub const WIDGET: usize = 12;

pub const MAGNET: usize = 13;

/// A corpus that is loose at the end.
pub const LAST_CORPUS: usize = 14;

/// The zone of an inventory, as a number.
pub const INVENTORY: usize = 0;

/// The cell a card was put in first, as a number.
pub const PLACED: usize = 1;

/// The cell a card was moved to, as a number.
pub const MOVED: usize = 2;

/// How many there were, as a number.
pub const COUNT: usize = 3;

/// The cell a soul started from.
pub const START: usize = 0;

/// What the card codec and the map fix.
#[derive(Debug, Clone, Copy, PartialEq, Eq, Structural)]
pub struct Setting {
    /// The direction of the upper stack.
    pub up: u8,
    /// The direction of the lower stack.
    pub down: u8,
    /// The world zone that the first clients start in.
    pub zone: u64,
}

/// A card in a register of the client itself.
#[verifier::allow_in_spec]
pub fn mine(reg: usize, at: usize) -> (c: Card)
    returns
        (Card { who: Who::Me, reg, at }),
{
    Card { who: Who::Me, reg, at }
}

/// A card in a register of a certain client.
#[verifier::allow_in_spec]
pub fn held_by(seat: usize, reg: usize, at: usize) -> (c: Card)
    returns
        (Card { who: Who::At(seat), reg, at }),
{
    Card { who: Who::At(seat), reg, at }
}

/// A card in a register of the other client.
#[verifier::allow_in_spec]
pub fn theirs(reg: usize, at: usize) -> (c: Card)
    returns
        (Card { who: Who::Peer, reg, at }),
{
    Card { who: Who::Peer, reg, at }
}

/// The check does not hold.
#[verifier::allow_in_spec]
pub fn not(a: Check) -> (c: Check)
    returns
        Check::Not(Box::new(a)),
{
    Check::Not(Box::new(a))
}

/// Both checks hold.
#[verifier::allow_in_spec]
pub fn both(a: Check, b: Check) -> (c: Check)
    returns
        Check::Both(Box::new(a), Box::new(b)),
{
    Check::Both(Box::new(a), Box::new(b))
}

/// The check holds at a client.
#[verifier::allow_in_spec]
pub fn seen_at(seat: usize, a: Check) -> (c: Check)
    returns
        Check::At(seat, Box::new(a)),
{
    Check::At(seat, Box::new(a))
}

/// The check holds at every client.
#[verifier::allow_in_spec]
pub fn each(a: Check) -> (c: Check)
    returns
        Check::Each(Box::new(a)),
{
    Check::Each(Box::new(a))
}

/// The check holds, looking at every other client.
#[verifier::allow_in_spec]
pub fn peers(a: Check) -> (c: Check)
    returns
        Check::Peers(Box::new(a)),
{
    Check::Peers(Box::new(a))
}

/// The check holds at the other client, looking back.
#[verifier::allow_in_spec]
pub fn there(a: Check) -> (c: Check)
    returns
        Check::There(Box::new(a)),
{
    Check::There(Box::new(a))
}

/// A requirement at a client.
#[verifier::allow_in_spec]
pub fn need(seat: usize, a: Check) -> (s: Step)
    returns
        Step::Need(seen_at(seat, a)),
{
    Step::Need(seen_at(seat, a))
}

/// Wait up to five seconds for something at a client.
#[verifier::allow_in_spec]
pub fn soon(seat: usize, a: Check) -> (s: Step)
    returns
        Step::Await(250, 20, seen_at(seat, a)),
{
    Step::Await(250, 20, seen_at(seat, a))
}

/// A card created in the inventory of a soul.
#[verifier::allow_in_spec]
pub fn stock_up(seat: usize, soul: Card, key: Key) -> (s: Step)
    returns
        Step::Create(seat, Owner::Of(soul), key, INVENTORY_LAYER, Place::Zone(0), 0, 0),
{
    Step::Create(seat, Owner::Of(soul), key, INVENTORY_LAYER, Place::Zone(0), 0, 0)
}

/// A card stacked on another.
#[verifier::allow_in_spec]
pub fn stack(seat: usize, card: Card, base: Card, dir: u8) -> (s: Step)
    returns
        Step::Put(seat, card, Spot::Onto(base, dir)),
{
    Step::Put(seat, card, Spot::Onto(base, dir))
}

/// The cell at the origin of the inventory that was noted.
#[verifier::allow_in_spec]
pub fn inventory_cell() -> (s: Spot)
    returns
        Spot::Cell(INVENTORY_LAYER, Place::Marked(Who::Me, INVENTORY), 0, 0),
{
    Spot::Cell(INVENTORY_LAYER, Place::Marked(Who::Me, INVENTORY), 0, 0)
}

/// Create the player soul of a client, and wait until it is known.
pub open spec fn seed_player_soul_script(seat: usize) -> Seq<Step> {
    seq![
        Step::Create(
            seat,
            Owner::Player,
            Key::PlayerSoul,
            PLAYER_SOUL_SURFACE,
            Place::Zone(0),
            0,
            0,
        ),
        soon(seat, Check::Finds(Query::PlayerSouls, 1)),
    ]
}

/// Create the player soul of a client, and wait until it is known.
pub fn seed_player_soul(seat: usize) -> (out: Vec<Step>)
    ensures
        out@ == seed_player_soul_script(seat),
{
    vec![
        Step::Create(
            seat,
            Owner::Player,
            Key::PlayerSoul,
            PLAYER_SOUL_SURFACE,
            Place::Zone(0),
            0,
            0,
        ),
        soon(seat, Check::Finds(Query::PlayerSouls, 1)),
    ]
}

/// Create a world soul under the player soul of a client, and keep it once it is known.
pub open spec fn seed_world_soul_script(seat: usize, soul: Key, zone: u64, q: u8, r: u8) -> Seq<Step> {
    seq![
        Step::Keep(seat, Query::PlayerSouls, PLAYER_SOULS),
        Step::Keep(seat, Query::Souls, BEFORE),
        Step::Create(
            seat,
            Owner::Of(mine(PLAYER_SOULS, 0)),
            soul,
            WORLD_LAYER,
            Place::Zone(zone),
            q,
            r,
        ),
        soon(seat, Check::Finds(Query::FreshSouls(BEFORE), 1)),
        Step::Keep(seat, Query::FreshSouls(BEFORE), HUMAN),
    ]
}

/// Create a world soul under the player soul of a client, and keep it once it is known.
pub fn seed_world_soul(seat: usize, soul: Key, zone: u64, q: u8, r: u8) -> (out: Vec<Step>)
    ensures
        out@ == seed_world_soul_script(seat, soul, zone, q, r),
{
    vec![
        Step::Keep(seat, Query::PlayerSouls, PLAYER_SOULS),
        Step::Keep(seat, Query::Souls, BEFORE),
        Step::Create(
            seat,
            Owner::Of(mine(PLAYER_SOULS, 0)),
            soul,
            WORLD_LAYER,
            Place::Zone(zone),
            q,
            r,
        ),
        soon(seat, Check::Finds(Query::FreshSouls(BEFORE), 1)),
        Step::Keep(seat, Query::FreshSouls(BEFORE), HUMAN),
    ]
}

/// Create each card of a loadout in the inventory of the seeded soul.
pub open spec fn loadout_script(seat: usize, loadout: Seq<Key>) -> Seq<Step> {
    loadout.map_values(|key: Key| stock_up(seat, mine(HUMAN, 0), key))
}

/// Seed a character: its player soul, if the client has none, a world soul, and the
/// cards of a loadout.
pub open spec fn seed_script(
    has_player_soul: bool,
    seat: usize,
    soul: Key,
    loadout: Seq<Key>,
    cell: (u64, u8, u8),
) -> Seq<Step> {
    let first = if has_player_soul {
        Seq::empty()
    } else {
        seed_player_soul_script(seat)
    };
    first + seed_world_soul_script(seat, soul, cell.0, cell.1, cell.2) + loadout_script(
        seat,
        loadout,
    ) + seq![Step::Pump(2000)]
}

/// Seed a character for a client: its player soul, if it has none, a world soul at a
/// world tile, or at the origin of zone 0, and the cards of a loadout in the inventory of
/// that soul.
pub fn seed_soul<C: Codec>(
    client: &Client<C>,
    seat: usize,
    soul: Key,
    loadout: &Vec<Key>,
    at: Option<(i32, i32)>,
) -> (out: Vec<Step>)
    requires
        client.wf(),
    ensures
        out@ == seed_script(
            !(client@.realm.player_souls =~= Set::empty()),
            seat,
            soul,
            loadout@,
            match at {
                Some((q, r)) => client@.realm.zones.cell_at(0, WORLD_LAYER, q, r),
                None => (0, 0, 0),
            },
        ),
{
    let known = client.player_souls();
    proof {
        if known@.len() == 0 {
            assert(client@.realm.player_souls =~= Set::empty());
        } else {
            assert(known@.contains(known@[0]));
            assert(client@.realm.player_souls.contains(known@[0] as u64));
        }
    }
    let mut out: Vec<Step> = if known.len() > 0 {
        Vec::new()
    } else {
        seed_player_soul(seat)
    };
    let cell: (u64, u8, u8) = match at {
        Some((q, r)) => client.zones().locate(0, WORLD_LAYER, q, r),
        None => (0, 0, 0),
    };
    let mut next = seed_world_soul(seat, soul, cell.0, cell.1, cell.2);
    out.append(&mut next);
    let ghost head = out@;
    let n: usize = loadout.len();
    let mut i: usize = 0;
    assert(head + loadout_script(seat, loadout@).take(0) =~= head);
    while i < n
        invariant
            n == loadout@.len(),
            i <= n,
            out@ == head + loadout_script(seat, loadout@).take(i as int),
        decreases n - i,
    {
        out.push(stock_up(seat, mine(HUMAN, 0), loadout[i]));
        assert(out@ =~= head + loadout_script(seat, loadout@).take(i + 1));
        i = i + 1;
    }
    assert(loadout_script(seat, loadout@).take(n as int) =~= loadout_script(seat, loadout@));
    out.push(Step::Pump(2000));
    assert(out@ =~= head + loadout_script(seat, loadout@) + seq![Step::Pump(2000)]);
    out
}

/// A tally starts at its default stock of one and is primed up to three.
pub open spec fn run_stock_progress_script(seat: usize) -> Seq<Step> {
    seq![
        Step::Pump(500),
        need(seat, Check::Defined(Key::Tally)),
        need(seat, Check::Finds(Query::Souls, 1)),
        Step::Keep(seat, Query::Souls, SOULS),
        stock_up(seat, mine(SOULS, 0), Key::Tally),
        soon(seat, Check::Finds(Query::Owned(Key::Tally, true), 1)),
        Step::Keep(seat, Query::Owned(Key::Tally, true), TALLY),
        need(seat, Check::Stock(mine(TALLY, 0), 1)),
        Step::Poll(30, 500, seen_at(seat, Check::StockFrom(mine(TALLY, 0), 3))),
        need(seat, Check::Stock(mine(TALLY, 0), 3)),
    ]
}

/// A tally starts at its default stock of one and is primed up to three.
pub fn run_stock_progress(seat: usize) -> (out: Vec<Step>)
    ensures
        out@ == run_stock_progress_script(seat),
{
    vec![
        Step::Pump(500),
        need(seat, Check::Defined(Key::Tally)),
        need(seat, Check::Finds(Query::Souls, 1)),
        Step::Keep(seat, Query::Souls, SOULS),
        stock_up(seat, mine(SOULS, 0), Key::Tally),
        soon(seat, Check::Finds(Query::Owned(Key::Tally, true), 1)),
        Step::Keep(seat, Query::Owned(Key::Tally, true), TALLY),
        need(seat, Check::Stock(mine(TALLY, 0), 1)),
        Step::Poll(30, 500, seen_at(seat, Check::StockFrom(mine(TALLY, 0), 3))),
        need(seat, Check::Stock(mine(TALLY, 0), 3)),
    ]
}

/// An anvil forges a widget whose stock is set to four as it is created.
pub open spec fn run_forge_as_script(seat: usize) -> Seq<Step> {
    seq![
        Step::Pump(500),
        need(seat, Check::Defined(Key::Anvil)),
        need(seat, Check::Defined(Key::Widget)),
        need(seat, Check::Finds(Query::Souls, 1)),
        Step::Keep(seat, Query::Souls, SOULS),
        stock_up(seat, mine(SOULS, 0), Key::Anvil),
        soon(seat, Check::Finds(Query::Owned(Key::Anvil, true), 1)),
        Step::Poll(30, 500, seen_at(seat, Check::Finds(Query::Owned(Key::Widget, true), 1))),
        Step::Keep(seat, Query::Owned(Key::Widget, true), WIDGET),
        need(seat, Check::Stock(mine(WIDGET, 0), 4)),
    ]
}

/// An anvil forges a widget whose stock is set to four as it is created.
pub fn run_forge_as(seat: usize) -> (out: Vec<Step>)
    ensures
        out@ == run_forge_as_script(seat),
{
    vec![
        Step::Pump(500),
        need(seat, Check::Defined(Key::Anvil)),
        need(seat, Check::Defined(Key::Widget)),
        need(seat, Check::Finds(Query::Souls, 1)),
        Step::Keep(seat, Query::Souls, SOULS),
        stock_up(seat, mine(SOULS, 0), Key::Anvil),
        soon(seat, Check::Finds(Query::Owned(Key::Anvil, true), 1)),
        Step::Poll(30, 500, seen_at(seat, Check::Finds(Query::Owned(Key::Widget, true), 1))),
        Step::Keep(seat, Query::Owned(Key::Widget, true), WIDGET),
        need(seat, Check::Stock(mine(WIDGET, 0), 4)),
    ]
}

/// Two fresh corpus, stacked, queue `corpus_b_top`.
pub open spec fn dim_chain_stack_script(seat: usize, up: u8) -> Seq<Step> {
    seq![
        Step::Pump(3000),
        need(seat, Check::Defined(Key::Corpus)),
        need(seat, Check::Defined(Key::CorpusDim)),
        need(seat, Check::Finds(Query::Souls, 1)),
        Step::Keep(seat, Query::Souls, SOULS),
        Step::Keep(seat, Query::Owned(Key::Corpus, true), BEFORE),
        stock_up(seat, mine(SOULS, 0), Key::Corpus),
        stock_up(seat, mine(SOULS, 0), Key::Corpus),
        soon(seat, Check::Finds(Query::Fresh(Key::Corpus, true, BEFORE), 2)),
        Step::Keep(seat, Query::Fresh(Key::Corpus, true, BEFORE), CORPUS),
        stack(seat, mine(CORPUS, 1), mine(CORPUS, 0), up),
        Step::Pump(3000),
        need(seat, Check::StackedOn(mine(CORPUS, 1), mine(CORPUS, 0))),
        need(seat, Check::Waiting(Recipe::CorpusBTop)),
    ]
}

/// Two fresh corpus, stacked, queue `corpus_b_top`.
pub fn dim_chain_stack(seat: usize, up: u8) -> (out: Vec<Step>)
    ensures
        out@ == dim_chain_stack_script(seat, up),
{
    vec![
        Step::Pump(3000),
        need(seat, Check::Defined(Key::Corpus)),
        need(seat, Check::Defined(Key::CorpusDim)),
        need(seat, Check::Finds(Query::Souls, 1)),
        Step::Keep(seat, Query::Souls, SOULS),
        Step::Keep(seat, Query::Owned(Key::Corpus, true), BEFORE),
        stock_up(seat, mine(SOULS, 0), Key::Corpus),
        stock_up(seat, mine(SOULS, 0), Key::Corpus),
        soon(seat, Check::Finds(Query::Fresh(Key::Corpus, true, BEFORE), 2)),
        Step::Keep(seat, Query::Fresh(Key::Corpus, true, BEFORE), CORPUS),
        stack(seat, mine(CORPUS, 1), mine(CORPUS, 0), up),
        Step::Pump(3000),
        need(seat, Check::StackedOn(mine(CORPUS, 1), mine(CORPUS, 0))),
        need(seat, Check::Waiting(Recipe::CorpusBTop)),
    ]
}

/// `corpus_b_top` fires: the root dies, the other is loose again, one dim corpus is made.
pub open spec fn dim_chain_first_script(seat: usize) -> Seq<Step> {
    seq![
        Step::Poll(24, 500, seen_at(seat, not(Check::Queued(Recipe::CorpusBTop)))),
        need(seat, Check::Accepted(Recipe::CorpusBTop)),
        Step::Forget,
        Step::Pump(14000),
        need(seat, Check::Dead(mine(CORPUS, 0))),
        need(seat, Check::Alive(mine(CORPUS, 1))),
        need(seat, Check::Loose(mine(CORPUS, 1))),
        Step::Keep(seat, Query::Owned(Key::CorpusDim, true), DIMS),
        need(seat, Check::Finds(Query::Owned(Key::CorpusDim, true), 1)),
        need(seat, not(Check::Finds(Query::Owned(Key::CorpusDim, true), 2))),
    ]
}

/// `corpus_b_top` fires: the root dies, the other is loose again, one dim corpus is made.
pub fn dim_chain_first(seat: usize) -> (out: Vec<Step>)
    ensures
        out@ == dim_chain_first_script(seat),
{
    vec![
        Step::Poll(24, 500, seen_at(seat, not(Check::Queued(Recipe::CorpusBTop)))),
        need(seat, Check::Accepted(Recipe::CorpusBTop)),
        Step::Forget,
        Step::Pump(14000),
        need(seat, Check::Dead(mine(CORPUS, 0))),
        need(seat, Check::Alive(mine(CORPUS, 1))),
        need(seat, Check::Loose(mine(CORPUS, 1))),
        Step::Keep(seat, Query::Owned(Key::CorpusDim, true), DIMS),
        need(seat, Check::Finds(Query::Owned(Key::CorpusDim, true), 1)),
        need(seat, not(Check::Finds(Query::Owned(Key::CorpusDim, true), 2))),
    ]
}

/// `corpus_dim` fires on the dim corpus alone: it dies, and a corpus is made.
pub open spec fn dim_chain_second_script(seat: usize) -> Seq<Step> {
    seq![
        Step::Pump(3000),
        Step::Poll(
            24,
            500,
            seen_at(
                seat,
                both(not(Check::Queued(Recipe::CorpusDim)), Check::Ended(Recipe::CorpusDim)),
            ),
        ),
        Step::Forget,
        Step::Keep(seat, Query::Owned(Key::Corpus, true), BEFORE),
        Step::Pump(34000),
        need(seat, Check::Dead(mine(DIMS, 0))),
        need(seat, Check::Finds(Query::Fresh(Key::Corpus, true, BEFORE), 1)),
        need(seat, not(Check::AnyError)),
    ]
}

/// `corpus_dim` fires on the dim corpus alone: it dies, and a corpus is made.
pub fn dim_chain_second(seat: usize) -> (out: Vec<Step>)
    ensures
        out@ == dim_chain_second_script(seat),
{
    vec![
        Step::Pump(3000),
        Step::Poll(
            24,
            500,
            seen_at(
                seat,
                both(not(Check::Queued(Recipe::CorpusDim)), Check::Ended(Recipe::CorpusDim)),
            ),
        ),
        Step::Forget,
        Step::Keep(seat, Query::Owned(Key::Corpus, true), BEFORE),
        Step::Pump(34000),
        need(seat, Check::Dead(mine(DIMS, 0))),
        need(seat, Check::Finds(Query::Fresh(Key::Corpus, true, BEFORE), 1)),
        need(seat, not(Check::AnyError)),
    ]
}

/// Two corpus make a dim corpus, and that one a corpus again.
pub open spec fn run_corpus_dim_chain_script(seat: usize, up: u8) -> Seq<Step> {
    dim_chain_stack_script(seat, up) + dim_chain_first_script(seat) + dim_chain_second_script(seat)
}

/// Two corpus make a dim corpus, and that one a corpus again.
pub fn run_corpus_dim_chain(seat: usize, up: u8) -> (out: Vec<Step>)
    ensures
        out@ == run_corpus_dim_chain_script(seat, up),
{
    let mut out = dim_chain_stack(seat, up);
    let mut next = dim_chain_first(seat);
    out.append(&mut next);
    let mut next = dim_chain_second(seat);
    out.append(&mut next);
    out
}

/// A magnet gathers what is next to it and is consumed.
pub open spec fn run_magnetic_script(seat: usize, set: Setting) -> Seq<Step> {
    seq![
        Step::Pump(3000),
        need(seat, Check::Defined(Key::Despair)),
        need(seat, Check::Finds(Query::PlayerSouls, 1)),
        Step::Keep(seat, Query::PlayerSouls, PLAYER_SOULS),
        Step::Create(
            seat,
            Owner::Of(mine(PLAYER_SOULS, 0)),
            Key::Despair,
            WORLD_LAYER,
            Place::Zone(set.zone),
            4,
            4,
        ),
        Step::Create(
            seat,
            Owner::Of(mine(PLAYER_SOULS, 0)),
            Key::Dread,
            WORLD_LAYER,
            Place::Zone(set.zone),
            5,
            4,
        ),
        soon(seat, Check::Finds(Query::Seen(Key::Despair), 1)),
        Step::Keep(seat, Query::Seen(Key::Despair), MAGNET),
        Step::Await(1000, 20, seen_at(seat, not(Check::Alive(mine(MAGNET, 0))))),
    ]
}

/// A magnet gathers what is next to it and is consumed.
pub fn run_magnetic(seat: usize, set: Setting) -> (out: Vec<Step>)
    ensures
        out@ == run_magnetic_script(seat, set),
{
    vec![
        Step::Pump(3000),
        need(seat, Check::Defined(Key::Despair)),
        need(seat, Check::Finds(Query::PlayerSouls, 1)),
        Step::Keep(seat, Query::PlayerSouls, PLAYER_SOULS),
        Step::Create(
            seat,
            Owner::Of(mine(PLAYER_SOULS, 0)),
            Key::Despair,
            WORLD_LAYER,
            Place::Zone(set.zone),
            4,
            4,
        ),
        Step::Create(
            seat,
            Owner::Of(mine(PLAYER_SOULS, 0)),
            Key::Dread,
            WORLD_LAYER,
            Place::Zone(set.zone),
            5,
            4,
        ),
        soon(seat, Check::Finds(Query::Seen(Key::Despair), 1)),
        Step::Keep(seat, Query::Seen(Key::Despair), MAGNET),
        Step::Await(1000, 20, seen_at(seat, not(Check::Alive(mine(MAGNET, 0))))),
    ]
}

/// An axe on the soul and a corpus on a tree queue `cut_tree`.
pub open spec fn cut_tree_queue_script(seat: usize, set: Setting, tile: (u8, u8)) -> Seq<Step> {
    seq![
        Step::Pump(2000),
        need(seat, Check::Defined(Key::Axe)),
        need(seat, Check::Defined(Key::Corpus)),
        need(seat, Check::Defined(Key::CorpusDim)),
        need(seat, Check::Defined(Key::Log)),
        need(seat, Check::Finds(Query::Souls, 1)),
        Step::Keep(seat, Query::Souls, SOULS),
        need(seat, Check::Finds(Query::Owned(Key::Axe, false), 1)),
        Step::Keep(seat, Query::Owned(Key::Axe, false), AXES),
        need(seat, Check::Finds(Query::Owned(Key::Corpus, true), 1)),
        Step::Keep(seat, Query::Owned(Key::Corpus, true), CORPUS),
        stack(seat, mine(AXES, 0), mine(SOULS, 0), set.up),
        Step::Pump(1000),
        need(seat, Check::StackedAt(mine(AXES, 0), mine(SOULS, 0), set.up, 0)),
        Step::Put(
            seat,
            mine(CORPUS, 0),
            Spot::Cell(WORLD_LAYER, Place::Zone(set.zone), tile.0, tile.1),
        ),
        Step::Pump(3000),
        need(seat, Check::Queued(Recipe::CutTree)),
    ]
}

/// An axe on the soul and a corpus on a tree queue `cut_tree`.
pub fn cut_tree_queue(seat: usize, set: Setting, tile: (u8, u8)) -> (out: Vec<Step>)
    ensures
        out@ == cut_tree_queue_script(seat, set, tile),
{
    vec![
        Step::Pump(2000),
        need(seat, Check::Defined(Key::Axe)),
        need(seat, Check::Defined(Key::Corpus)),
        need(seat, Check::Defined(Key::CorpusDim)),
        need(seat, Check::Defined(Key::Log)),
        need(seat, Check::Finds(Query::Souls, 1)),
        Step::Keep(seat, Query::Souls, SOULS),
        need(seat, Check::Finds(Query::Owned(Key::Axe, false), 1)),
        Step::Keep(seat, Query::Owned(Key::Axe, false), AXES),
        need(seat, Check::Finds(Query::Owned(Key::Corpus, true), 1)),
        Step::Keep(seat, Query::Owned(Key::Corpus, true), CORPUS),
        stack(seat, mine(AXES, 0), mine(SOULS, 0), set.up),
        Step::Pump(1000),
        need(seat, Check::StackedAt(mine(AXES, 0), mine(SOULS, 0), set.up, 0)),
        Step::Put(
            seat,
            mine(CORPUS, 0),
            Spot::Cell(WORLD_LAYER, Place::Zone(set.zone), tile.0, tile.1),
        ),
        Step::Pump(3000),
        need(seat, Check::Queued(Recipe::CutTree)),
    ]
}

/// `cut_tree` fires: the corpus dies, a dim corpus and a log are made.
pub open spec fn cut_tree_fire_script(seat: usize) -> Seq<Step> {
    seq![
        Step::Poll(24, 500, seen_at(seat, not(Check::Queued(Recipe::CutTree)))),
        need(seat, Check::Accepted(Recipe::CutTree)),
        Step::Forget,
        Step::Keep(seat, Query::Owned(Key::CorpusDim, false), BEFORE),
        Step::Keep(seat, Query::Owned(Key::Log, false), LOGS_BEFORE),
        Step::Pump(14000),
        need(seat, Check::Dead(mine(CORPUS, 0))),
        need(seat, Check::Finds(Query::Fresh(Key::CorpusDim, false, BEFORE), 1)),
        need(seat, Check::Finds(Query::Fresh(Key::Log, false, LOGS_BEFORE), 1)),
        need(seat, not(Check::AnyError)),
    ]
}

/// `cut_tree` fires: the corpus dies, a dim corpus and a log are made.
pub fn cut_tree_fire(seat: usize) -> (out: Vec<Step>)
    ensures
        out@ == cut_tree_fire_script(seat),
{
    vec![
        Step::Poll(24, 500, seen_at(seat, not(Check::Queued(Recipe::CutTree)))),
        need(seat, Check::Accepted(Recipe::CutTree)),
        Step::Forget,
        Step::Keep(seat, Query::Owned(Key::CorpusDim, false), BEFORE),
        Step::Keep(seat, Query::Owned(Key::Log, false), LOGS_BEFORE),
        Step::Pump(14000),
        need(seat, Check::Dead(mine(CORPUS, 0))),
        need(seat, Check::Finds(Query::Fresh(Key::CorpusDim, false, BEFORE), 1)),
        need(seat, Check::Finds(Query::Fresh(Key::Log, false, LOGS_BEFORE), 1)),
        need(seat, not(Check::AnyError)),
    ]
}

/// A corpus on a tree is cut into a dim corpus and a log.
pub open spec fn run_cut_tree_script(seat: usize, set: Setting, tile: (u8, u8)) -> Seq<Step> {
    cut_tree_queue_script(seat, set, tile) + cut_tree_fire_script(seat)
}

/// A corpus on a tree is cut into a dim corpus and a log.
pub fn run_cut_tree(seat: usize, set: Setting, tile: (u8, u8)) -> (out: Vec<Step>)
    ensures
        out@ == run_cut_tree_script(seat, set, tile),
{
    let mut out = cut_tree_queue(seat, set, tile);
    let mut next = cut_tree_fire(seat);
    out.append(&mut next);
    out
}

/// Three corpus on a dust queue `triple_corpus`, and nothing fires yet.
pub open spec fn triple_corpus_queue_script(seat: usize, up: u8) -> Seq<Step> {
    seq![
        Step::Pump(3000),
        need(seat, Check::Defined(Key::Corpus)),
        need(seat, Check::Defined(Key::Dust)),
        need(seat, Check::Finds(Query::Owned(Key::Dust, false), 1)),
        Step::Keep(seat, Query::Owned(Key::Dust, false), DUST),
        need(seat, Check::Finds(Query::Owned(Key::Corpus, true), 3)),
        Step::Keep(seat, Query::Owned(Key::Corpus, true), CORPUS),
        stack(seat, mine(CORPUS, 0), mine(DUST, 0), up),
        stack(seat, mine(CORPUS, 1), mine(DUST, 0), up),
        stack(seat, mine(CORPUS, 2), mine(DUST, 0), up),
        Step::Pump(3000),
        need(seat, Check::Waiting(Recipe::TripleCorpus)),
        need(seat, not(Check::AnyInFlight)),
        need(seat, Check::Finds(Query::Souls, 1)),
        Step::Keep(seat, Query::Souls, SOULS),
        Step::Sound(seat, mine(SOULS, 0), mine(DUST, 0)),
    ]
}

/// Three corpus on a dust queue `triple_corpus`, and nothing fires yet.
pub fn triple_corpus_queue(seat: usize, up: u8) -> (out: Vec<Step>)
    ensures
        out@ == triple_corpus_queue_script(seat, up),
{
    vec![
        Step::Pump(3000),
        need(seat, Check::Defined(Key::Corpus)),
        need(seat, Check::Defined(Key::Dust)),
        need(seat, Check::Finds(Query::Owned(Key::Dust, false), 1)),
        Step::Keep(seat, Query::Owned(Key::Dust, false), DUST),
        need(seat, Check::Finds(Query::Owned(Key::Corpus, true), 3)),
        Step::Keep(seat, Query::Owned(Key::Corpus, true), CORPUS),
        stack(seat, mine(CORPUS, 0), mine(DUST, 0), up),
        stack(seat, mine(CORPUS, 1), mine(DUST, 0), up),
        stack(seat, mine(CORPUS, 2), mine(DUST, 0), up),
        Step::Pump(3000),
        need(seat, Check::Waiting(Recipe::TripleCorpus)),
        need(seat, not(Check::AnyInFlight)),
        need(seat, Check::Finds(Query::Souls, 1)),
        Step::Keep(seat, Query::Souls, SOULS),
        Step::Sound(seat, mine(SOULS, 0), mine(DUST, 0)),
    ]
}

/// `triple_corpus` fires: the first corpus dies, the others and the dust live.
pub open spec fn triple_corpus_fire_script(seat: usize) -> Seq<Step> {
    seq![
        Step::Poll(24, 500, seen_at(seat, not(Check::AnyQueued))),
        need(seat, Check::Accepted(Recipe::TripleCorpus)),
        Step::Forget,
        Step::Pump(14000),
        need(seat, not(Check::Alive(mine(CORPUS, 0)))),
        need(seat, Check::Alive(mine(CORPUS, 1))),
        need(seat, Check::Alive(mine(CORPUS, 2))),
        need(seat, Check::Alive(mine(DUST, 0))),
        need(seat, not(Check::AnyError)),
    ]
}

/// `triple_corpus` fires: the first corpus dies, the others and the dust live.
pub fn triple_corpus_fire(seat: usize) -> (out: Vec<Step>)
    ensures
        out@ == triple_corpus_fire_script(seat),
{
    vec![
        Step::Poll(24, 500, seen_at(seat, not(Check::AnyQueued))),
        need(seat, Check::Accepted(Recipe::TripleCorpus)),
        Step::Forget,
        Step::Pump(14000),
        need(seat, not(Check::Alive(mine(CORPUS, 0)))),
        need(seat, Check::Alive(mine(CORPUS, 1))),
        need(seat, Check::Alive(mine(CORPUS, 2))),
        need(seat, Check::Alive(mine(DUST, 0))),
        need(seat, not(Check::AnyError)),
    ]
}

/// Three corpus on a dust use up the first of them.
pub open spec fn run_triple_corpus_script(seat: usize, up: u8) -> Seq<Step> {
    triple_corpus_queue_script(seat, up) + triple_corpus_fire_script(seat)
}

/// Three corpus on a dust use up the first of them.
pub fn run_triple_corpus(seat: usize, up: u8) -> (out: Vec<Step>)
    ensures
        out@ == run_triple_corpus_script(seat, up),
{
    let mut out = triple_corpus_queue(seat, up);
    let mut next = triple_corpus_fire(seat);
    out.append(&mut next);
    out
}

/// A soul sent one tile on stays until it arrives, and then is there.
pub open spec fn run_move_step_script(seat: usize) -> Seq<Step> {
    seq![
        Step::Pump(2000),
        need(seat, Check::Finds(Query::Souls, 1)),
        Step::Keep(seat, Query::Souls, SOULS),
        Step::Locate(seat, mine(SOULS, 0), START),
        Step::Walk(seat, mine(SOULS, 0), START, 1, false),
        Step::Reply(seat),
        Step::Pump(500),
        need(seat, Check::AtCell(mine(SOULS, 0), START, 0)),
        Step::Pump(4000),
        need(seat, Check::AtCell(mine(SOULS, 0), START, 1)),
        need(seat, not(Check::AnyError)),
    ]
}

/// A soul sent one tile on stays until it arrives, and then is there.
pub fn run_move_step(seat: usize) -> (out: Vec<Step>)
    ensures
        out@ == run_move_step_script(seat),
{
    vec![
        Step::Pump(2000),
        need(seat, Check::Finds(Query::Souls, 1)),
        Step::Keep(seat, Query::Souls, SOULS),
        Step::Locate(seat, mine(SOULS, 0), START),
        Step::Walk(seat, mine(SOULS, 0), START, 1, false),
        Step::Reply(seat),
        Step::Pump(500),
        need(seat, Check::AtCell(mine(SOULS, 0), START, 0)),
        Step::Pump(4000),
        need(seat, Check::AtCell(mine(SOULS, 0), START, 1)),
        need(seat, not(Check::AnyError)),
    ]
}

/// A soul walks several tiles, one after the other.
pub open spec fn run_move_to_script(seat: usize, dx: i32) -> Seq<Step> {
    seq![
        Step::Pump(2000),
        need(seat, Check::Finds(Query::Souls, 1)),
        Step::Keep(seat, Query::Souls, SOULS),
        Step::Locate(seat, mine(SOULS, 0), START),
        Step::Walk(seat, mine(SOULS, 0), START, dx, true),
        Step::Poll(40, 500, seen_at(seat, Check::AtCell(mine(SOULS, 0), START, dx))),
        need(seat, not(Check::AnyError)),
    ]
}

/// A soul walks several tiles, one after the other.
pub fn run_move_to(seat: usize, dx: i32) -> (out: Vec<Step>)
    ensures
        out@ == run_move_to_script(seat, dx),
{
    vec![
        Step::Pump(2000),
        need(seat, Check::Finds(Query::Souls, 1)),
        Step::Keep(seat, Query::Souls, SOULS),
        Step::Locate(seat, mine(SOULS, 0), START),
        Step::Walk(seat, mine(SOULS, 0), START, dx, true),
        Step::Poll(40, 500, seen_at(seat, Check::AtCell(mine(SOULS, 0), START, dx))),
        need(seat, not(Check::AnyError)),
    ]
}

/// A soul sent two tiles on in one step stays where it is.
pub open spec fn run_move_reject_script(seat: usize) -> Seq<Step> {
    seq![
        Step::Pump(1000),
        need(seat, Check::Finds(Query::Souls, 1)),
        Step::Keep(seat, Query::Souls, SOULS),
        Step::Locate(seat, mine(SOULS, 0), START),
        Step::Walk(seat, mine(SOULS, 0), START, 2, false),
        Step::Pump(2000),
        need(seat, Check::AtCell(mine(SOULS, 0), START, 0)),
    ]
}

/// A soul sent two tiles on in one step stays where it is.
pub fn run_move_reject(seat: usize) -> (out: Vec<Step>)
    ensures
        out@ == run_move_reject_script(seat),
{
    vec![
        Step::Pump(1000),
        need(seat, Check::Finds(Query::Souls, 1)),
        Step::Keep(seat, Query::Souls, SOULS),
        Step::Locate(seat, mine(SOULS, 0), START),
        Step::Walk(seat, mine(SOULS, 0), START, 2, false),
        Step::Pump(2000),
        need(seat, Check::AtCell(mine(SOULS, 0), START, 0)),
    ]
}

/// Every client sees the world souls of the others, claims none of them, and sees none of
/// their inventories; all of them watch the zone they start in.
pub open spec fn cross_visibility_script(zone: u64) -> Seq<Step> {
    seq![
        Step::Need(each(peers(not(Check::Same(mine(HUMAN, 0), theirs(HUMAN, 0)))))),
        Step::Pump(4000),
        Step::Need(each(peers(Check::Known(theirs(HUMAN, 0))))),
        Step::Need(each(peers(not(Check::IsSoul(theirs(HUMAN, 0)))))),
        Step::Need(each(peers(not(Check::Occupied(Place::Inventory(theirs(HUMAN, 0))))))),
        Step::Pump(2000),
        Step::Need(each(Check::WatchedByAll(Place::Zone(zone)))),
    ]
}

/// Every client sees the world souls of the others, claims none of them, and sees none of
/// their inventories; all of them watch the zone they start in.
pub fn cross_visibility(zone: u64) -> (out: Vec<Step>)
    ensures
        out@ == cross_visibility_script(zone),
{
    vec![
        Step::Need(each(peers(not(Check::Same(mine(HUMAN, 0), theirs(HUMAN, 0)))))),
        Step::Pump(4000),
        Step::Need(each(peers(Check::Known(theirs(HUMAN, 0))))),
        Step::Need(each(peers(not(Check::IsSoul(theirs(HUMAN, 0)))))),
        Step::Need(each(peers(not(Check::Occupied(Place::Inventory(theirs(HUMAN, 0))))))),
        Step::Pump(2000),
        Step::Need(each(Check::WatchedByAll(Place::Zone(zone)))),
    ]
}

/// A card put into the shared zone shows at the other client, and so does its next move.
pub open spec fn move_sync_script(zone: u64) -> Seq<Step> {
    seq![
        need(0, Check::Defined(Key::Axe)),
        need(0, Check::Finds(Query::Seen(Key::Axe), 1)),
        Step::Keep(0, Query::Seen(Key::Axe), AXES),
        need(1, not(Check::Known(held_by(0, AXES, 0)))),
        Step::Put(0, mine(AXES, 0), Spot::Cell(WORLD_LAYER, Place::Zone(zone), 5, 5)),
        Step::Mark(0, Measure::MicroOf(mine(AXES, 0)), PLACED),
        Step::Poll(
            8,
            500,
            seen_at(
                1,
                both(
                    Check::InZone(held_by(0, AXES, 0), Place::Zone(zone)),
                    Check::MicroIs(held_by(0, AXES, 0), Who::At(0), PLACED),
                ),
            ),
        ),
        Step::Put(0, mine(AXES, 0), Spot::Cell(WORLD_LAYER, Place::Zone(zone), 7, 3)),
        Step::Mark(0, Measure::MicroOf(mine(AXES, 0)), MOVED),
        need(0, not(Check::MicroIs(mine(AXES, 0), Who::Me, PLACED))),
        Step::Poll(8, 500, seen_at(1, Check::MicroIs(held_by(0, AXES, 0), Who::At(0), MOVED))),
    ]
}

/// A card put into the shared zone shows at the other client, and so does its next move.
pub fn move_sync(zone: u64) -> (out: Vec<Step>)
    ensures
        out@ == move_sync_script(zone),
{
    vec![
        need(0, Check::Defined(Key::Axe)),
        need(0, Check::Finds(Query::Seen(Key::Axe), 1)),
        Step::Keep(0, Query::Seen(Key::Axe), AXES),
        need(1, not(Check::Known(held_by(0, AXES, 0)))),
        Step::Put(0, mine(AXES, 0), Spot::Cell(WORLD_LAYER, Place::Zone(zone), 5, 5)),
        Step::Mark(0, Measure::MicroOf(mine(AXES, 0)), PLACED),
        Step::Poll(
            8,
            500,
            seen_at(
                1,
                both(
                    Check::InZone(held_by(0, AXES, 0), Place::Zone(zone)),
                    Check::MicroIs(held_by(0, AXES, 0), Who::At(0), PLACED),
                ),
            ),
        ),
        Step::Put(0, mine(AXES, 0), Spot::Cell(WORLD_LAYER, Place::Zone(zone), 7, 3)),
        Step::Mark(0, Measure::MicroOf(mine(AXES, 0)), MOVED),
        need(0, not(Check::MicroIs(mine(AXES, 0), Who::Me, PLACED))),
        Step::Poll(8, 500, seen_at(1, Check::MicroIs(held_by(0, AXES, 0), Who::At(0), MOVED))),
    ]
}

/// Note what a client of the combined run has to work with.
pub open spec fn combined_plan_script(seat: usize) -> Seq<Step> {
    seq![
        need(seat, Check::Finds(Query::Souls, 1)),
        Step::Keep(seat, Query::Souls, SOULS),
        need(seat, Check::Finds(Query::Owned(Key::Axe, false), 1)),
        Step::Keep(seat, Query::Owned(Key::Axe, false), AXES),
        need(seat, Check::Finds(Query::Owned(Key::Corpus, true), 3)),
        Step::Keep(seat, Query::Owned(Key::Corpus, true), CORPUS),
    ]
}

/// Note what a client of the combined run has to work with.
pub fn combined_plan(seat: usize) -> (out: Vec<Step>)
    ensures
        out@ == combined_plan_script(seat),
{
    vec![
        need(seat, Check::Finds(Query::Souls, 1)),
        Step::Keep(seat, Query::Souls, SOULS),
        need(seat, Check::Finds(Query::Owned(Key::Axe, false), 1)),
        Step::Keep(seat, Query::Owned(Key::Axe, false), AXES),
        need(seat, Check::Finds(Query::Owned(Key::Corpus, true), 3)),
        Step::Keep(seat, Query::Owned(Key::Corpus, true), CORPUS),
    ]
}

/// The content has what the combined run needs.
pub open spec fn combined_start_script() -> Seq<Step> {
    seq![
        need(0, Check::Defined(Key::Corpus)),
        need(0, Check::Defined(Key::CorpusDim)),
        need(0, Check::Defined(Key::Log)),
        need(0, Check::Defined(Key::Axe)),
    ]
}

/// The content has what the combined run needs.
pub fn combined_start() -> (out: Vec<Step>)
    ensures
        out@ == combined_start_script(),
{
    vec![
        need(0, Check::Defined(Key::Corpus)),
        need(0, Check::Defined(Key::CorpusDim)),
        need(0, Check::Defined(Key::Log)),
        need(0, Check::Defined(Key::Axe)),
    ]
}

/// Both clients stack two corpus, one onto the first and one onto the last, and then put
/// the third on a tree; each queues both recipes.
pub open spec fn combined_queue_script(set: Setting) -> Seq<Step> {
    seq![
        stack(0, mine(CORPUS, 1), mine(CORPUS, 0), set.up),
        stack(1, mine(CORPUS, 1), mine(CORPUS, 2), set.up),
        Step::Pump(3000),
        Step::Need(each(Check::Queued(Recipe::CorpusBTop))),
        stack(0, mine(AXES, 0), mine(SOULS, 0), set.up),
        Step::Put(0, mine(CORPUS, 2), Spot::Cell(WORLD_LAYER, Place::Zone(set.zone), 3, 2)),
        stack(1, mine(AXES, 0), mine(SOULS, 0), set.up),
        Step::Put(1, mine(CORPUS, 0), Spot::Cell(WORLD_LAYER, Place::Zone(set.zone), 6, 5)),
        Step::Pump(3000),
        Step::Need(each(Check::Queued(Recipe::CutTree))),
    ]
}

/// Both clients stack two corpus, one onto the first and one onto the last, and then put
/// the third on a tree; each queues both recipes.
pub fn combined_queue(set: Setting) -> (out: Vec<Step>)
    ensures
        out@ == combined_queue_script(set),
{
    vec![
        stack(0, mine(CORPUS, 1), mine(CORPUS, 0), set.up),
        stack(1, mine(CORPUS, 1), mine(CORPUS, 2), set.up),
        Step::Pump(3000),
        Step::Need(each(Check::Queued(Recipe::CorpusBTop))),
        stack(0, mine(AXES, 0), mine(SOULS, 0), set.up),
        Step::Put(0, mine(CORPUS, 2), Spot::Cell(WORLD_LAYER, Place::Zone(set.zone), 3, 2)),
        stack(1, mine(AXES, 0), mine(SOULS, 0), set.up),
        Step::Put(1, mine(CORPUS, 0), Spot::Cell(WORLD_LAYER, Place::Zone(set.zone), 6, 5)),
        Step::Pump(3000),
        Step::Need(each(Check::Queued(Recipe::CutTree))),
    ]
}

/// Both recipes fire at both clients and take effect.
pub open spec fn combined_fire_script() -> Seq<Step> {
    seq![
        Step::Poll(
            40,
            500,
            each(
                both(not(Check::Queued(Recipe::CorpusBTop)), not(Check::Queued(Recipe::CutTree))),
            ),
        ),
        Step::Need(each(Check::Accepted(Recipe::CorpusBTop))),
        Step::Need(each(Check::Accepted(Recipe::CutTree))),
        Step::Forget,
        Step::Pump(16000),
        need(0, Check::Dead(mine(CORPUS, 0))),
        need(0, Check::Dead(mine(CORPUS, 2))),
        need(1, Check::Dead(mine(CORPUS, 2))),
        need(1, Check::Dead(mine(CORPUS, 0))),
        Step::Need(each(Check::Finds(Query::Owned(Key::CorpusDim, false), 2))),
        Step::Need(each(Check::Finds(Query::Owned(Key::Log, false), 1))),
        Step::Guard(
            16,
            500,
            not(each(not(Check::Rejected(Recipe::CorpusDim)))),
            each(Check::Ended(Recipe::CorpusDim)),
        ),
        Step::Forget,
    ]
}

/// Both recipes fire at both clients and take effect.
pub fn combined_fire() -> (out: Vec<Step>)
    ensures
        out@ == combined_fire_script(),
{
    vec![
        Step::Poll(
            40,
            500,
            each(
                both(not(Check::Queued(Recipe::CorpusBTop)), not(Check::Queued(Recipe::CutTree))),
            ),
        ),
        Step::Need(each(Check::Accepted(Recipe::CorpusBTop))),
        Step::Need(each(Check::Accepted(Recipe::CutTree))),
        Step::Forget,
        Step::Pump(16000),
        need(0, Check::Dead(mine(CORPUS, 0))),
        need(0, Check::Dead(mine(CORPUS, 2))),
        need(1, Check::Dead(mine(CORPUS, 2))),
        need(1, Check::Dead(mine(CORPUS, 0))),
        Step::Need(each(Check::Finds(Query::Owned(Key::CorpusDim, false), 2))),
        Step::Need(each(Check::Finds(Query::Owned(Key::Log, false), 1))),
        Step::Guard(
            16,
            500,
            not(each(not(Check::Rejected(Recipe::CorpusDim)))),
            each(Check::Ended(Recipe::CorpusDim)),
        ),
        Step::Forget,
    ]
}

/// Each client sees the axes and the tree corpus of both, and nothing of the other's
/// inventory.
pub open spec fn combined_sight_script(zone: u64) -> Seq<Step> {
    seq![
        Step::Need(each(Check::Known(held_by(0, AXES, 0)))),
        Step::Need(each(Check::InZone(held_by(0, CORPUS, 2), Place::Zone(zone)))),
        Step::Need(each(Check::Known(held_by(1, AXES, 0)))),
        Step::Need(each(Check::InZone(held_by(1, CORPUS, 0), Place::Zone(zone)))),
        Step::Need(each(peers(not(Check::Occupied(Place::Inventory(theirs(SOULS, 0))))))),
        Step::Need(each(peers(not(Check::SeesPeers(Key::CorpusDim))))),
    ]
}

/// Each client sees the axes and the tree corpus of both, and nothing of the other's
/// inventory.
pub fn combined_sight(zone: u64) -> (out: Vec<Step>)
    ensures
        out@ == combined_sight_script(zone),
{
    vec![
        Step::Need(each(Check::Known(held_by(0, AXES, 0)))),
        Step::Need(each(Check::InZone(held_by(0, CORPUS, 2), Place::Zone(zone)))),
        Step::Need(each(Check::Known(held_by(1, AXES, 0)))),
        Step::Need(each(Check::InZone(held_by(1, CORPUS, 0), Place::Zone(zone)))),
        Step::Need(each(peers(not(Check::Occupied(Place::Inventory(theirs(SOULS, 0))))))),
        Step::Need(each(peers(not(Check::SeesPeers(Key::CorpusDim))))),
    ]
}

/// Every dim corpus becomes a corpus again.
pub open spec fn combined_return_script() -> Seq<Step> {
    seq![
        Step::Keep(0, Query::Owned(Key::CorpusDim, false), DIMS),
        Step::Keep(1, Query::Owned(Key::CorpusDim, false), DIMS),
        Step::Mark(0, Measure::CountOf(Key::Corpus, false), COUNT),
        Step::Mark(1, Measure::CountOf(Key::Corpus, false), COUNT),
        Step::Pump(38000),
        Step::Need(each(Check::AllDead(DIMS))),
        Step::Need(each(Check::More(Key::Corpus, false, COUNT))),
    ]
}

/// Every dim corpus becomes a corpus again.
pub fn combined_return() -> (out: Vec<Step>)
    ensures
        out@ == combined_return_script(),
{
    vec![
        Step::Keep(0, Query::Owned(Key::CorpusDim, false), DIMS),
        Step::Keep(1, Query::Owned(Key::CorpusDim, false), DIMS),
        Step::Mark(0, Measure::CountOf(Key::Corpus, false), COUNT),
        Step::Mark(1, Measure::CountOf(Key::Corpus, false), COUNT),
        Step::Pump(38000),
        Step::Need(each(Check::AllDead(DIMS))),
        Step::Need(each(Check::More(Key::Corpus, false, COUNT))),
    ]
}

/// A cap dropped on a log and a log dropped on a cap end the same way: the cap is on top,
/// the log is loose.
pub open spec fn combined_caps_script(set: Setting) -> Seq<Step> {
    seq![
        need(0, Check::Defined(Key::TestDust)),
        need(0, Check::Finds(Query::Owned(Key::Log, true), 1)),
        Step::Keep(0, Query::Owned(Key::Log, true), LOGS),
        need(0, Check::Finds(Query::Owned(Key::TestDust, true), 1)),
        Step::Keep(0, Query::Owned(Key::TestDust, true), CAPS),
        stack(0, mine(CAPS, 0), mine(LOGS, 0), set.up),
        need(0, Check::StackedAt(mine(CAPS, 0), mine(LOGS, 0), set.up, 0)),
        need(0, Check::Loose(mine(LOGS, 0))),
        need(1, Check::Finds(Query::Owned(Key::Log, true), 1)),
        Step::Keep(1, Query::Owned(Key::Log, true), LOGS),
        need(1, Check::Finds(Query::Owned(Key::TestDust, true), 1)),
        Step::Keep(1, Query::Owned(Key::TestDust, true), CAPS),
        stack(1, mine(LOGS, 0), mine(CAPS, 0), set.up),
        need(1, Check::StackedAt(mine(CAPS, 0), mine(LOGS, 0), set.up, 0)),
        need(1, Check::Loose(mine(LOGS, 0))),
    ]
}

/// A cap dropped on a log and a log dropped on a cap end the same way: the cap is on top,
/// the log is loose.
pub fn combined_caps(set: Setting) -> (out: Vec<Step>)
    ensures
        out@ == combined_caps_script(set),
{
    vec![
        need(0, Check::Defined(Key::TestDust)),
        need(0, Check::Finds(Query::Owned(Key::Log, true), 1)),
        Step::Keep(0, Query::Owned(Key::Log, true), LOGS),
        need(0, Check::Finds(Query::Owned(Key::TestDust, true), 1)),
        Step::Keep(0, Query::Owned(Key::TestDust, true), CAPS),
        stack(0, mine(CAPS, 0), mine(LOGS, 0), set.up),
        need(0, Check::StackedAt(mine(CAPS, 0), mine(LOGS, 0), set.up, 0)),
        need(0, Check::Loose(mine(LOGS, 0))),
        need(1, Check::Finds(Query::Owned(Key::Log, true), 1)),
        Step::Keep(1, Query::Owned(Key::Log, true), LOGS),
        need(1, Check::Finds(Query::Owned(Key::TestDust, true), 1)),
        Step::Keep(1, Query::Owned(Key::TestDust, true), CAPS),
        stack(1, mine(LOGS, 0), mine(CAPS, 0), set.up),
        need(1, Check::StackedAt(mine(CAPS, 0), mine(LOGS, 0), set.up, 0)),
        need(1, Check::Loose(mine(LOGS, 0))),
    ]
}

/// Nothing goes onto a cap in a stack; what asks for a capped top goes below instead.
pub open spec fn combined_refusals_script(set: Setting) -> Seq<Step> {
    seq![
        need(0, Check::Finds(Query::Owned(Key::Corpus, true), 1)),
        Step::Keep(0, Query::Owned(Key::Corpus, true), LAST_CORPUS),
        Step::Refused(0, mine(LAST_CORPUS, 0), Spot::Onto(mine(CAPS, 0), set.up)),
        need(1, Check::Finds(Query::Owned(Key::Corpus, true), 1)),
        Step::Keep(1, Query::Owned(Key::Corpus, true), LAST_CORPUS),
        Step::Refused(1, mine(LAST_CORPUS, 0), Spot::Onto(mine(CAPS, 0), set.up)),
        need(1, Check::Finds(Query::Owned(Key::Corpus, true), 1)),
        Step::Keep(1, Query::Owned(Key::Corpus, true), LAST_CORPUS),
        stack(1, mine(LAST_CORPUS, 0), mine(LOGS, 0), set.up),
        need(1, Check::StackedAt(mine(LAST_CORPUS, 0), mine(LOGS, 0), set.down, 0)),
        Step::Need(each(not(Check::AnyError))),
    ]
}

/// Nothing goes onto a cap in a stack; what asks for a capped top goes below instead.
pub fn combined_refusals(set: Setting) -> (out: Vec<Step>)
    ensures
        out@ == combined_refusals_script(set),
{
    vec![
        need(0, Check::Finds(Query::Owned(Key::Corpus, true), 1)),
        Step::Keep(0, Query::Owned(Key::Corpus, true), LAST_CORPUS),
        Step::Refused(0, mine(LAST_CORPUS, 0), Spot::Onto(mine(CAPS, 0), set.up)),
        need(1, Check::Finds(Query::Owned(Key::Corpus, true), 1)),
        Step::Keep(1, Query::Owned(Key::Corpus, true), LAST_CORPUS),
        Step::Refused(1, mine(LAST_CORPUS, 0), Spot::Onto(mine(CAPS, 0), set.up)),
        need(1, Check::Finds(Query::Owned(Key::Corpus, true), 1)),
        Step::Keep(1, Query::Owned(Key::Corpus, true), LAST_CORPUS),
        stack(1, mine(LAST_CORPUS, 0), mine(LOGS, 0), set.up),
        need(1, Check::StackedAt(mine(LAST_CORPUS, 0), mine(LOGS, 0), set.down, 0)),
        Step::Need(each(not(Check::AnyError))),
    ]
}

/// The combined run over two clients.
pub open spec fn run_combined_script(set: Setting) -> Seq<Step> {
    combined_start_script() + combined_plan_script(0) + combined_plan_script(1) + combined_queue_script(set) + combined_fire_script() + combined_sight_script(set.zone) + combined_return_script() + combined_caps_script(set) + combined_refusals_script(set)
}

/// The combined run over two clients.
pub fn run_combined(set: Setting) -> (out: Vec<Step>)
    ensures
        out@ == run_combined_script(set),
{
    let mut out = combined_start();
    let mut next = combined_plan(0);
    out.append(&mut next);
    let mut next = combined_plan(1);
    out.append(&mut next);
    let mut next = combined_queue(set);
    out.append(&mut next);
    let mut next = combined_fire();
    out.append(&mut next);
    let mut next = combined_sight(set.zone);
    out.append(&mut next);
    let mut next = combined_return();
    out.append(&mut next);
    let mut next = combined_caps(set);
    out.append(&mut next);
    let mut next = combined_refusals(set);
    out.append(&mut next);
    out
}

/// A client far away sees no other, and no other sees it; it notes its corpus and their
/// zone.
pub open spec fn lock_isolation_script(seat: usize) -> Seq<Step> {
    seq![
        need(seat, Check::Defined(Key::Corpus)),
        Step::Pump(3000),
        need(seat, peers(not(Check::Known(theirs(HUMAN, 0))))),
        need(seat, peers(there(not(Check::Known(theirs(HUMAN, 0)))))),
        need(seat, Check::Finds(Query::Owned(Key::Corpus, true), 3)),
        Step::Keep(seat, Query::Owned(Key::Corpus, true), CORPUS),
        Step::Mark(seat, Measure::ZoneOf(mine(CORPUS, 0)), INVENTORY),
    ]
}

/// A client far away sees no other, and no other sees it; it notes its corpus and their
/// zone.
pub fn lock_isolation(seat: usize) -> (out: Vec<Step>)
    ensures
        out@ == lock_isolation_script(seat),
{
    vec![
        need(seat, Check::Defined(Key::Corpus)),
        Step::Pump(3000),
        need(seat, peers(not(Check::Known(theirs(HUMAN, 0))))),
        need(seat, peers(there(not(Check::Known(theirs(HUMAN, 0)))))),
        need(seat, Check::Finds(Query::Owned(Key::Corpus, true), 3)),
        Step::Keep(seat, Query::Owned(Key::Corpus, true), CORPUS),
        Step::Mark(seat, Measure::ZoneOf(mine(CORPUS, 0)), INVENTORY),
    ]
}

/// Stacking and unstacking queues one recipe after another, each dropped before it fires.
pub open spec fn lock_dance_script(seat: usize, up: u8) -> Seq<Step> {
    seq![
        stack(seat, mine(CORPUS, 0), mine(CORPUS, 1), up),
        Step::Pump(1500),
        need(seat, Check::Queued(Recipe::CorpusBTop)),
        stack(seat, mine(CORPUS, 2), mine(CORPUS, 0), up),
        Step::Pump(1500),
        need(seat, Check::Queued(Recipe::TripleCorpus)),
        need(seat, not(Check::Queued(Recipe::CorpusBTop))),
        Step::Put(seat, mine(CORPUS, 0), inventory_cell()),
        Step::Pump(1500),
        need(seat, Check::StackedOn(mine(CORPUS, 2), mine(CORPUS, 0))),
        need(seat, Check::Queued(Recipe::CorpusBTop)),
        need(seat, not(Check::Queued(Recipe::TripleCorpus))),
        Step::Put(seat, mine(CORPUS, 2), inventory_cell()),
        Step::Pump(1500),
        need(seat, not(Check::Queued(Recipe::CorpusBTop))),
        need(seat, not(Check::Queued(Recipe::TripleCorpus))),
        need(seat, not(Check::AnyOutcome)),
        Step::Forget,
    ]
}

/// Stacking and unstacking queues one recipe after another, each dropped before it fires.
pub fn lock_dance(seat: usize, up: u8) -> (out: Vec<Step>)
    ensures
        out@ == lock_dance_script(seat, up),
{
    vec![
        stack(seat, mine(CORPUS, 0), mine(CORPUS, 1), up),
        Step::Pump(1500),
        need(seat, Check::Queued(Recipe::CorpusBTop)),
        stack(seat, mine(CORPUS, 2), mine(CORPUS, 0), up),
        Step::Pump(1500),
        need(seat, Check::Queued(Recipe::TripleCorpus)),
        need(seat, not(Check::Queued(Recipe::CorpusBTop))),
        Step::Put(seat, mine(CORPUS, 0), inventory_cell()),
        Step::Pump(1500),
        need(seat, Check::StackedOn(mine(CORPUS, 2), mine(CORPUS, 0))),
        need(seat, Check::Queued(Recipe::CorpusBTop)),
        need(seat, not(Check::Queued(Recipe::TripleCorpus))),
        Step::Put(seat, mine(CORPUS, 2), inventory_cell()),
        Step::Pump(1500),
        need(seat, not(Check::Queued(Recipe::CorpusBTop))),
        need(seat, not(Check::Queued(Recipe::TripleCorpus))),
        need(seat, not(Check::AnyOutcome)),
        Step::Forget,
    ]
}

/// A dust anywhere in the upper stack queues `corpus_dust`; two neighbouring corpus above
/// it queue `corpus_b_top`.
pub open spec fn lock_stack_script(seat: usize, up: u8) -> Seq<Step> {
    seq![
        need(seat, Check::Defined(Key::Dust)),
        need(seat, Check::Defined(Key::Axe)),
        need(seat, Check::Defined(Key::Food)),
        need(seat, Check::Defined(Key::CorpusDim)),
        need(seat, Check::Finds(Query::Owned(Key::Dust, true), 1)),
        Step::Keep(seat, Query::Owned(Key::Dust, true), DUST),
        need(seat, Check::Finds(Query::Owned(Key::Axe, true), 2)),
        Step::Keep(seat, Query::Owned(Key::Axe, true), AXES),
        stack(seat, mine(AXES, 0), mine(CORPUS, 0), up),
        Step::Pump(800),
        stack(seat, mine(AXES, 1), mine(AXES, 0), up),
        Step::Pump(800),
        stack(seat, mine(DUST, 0), mine(AXES, 1), up),
        Step::Pump(800),
        need(seat, Check::Queued(Recipe::CorpusDust)),
        stack(seat, mine(CORPUS, 1), mine(DUST, 0), up),
        Step::Pump(800),
        stack(seat, mine(CORPUS, 2), mine(CORPUS, 1), up),
        Step::Pump(1000),
        need(seat, Check::Queued(Recipe::CorpusBTop)),
    ]
}

/// A dust anywhere in the upper stack queues `corpus_dust`; two neighbouring corpus above
/// it queue `corpus_b_top`.
pub fn lock_stack(seat: usize, up: u8) -> (out: Vec<Step>)
    ensures
        out@ == lock_stack_script(seat, up),
{
    vec![
        need(seat, Check::Defined(Key::Dust)),
        need(seat, Check::Defined(Key::Axe)),
        need(seat, Check::Defined(Key::Food)),
        need(seat, Check::Defined(Key::CorpusDim)),
        need(seat, Check::Finds(Query::Owned(Key::Dust, true), 1)),
        Step::Keep(seat, Query::Owned(Key::Dust, true), DUST),
        need(seat, Check::Finds(Query::Owned(Key::Axe, true), 2)),
        Step::Keep(seat, Query::Owned(Key::Axe, true), AXES),
        stack(seat, mine(AXES, 0), mine(CORPUS, 0), up),
        Step::Pump(800),
        stack(seat, mine(AXES, 1), mine(AXES, 0), up),
        Step::Pump(800),
        stack(seat, mine(DUST, 0), mine(AXES, 1), up),
        Step::Pump(800),
        need(seat, Check::Queued(Recipe::CorpusDust)),
        stack(seat, mine(CORPUS, 1), mine(DUST, 0), up),
        Step::Pump(800),
        stack(seat, mine(CORPUS, 2), mine(CORPUS, 1), up),
        Step::Pump(1000),
        need(seat, Check::Queued(Recipe::CorpusBTop)),
    ]
}

/// Both recipes complete: the second corpus dies, the third closes up behind the dust, a
/// dim corpus and food are made, and food again.
pub open spec fn lock_concurrent_script(seat: usize) -> Seq<Step> {
    seq![
        Step::Guard(
            140,
            500,
            seen_at(seat, Check::AnyRejected),
            seen_at(
                seat,
                both(
                    Check::Dead(mine(CORPUS, 1)),
                    Check::Finds(Query::Owned(Key::Food, false), 1),
                ),
            ),
        ),
        Step::Forget,
        need(seat, Check::Follows(mine(DUST, 0), mine(CORPUS, 2))),
        need(seat, Check::Finds(Query::Owned(Key::CorpusDim, false), 1)),
        Step::Mark(seat, Measure::CountOf(Key::Food, false), COUNT),
        Step::Poll(90, 500, seen_at(seat, Check::More(Key::Food, false, COUNT))),
    ]
}

/// Both recipes complete: the second corpus dies, the third closes up behind the dust, a
/// dim corpus and food are made, and food again.
pub fn lock_concurrent(seat: usize) -> (out: Vec<Step>)
    ensures
        out@ == lock_concurrent_script(seat),
{
    vec![
        Step::Guard(
            140,
            500,
            seen_at(seat, Check::AnyRejected),
            seen_at(
                seat,
                both(
                    Check::Dead(mine(CORPUS, 1)),
                    Check::Finds(Query::Owned(Key::Food, false), 1),
                ),
            ),
        ),
        Step::Forget,
        need(seat, Check::Follows(mine(DUST, 0), mine(CORPUS, 2))),
        need(seat, Check::Finds(Query::Owned(Key::CorpusDim, false), 1)),
        Step::Mark(seat, Measure::CountOf(Key::Food, false), COUNT),
        Step::Poll(90, 500, seen_at(seat, Check::More(Key::Food, false, COUNT))),
    ]
}

/// While `corpus_dust` runs, the dust is locked in place and the corpus is only used; an
/// axe moved off takes the other along and leaves the locked dust behind.
pub open spec fn lock_holds_script(seat: usize) -> Seq<Step> {
    seq![
        Step::Poll(80, 250, seen_at(seat, Check::PosHeld(mine(DUST, 0)))),
        need(seat, not(Check::PosHeld(mine(CORPUS, 0)))),
        need(seat, Check::SlotHeld(mine(CORPUS, 0))),
        Step::Put(seat, mine(AXES, 0), inventory_cell()),
        need(seat, Check::Loose(mine(AXES, 0))),
        need(seat, Check::StackedAs(mine(AXES, 1), mine(AXES, 0), 0)),
        need(seat, Check::StackedAs(mine(DUST, 0), mine(CORPUS, 0), 0)),
        need(seat, Check::StackedAs(mine(CORPUS, 2), mine(CORPUS, 0), 1)),
        Step::Pump(1000),
        need(seat, not(Check::Queued(Recipe::CorpusDust))),
    ]
}

/// While `corpus_dust` runs, the dust is locked in place and the corpus is only used; an
/// axe moved off takes the other along and leaves the locked dust behind.
pub fn lock_holds(seat: usize) -> (out: Vec<Step>)
    ensures
        out@ == lock_holds_script(seat),
{
    vec![
        Step::Poll(80, 250, seen_at(seat, Check::PosHeld(mine(DUST, 0)))),
        need(seat, not(Check::PosHeld(mine(CORPUS, 0)))),
        need(seat, Check::SlotHeld(mine(CORPUS, 0))),
        Step::Put(seat, mine(AXES, 0), inventory_cell()),
        need(seat, Check::Loose(mine(AXES, 0))),
        need(seat, Check::StackedAs(mine(AXES, 1), mine(AXES, 0), 0)),
        need(seat, Check::StackedAs(mine(DUST, 0), mine(CORPUS, 0), 0)),
        need(seat, Check::StackedAs(mine(CORPUS, 2), mine(CORPUS, 0), 1)),
        Step::Pump(1000),
        need(seat, not(Check::Queued(Recipe::CorpusDust))),
    ]
}

/// The local place of the dust survives what the server says of it; once it is moved off,
/// `corpus_dust` stops.
pub open spec fn lock_reconcile_script(seat: usize) -> Seq<Step> {
    seq![
        Step::Mark(seat, Measure::CountOf(Key::Food, false), COUNT),
        Step::Guard(
            120,
            500,
            seen_at(seat, Check::AnyRejected),
            seen_at(seat, Check::More(Key::Food, false, COUNT)),
        ),
        Step::Forget,
        need(seat, Check::StackedAs(mine(DUST, 0), mine(CORPUS, 0), 0)),
        Step::Coax(seat, mine(DUST, 0), inventory_cell(), 59, 300),
        Step::Pump(6000),
        need(seat, not(Check::Queued(Recipe::CorpusDust))),
    ]
}

/// The local place of the dust survives what the server says of it; once it is moved off,
/// `corpus_dust` stops.
pub fn lock_reconcile(seat: usize) -> (out: Vec<Step>)
    ensures
        out@ == lock_reconcile_script(seat),
{
    vec![
        Step::Mark(seat, Measure::CountOf(Key::Food, false), COUNT),
        Step::Guard(
            120,
            500,
            seen_at(seat, Check::AnyRejected),
            seen_at(seat, Check::More(Key::Food, false, COUNT)),
        ),
        Step::Forget,
        need(seat, Check::StackedAs(mine(DUST, 0), mine(CORPUS, 0), 0)),
        Step::Coax(seat, mine(DUST, 0), inventory_cell(), 59, 300),
        Step::Pump(6000),
        need(seat, not(Check::Queued(Recipe::CorpusDust))),
    ]
}

/// The lock test, at one client far from the others.
pub open spec fn run_jim_lock_test_script(seat: usize, up: u8) -> Seq<Step> {
    lock_isolation_script(seat) + lock_dance_script(seat, up) + lock_stack_script(seat, up) + lock_concurrent_script(seat) + lock_holds_script(seat) + lock_reconcile_script(seat)
}

/// The lock test, at one client far from the others.
pub fn run_jim_lock_test(seat: usize, up: u8) -> (out: Vec<Step>)
    ensures
        out@ == run_jim_lock_test_script(seat, up),
{
    let mut out = lock_isolation(seat);
    let mut next = lock_dance(seat, up);
    out.append(&mut next);
    let mut next = lock_stack(seat, up);
    out.append(&mut next);
    let mut next = lock_concurrent(seat);
    out.append(&mut next);
    let mut next = lock_holds(seat);
    out.append(&mut next);
    let mut next = lock_reconcile(seat);
    out.append(&mut next);
    out
}

/// The states are those of a run of the script from its start to its end.
pub open spec fn passed<'a, C: Codec>(
    script: Seq<Step>,
    states: Seq<RunState>,
    seen: Seq<Seq<Seat<'a, C>>>,
    worked: Seq<bool>,
) -> bool {
    &&& is_run(script, states, seen, worked)
    &&& states[0].pc == 0
    &&& states.last().pc >= script.len()
}

/// The check held at some turn of the run.
pub open spec fn showed<'a, C: Codec>(
    states: Seq<RunState>,
    seen: Seq<Seq<Seat<'a, C>>>,
    check: Check,
) -> bool {
    exists|k: int| 0 <= k < seen.len() && check.holds(states[k].env(#[trigger] seen[k], 0))
}

/// A passed run showed what its requirements say.
proof fn lemma_shown<'a, C: Codec>(
    script: Seq<Step>,
    states: Seq<RunState>,
    seen: Seq<Seq<Seat<'a, C>>>,
    worked: Seq<bool>,
    i: int,
    check: Check,
)
    requires
        passed(script, states, seen, worked),
        0 <= i < script.len() <= usize::MAX,
        script[i] == Step::Need(check),
    ensures
        showed(states, seen, check),
{
    law_passed_run_met_its_demands(script, states, seen, worked, i);
}

/// Where the scenario passes, `triple_corpus` was accepted, used up the first corpus, and left
/// the others and the dust alive.
pub proof fn law_triple_corpus_takes_effect<'a, C: Codec>(
    seat: usize,
    up: u8,
    states: Seq<RunState>,
    seen: Seq<Seq<Seat<'a, C>>>,
    worked: Seq<bool>,
)
    requires
        passed(run_triple_corpus_script(seat, up), states, seen, worked),
    ensures
        showed(states, seen, seen_at(seat, Check::Accepted(Recipe::TripleCorpus))),
        showed(states, seen, seen_at(seat, not(Check::Alive(mine(CORPUS, 0))))),
        showed(states, seen, seen_at(seat, Check::Alive(mine(CORPUS, 1)))),
        showed(states, seen, seen_at(seat, Check::Alive(mine(CORPUS, 2)))),
        showed(states, seen, seen_at(seat, Check::Alive(mine(DUST, 0)))),
{
    let script = run_triple_corpus_script(seat, up);
    lemma_shown(script, states, seen, worked, 17, seen_at(seat, Check::Accepted(Recipe::TripleCorpus)));
    lemma_shown(script, states, seen, worked, 20, seen_at(seat, not(Check::Alive(mine(CORPUS, 0)))));
    lemma_shown(script, states, seen, worked, 21, seen_at(seat, Check::Alive(mine(CORPUS, 1))));
    lemma_shown(script, states, seen, worked, 22, seen_at(seat, Check::Alive(mine(CORPUS, 2))));
    lemma_shown(script, states, seen, worked, 23, seen_at(seat, Check::Alive(mine(DUST, 0))));
}

/// Where the scenario passes, `corpus_b_top` was accepted and used up its root, and the dim
/// corpus it made was used up in turn.
pub proof fn law_dim_chain_takes_effect<'a, C: Codec>(
    seat: usize,
    up: u8,
    states: Seq<RunState>,
    seen: Seq<Seq<Seat<'a, C>>>,
    worked: Seq<bool>,
)
    requires
        passed(run_corpus_dim_chain_script(seat, up), states, seen, worked),
    ensures
        showed(states, seen, seen_at(seat, Check::Accepted(Recipe::CorpusBTop))),
        showed(states, seen, seen_at(seat, Check::Dead(mine(CORPUS, 0)))),
        showed(states, seen, seen_at(seat, Check::Loose(mine(CORPUS, 1)))),
        showed(states, seen, seen_at(seat, Check::Dead(mine(DIMS, 0)))),
        showed(states, seen, seen_at(seat, Check::Finds(Query::Fresh(Key::Corpus, true, BEFORE), 1))),
{
    let script = run_corpus_dim_chain_script(seat, up);
    lemma_shown(script, states, seen, worked, 15, seen_at(seat, Check::Accepted(Recipe::CorpusBTop)));
    lemma_shown(script, states, seen, worked, 18, seen_at(seat, Check::Dead(mine(CORPUS, 0))));
    lemma_shown(script, states, seen, worked, 20, seen_at(seat, Check::Loose(mine(CORPUS, 1))));
    lemma_shown(script, states, seen, worked, 29, seen_at(seat, Check::Dead(mine(DIMS, 0))));
    lemma_shown(script, states, seen, worked, 30, seen_at(seat, Check::Finds(Query::Fresh(Key::Corpus, true, BEFORE), 1)));
}

/// Where the scenario passes, `cut_tree` was accepted, used up the corpus, and made a dim
/// corpus and a log.
pub proof fn law_cut_tree_takes_effect<'a, C: Codec>(
    seat: usize,
    set: Setting,
    tile: (u8, u8),
    states: Seq<RunState>,
    seen: Seq<Seq<Seat<'a, C>>>,
    worked: Seq<bool>,
)
    requires
        passed(run_cut_tree_script(seat, set, tile), states, seen, worked),
    ensures
        showed(states, seen, seen_at(seat, Check::Accepted(Recipe::CutTree))),
        showed(states, seen, seen_at(seat, Check::Dead(mine(CORPUS, 0)))),
        showed(states, seen, seen_at(seat, Check::Finds(Query::Fresh(Key::CorpusDim, false, BEFORE), 1))),
        showed(states, seen, seen_at(seat, Check::Finds(Query::Fresh(Key::Log, false, LOGS_BEFORE), 1))),
{
    let script = run_cut_tree_script(seat, set, tile);
    lemma_shown(script, states, seen, worked, 18, seen_at(seat, Check::Accepted(Recipe::CutTree)));
    lemma_shown(script, states, seen, worked, 23, seen_at(seat, Check::Dead(mine(CORPUS, 0))));
    lemma_shown(script, states, seen, worked, 24, seen_at(seat, Check::Finds(Query::Fresh(Key::CorpusDim, false, BEFORE), 1)));
    lemma_shown(script, states, seen, worked, 25, seen_at(seat, Check::Finds(Query::Fresh(Key::Log, false, LOGS_BEFORE), 1)));
}

/// Where the combined run passes, both clients had both recipes accepted, and neither saw the
/// inventory or a dim corpus of the other.
pub proof fn law_combined_keeps_clients_apart<'a, C: Codec>(
    set: Setting,
    states: Seq<RunState>,
    seen: Seq<Seq<Seat<'a, C>>>,
    worked: Seq<bool>,
)
    requires
        passed(run_combined_script(set), states, seen, worked),
    ensures
        showed(states, seen, each(Check::Accepted(Recipe::CorpusBTop))),
        showed(states, seen, each(Check::Accepted(Recipe::CutTree))),
        showed(states, seen, each(peers(not(Check::Occupied(Place::Inventory(theirs(SOULS, 0))))))),
        showed(states, seen, each(peers(not(Check::SeesPeers(Key::CorpusDim))))),
        showed(states, seen, each(Check::AllDead(DIMS))),
{
    let script = run_combined_script(set);
    lemma_shown(script, states, seen, worked, 27, each(Check::Accepted(Recipe::CorpusBTop)));
    lemma_shown(script, states, seen, worked, 28, each(Check::Accepted(Recipe::CutTree)));
    lemma_shown(script, states, seen, worked, 43, each(peers(not(Check::Occupied(Place::Inventory(theirs(SOULS, 0)))))));
    lemma_shown(script, states, seen, worked, 44, each(peers(not(Check::SeesPeers(Key::CorpusDim)))));
    lemma_shown(script, states, seen, worked, 50, each(Check::AllDead(DIMS)));
}

/// Where the lock test passes, the stack closed up behind the dust, the corpus below was used
/// but not locked in place, and the dust kept its local place.
pub proof fn law_lock_test_holds_the_dust<'a, C: Codec>(
    seat: usize,
    up: u8,
    states: Seq<RunState>,
    seen: Seq<Seq<Seat<'a, C>>>,
    worked: Seq<bool>,
)
    requires
        passed(run_jim_lock_test_script(seat, up), states, seen, worked),
    ensures
        showed(states, seen, seen_at(seat, Check::Follows(mine(DUST, 0), mine(CORPUS, 2)))),
        showed(states, seen, seen_at(seat, not(Check::PosHeld(mine(CORPUS, 0))))),
        showed(states, seen, seen_at(seat, Check::SlotHeld(mine(CORPUS, 0)))),
        showed(states, seen, seen_at(seat, Check::StackedAs(mine(DUST, 0), mine(CORPUS, 0), 0))),
{
    let script = run_jim_lock_test_script(seat, up);
    lemma_shown(script, states, seen, worked, 47, seen_at(seat, Check::Follows(mine(DUST, 0), mine(CORPUS, 2))));
    lemma_shown(script, states, seen, worked, 52, seen_at(seat, not(Check::PosHeld(mine(CORPUS, 0)))));
    lemma_shown(script, states, seen, worked, 53, seen_at(seat, Check::SlotHeld(mine(CORPUS, 0))));
    lemma_shown(script, states, seen, worked, 64, seen_at(seat, Check::StackedAs(mine(DUST, 0), mine(CORPUS, 0), 0)));
}

} // verus!
