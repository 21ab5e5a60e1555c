//! Scripted scenarios over several clients at once.
//!
//! A script moves cards, waits, and checks what every client sees. It is driven from
//! outside: each turn hands in what the clients know now, and gives back the next thing
//! to do. Ids that only turn up at run time are kept in registers, per client.
use vstd::prelude::*;

use crate::actions::copy_ids;
use crate::client::Client;
use crate::codec::Codec;
use crate::moves::Placement;
use crate::ordmap::OrdMap;
use crate::rows::{CardRow, Micro};

verus! {

use crate::client::ClientState;
use crate::content::packed_in;
use crate::queue::ends;
use crate::realm::{lemma_listing, listing, lists_set};
use crate::world::is_current_all;

/// A card definition the scenarios use.
#[derive(Debug, Clone, Copy, PartialEq, Eq, Structural)]
pub enum Key {
    PlayerSoul,
    Human,
    Corpus,
    CorpusDim,
    Log,
    Axe,
    Dust,
    TestDust,
    Food,
    Tally,
    Anvil,
    Widget,
    Despair,
    Dread,
}

impl Key {
    /// The name of the definition.
    pub open spec fn text(self) -> Seq<char> {
        match self {
            Key::PlayerSoul => "player_soul"@,
            Key::Human => "human"@,
            Key::Corpus => "corpus"@,
            Key::CorpusDim => "corpus_dim"@,
            Key::Log => "log"@,
            Key::Axe => "axe"@,
            Key::Dust => "dust"@,
            Key::TestDust => "test_dust"@,
            Key::Food => "food"@,
            Key::Tally => "tally"@,
            Key::Anvil => "anvil"@,
            Key::Widget => "widget"@,
            Key::Despair => "despair"@,
            Key::Dread => "dread"@,
        }
    }

    pub fn name(self) -> (s: String)
        ensures
            s@ == self.text(),
    {
        match self {
            Key::PlayerSoul => "player_soul".to_owned(),
            Key::Human => "human".to_owned(),
            Key::Corpus => "corpus".to_owned(),
            Key::CorpusDim => "corpus_dim".to_owned(),
            Key::Log => "log".to_owned(),
            Key::Axe => "axe".to_owned(),
            Key::Dust => "dust".to_owned(),
            Key::TestDust => "test_dust".to_owned(),
            Key::Food => "food".to_owned(),
            Key::Tally => "tally".to_owned(),
            Key::Anvil => "anvil".to_owned(),
            Key::Widget => "widget".to_owned(),
            Key::Despair => "despair".to_owned(),
            Key::Dread => "dread".to_owned(),
        }
    }
}

/// A recipe the scenarios wait for.
#[derive(Debug, Clone, Copy, PartialEq, Eq, Structural)]
pub enum Recipe {
    CorpusBTop,
    CorpusDim,
    CorpusDust,
    CutTree,
    TripleCorpus,
}

impl Recipe {
    /// The name of the recipe.
    pub open spec fn text(self) -> Seq<char> {
        match self {
            Recipe::CorpusBTop => "corpus_b_top"@,
            Recipe::CorpusDim => "corpus_dim"@,
            Recipe::CorpusDust => "corpus_dust"@,
            Recipe::CutTree => "cut_tree"@,
            Recipe::TripleCorpus => "triple_corpus"@,
        }
    }

    pub fn name(self) -> (s: String)
        ensures
            s@ == self.text(),
    {
        match self {
            Recipe::CorpusBTop => "corpus_b_top".to_owned(),
            Recipe::CorpusDim => "corpus_dim".to_owned(),
            Recipe::CorpusDust => "corpus_dust".to_owned(),
            Recipe::CutTree => "cut_tree".to_owned(),
            Recipe::TripleCorpus => "triple_corpus".to_owned(),
        }
    }
}

/// Whose registers.
#[derive(Debug, Clone, Copy, PartialEq, Eq, Structural)]
pub enum Who {
    /// The client a check is made at.
    Me,
    /// The other client, where a check looks at all others.
    Peer,
    /// A certain client.
    At(usize),
}

/// A card in a register.
#[derive(Debug, Clone, Copy, PartialEq, Eq, Structural)]
pub struct Card {
    pub who: Who,
    pub reg: usize,
    pub at: usize,
}

/// A zone.
#[derive(Debug, Clone, Copy, PartialEq, Eq, Structural)]
pub enum Place {
    Zone(u64),
    /// The inventory of a card.
    Inventory(Card),
    /// The zone in a number register.
    Marked(Who, usize),
}

/// Something a client sees, or does not.
#[derive(Debug)]
pub enum Check {
    Both(Box<Check>, Box<Check>),
    Not(Box<Check>),
    /// At a certain client.
    At(usize, Box<Check>),
    /// At every client.
    Each(Box<Check>),
    /// Looking at every other client.
    Peers(Box<Check>),
    /// At the other client, looking back.
    There(Box<Check>),
    /// The content has the definition.
    Defined(Key),
    /// The recipe is queued, in flight or not.
    Queued(Recipe),
    /// The recipe is queued and not in flight.
    Waiting(Recipe),
    /// Something is in flight.
    AnyInFlight,
    /// Something is queued.
    AnyQueued,
    /// The first outcome of the recipe is that it was accepted.
    Accepted(Recipe),
    /// The recipe ended, one way or the other.
    Ended(Recipe),
    /// The recipe was rejected, at least once.
    Rejected(Recipe),
    /// Some action was rejected.
    AnyRejected,
    /// Some action ended.
    AnyOutcome,
    /// Some error was seen.
    AnyError,
    Known(Card),
    Dead(Card),
    Alive(Card),
    Loose(Card),
    /// The first is stacked on the second.
    StackedOn(Card, Card),
    /// The first is stacked on the second, in a branch, at an index.
    StackedAt(Card, Card, u8, u8),
    /// The first is stacked on the second, in any branch, at an index.
    StackedAs(Card, Card, u8),
    /// The second stands right behind the first in a stack.
    Follows(Card, Card),
    InZone(Card, Place),
    /// The packed cell of the card is the one in a number register.
    MicroIs(Card, Who, usize),
    /// The first stock byte of the card.
    Stock(Card, u8),
    /// The first stock byte of the card is at least this.
    StockFrom(Card, u8),
    /// An action locks the card where it is.
    PosHeld(Card),
    /// An action claims the card.
    SlotHeld(Card),
    /// The two are the same card.
    Same(Card, Card),
    /// The card is a soul of ours.
    IsSoul(Card),
    /// The query finds at least so many.
    Finds(Query, usize),
    /// We own more than the number register says.
    More(Key, bool, usize),
    /// We see one that the other client's player owns.
    SeesPeers(Key),
    /// Every card of a list register is dead.
    AllDead(usize),
    /// Some card is in the zone.
    Occupied(Place),
    /// As many watch the zone as there are clients.
    WatchedByAll(Place),
    /// The card stands so many tiles east of the cell register.
    AtCell(Card, usize, i32),
}

/// What a list register is filled with.
#[derive(Debug, Clone, Copy, PartialEq, Eq, Structural)]
pub enum Query {
    /// The cards we own; only loose ones, if asked.
    Owned(Key, bool),
    /// Those of them that another register does not hold.
    Fresh(Key, bool, usize),
    /// The live cards of a definition, whoever owns them.
    Seen(Key),
    Souls,
    FreshSouls(usize),
    PlayerSouls,
}

/// What a number register is filled with.
#[derive(Debug, Clone, Copy, PartialEq, Eq, Structural)]
pub enum Measure {
    MicroOf(Card),
    ZoneOf(Card),
    CountOf(Key, bool),
}

/// Who owns a card to be created.
#[derive(Debug, Clone, Copy, PartialEq, Eq, Structural)]
pub enum Owner {
    Player,
    Of(Card),
}

/// Where a card is put.
#[derive(Debug, Clone, Copy, PartialEq, Eq, Structural)]
pub enum Spot {
    /// On top of a card.
    Onto(Card, u8),
    /// Loose in a cell.
    Cell(u8, Place, u8, u8),
}

/// One step of a script.
#[derive(Debug)]
pub enum Step {
    /// Let time pass.
    Pump(u32),
    /// Create a card, and wait for the reply.
    Create(usize, Owner, Key, u8, Place, u8, u8),
    /// Put a card somewhere; it must work.
    Put(usize, Card, Spot),
    /// Put a card somewhere; it must be refused.
    Refused(usize, Card, Spot),
    /// Put a card somewhere once nothing locks it, waiting so often, so long.
    Coax(usize, Card, Spot, u32, u32),
    /// Fill a list register.
    Keep(usize, Query, usize),
    /// Fill a number register.
    Mark(usize, Measure, usize),
    /// Fill a cell register with where a card stands.
    Locate(usize, Card, usize),
    /// Send a soul so many tiles east of the cell register: in one step, or along a path.
    Walk(usize, Card, usize, i32, bool),
    /// Wait for the reply to the last call.
    Reply(usize),
    /// The aspect filter must drop no match of a root for a soul.
    Sound(usize, Card, Card),
    /// Forget the outcomes so far.
    Forget,
    /// The check must hold.
    Need(Check),
    /// The check must hold after one of so many waits of so long.
    Poll(u32, u32, Check),
    /// The check must hold, now or after one of so many waits of so long.
    Await(u32, u32, Check),
    /// The second check must hold after one of so many waits of so long, and the first
    /// must not hold before that.
    Guard(u32, u32, Check, Check),
}

/// What one client knows, and what has been heard of it.
pub struct Seat<'a, C: Codec> {
    pub client: &'a Client<C>,
    /// The player that owns each card, through its containers.
    pub owners: &'a OrdMap<u32>,
    /// How its actions ended, since last forgotten.
    pub log: &'a Vec<(String, Option<String>)>,
    /// How many errors it saw.
    pub errors: usize,
}

/// A register's key.
pub open spec fn slot(seat: int, reg: usize) -> u64 {
    (seat * 0x1_0000 + reg % 0x1_0000) as u64
}

/// The first outcome of a recipe.
pub open spec fn first_outcome(
    log: Seq<(Seq<char>, Option<Seq<char>>)>,
    recipe: Seq<char>,
) -> Option<Option<Seq<char>>>
    decreases log.len(),
{
    if log.len() == 0 {
        None
    } else if log[0].0 == recipe {
        Some(log[0].1)
    } else {
        first_outcome(log.skip(1), recipe)
    }
}

impl<'a, C: Codec> Seat<'a, C> {
    pub open spec fn wf(&self) -> bool {
        self.client.wf() && self.owners.wf()
    }

    /// The client's state.
    pub open spec fn state(&self) -> ClientState<C> {
        self.client@
    }

    /// The row of a card, now.
    pub open spec fn row(&self, id: u32) -> Option<CardRow> {
        self.state().world.cards.at(id, self.state().pulse.ms)
    }

    /// The packed definition of a name.
    pub open spec fn def_of(&self, key: Key) -> Option<u16> {
        match self.state().content {
            Some(c) => packed_in(c.cards(), key.text()),
            None => None,
        }
    }

    /// The player of this client.
    pub open spec fn player(&self) -> u32 {
        self.state().caller()
    }

    /// The card is alive, of this definition, and owned by the player, if one is given.
    pub open spec fn owns(&self, key: Key, loose: bool, player: Option<u32>, id: u64) -> bool {
        &&& id <= u32::MAX
        &&& self.row(id as u32) matches Some(row) && self.def_of(key) == Some(
            row.packed_definition,
        ) && !row.dead && (loose ==> row.micro is Loose)
        &&& player matches Some(p) ==> self.owners@.dom().contains(id) && self.owners@[id] == p
    }

    /// The cards of a definition that a player owns; that anyone owns, if none is given.
    pub open spec fn owned(&self, key: Key, loose: bool, player: Option<u32>) -> Set<u64> {
        Set::new(|id: u64| self.owns(key, loose, player, id))
    }

    fn current(&self, id: u32) -> (r: Option<CardRow>)
        requires
            self.wf(),
        ensures
            r == self.row(id),
    {
        match self.client.world().cards.current(id, self.client.clock_ms()) {
            Some(row) => Some(*row),
            None => None,
        }
    }

    fn me(&self) -> (id: u32)
        ensures
            id == self.player(),
    {
        match self.client.player_id() {
            Some(id) => id,
            None => 0,
        }
    }

    /// The cards of a definition that a player owns, ascending; that anyone owns, if none
    /// is given.
    pub fn owned_cards(&self, key: Key, loose: bool, player: Option<u32>) -> (ids: Vec<u32>)
        requires
            self.wf(),
        ensures
            lists_set(ids@, self.owned(key, loose, player)),
            ids@ == listing(self.owned(key, loose, player)),
    {
        let mut ids: Vec<u32> = Vec::new();
        let name = key.name();
        let now: u64 = self.client.clock_ms();
        let ghost set = self.owned(key, loose, player);
        let def: u16 = match self.client.packed_def(name.as_str()) {
            Some(d) => d,
            None => {
                proof {
                    assert(lists_set(ids@, set));
                    lemma_listing(ids@, set);
                }
                return ids;
            },
        };
        let rows = self.client.world().cards.current_all(now);
        let n: usize = rows.len();
        let mut i: usize = 0;
        while i < n
            invariant
                self.wf(),
                self.def_of(key) == Some(def),
                now == self.state().pulse.ms,
                set == self.owned(key, loose, player),
                is_current_all(self.state().world.cards, now, rows@),
                n == rows@.len(),
                i <= n,
                forall|a: int, b: int|
                    0 <= a < b < ids@.len() ==> #[trigger] ids@[a] < #[trigger] ids@[b],
                forall|a: int|
                    0 <= a < ids@.len() ==> self.owns(key, loose, player, #[trigger] ids@[a] as u64),
                forall|a: int, p: int|
                    0 <= a < ids@.len() && i <= p < n ==> #[trigger] ids@[a] < (
                    #[trigger] rows@[p]).card_id,
                forall|p: int|
                    0 <= p < i && self.owns(
                        key,
                        loose,
                        player,
                        (#[trigger] rows@[p]).card_id as u64,
                    ) ==> ids@.contains(rows@[p].card_id),
            decreases n - i,
        {
            let row: CardRow = *rows[i];
            let ghost before = ids@;
            assert(self.row(rows@[i as int].card_id) == Some(row));
            let is_loose: bool = match row.micro {
                Micro::Loose { .. } => true,
                Micro::Stacked { .. } => false,
            };
            let ours: bool = match player {
                Some(who) => match self.owners.get(row.card_id as u64) {
                    Some(p) => *p == who,
                    None => false,
                },
                None => true,
            };
            if row.packed_definition == def && !row.dead && (!loose || is_loose) && ours {
                ids.push(row.card_id);
                assert(ids@[before.len() as int] == row.card_id);
            }
            proof {
                assert forall|p: int|
                    0 <= p < i + 1 && self.owns(
                        key,
                        loose,
                        player,
                        (#[trigger] rows@[p]).card_id as u64,
                    ) implies ids@.contains(rows@[p].card_id) by {
                    if p < i {
                        let a = before.index_of(rows@[p].card_id);
                        assert(ids@[a] == before[a]);
                    }
                }
            }
            i = i + 1;
        }
        proof {
            assert forall|k: u64| #[trigger] set.contains(k) <==> k <= u32::MAX && ids@.contains(
                k as u32,
            ) by {
                if set.contains(k) {
                    let id = k as u32;
                    assert(self.state().world.cards.at(id, now) is Some);
                    let p = choose|p: int|
                        0 <= p < rows@.len() && (#[trigger] rows@[p]).card_id == id;
                    assert(rows@[p].card_id == id);
                    assert(id as u64 == k);
                }
                if k <= u32::MAX && ids@.contains(k as u32) {
                    let a = ids@.index_of(k as u32);
                    assert(ids@[a] == k as u32);
                    assert((k as u32) as u64 == k);
                }
            }
            lemma_listing(ids@, set);
        }
        ids
    }
}

/// What a check is made against.
#[verifier::reject_recursive_types(C)]
pub ghost struct Env<'a, C: Codec> {
    pub seats: Seq<Seat<'a, C>>,
    pub regs: Map<u64, Seq<u32>>,
    pub marks: Map<u64, u64>,
    pub cells: Map<u64, (i32, i32)>,
    pub me: int,
    pub peer: int,
}

impl<'a, C: Codec> Env<'a, C> {
    /// The client a check is made at.
    pub open spec fn seat(self) -> Seat<'a, C> {
        self.seats[self.me]
    }

    /// The same, at another client.
    pub open spec fn at(self, i: int) -> Env<'a, C> {
        Env { me: i, ..self }
    }

    /// The same, looking at another client.
    pub open spec fn facing(self, i: int) -> Env<'a, C> {
        Env { peer: i, ..self }
    }

    /// The same, the other way round.
    pub open spec fn swapped(self) -> Env<'a, C> {
        Env { me: self.peer, peer: self.me, ..self }
    }

    /// The number of a client.
    pub open spec fn index_of(self, who: Who) -> int {
        match who {
            Who::Me => self.me,
            Who::Peer => self.peer,
            Who::At(i) => i as int,
        }
    }

    /// The card in a register.
    pub open spec fn card(self, c: Card) -> Option<u32> {
        let i = self.index_of(c.who);
        let k = slot(i, c.reg);
        if i < self.seats.len() && self.regs.dom().contains(k) && c.at < self.regs[k].len() {
            Some(self.regs[k][c.at as int])
        } else {
            None
        }
    }

    /// The row of the card in a register, as the client sees it.
    pub open spec fn row(self, c: Card) -> Option<CardRow> {
        match self.card(c) {
            Some(id) => self.seat().row(id),
            None => None,
        }
    }

    /// The number in a register.
    pub open spec fn mark(self, who: Who, reg: usize) -> Option<u64> {
        let i = self.index_of(who);
        let k = slot(i, reg);
        if i < self.seats.len() && self.marks.dom().contains(k) {
            Some(self.marks[k])
        } else {
            None
        }
    }

    /// The cell so many tiles east of a cell register, if it is on the map.
    pub open spec fn east(self, reg: usize, dx: i32) -> Option<(i32, i32)> {
        let k = slot(self.me, reg);
        if self.cells.dom().contains(k) && i32::MIN <= self.cells[k].0 + dx <= i32::MAX {
            Some(((self.cells[k].0 + dx) as i32, self.cells[k].1))
        } else {
            None
        }
    }

    /// Where the card in a register stands.
    pub open spec fn cell_of(self, c: Card) -> Option<(i32, i32)> {
        match self.card(c) {
            Some(id) => self.seat().state().cell_of(id),
            None => None,
        }
    }

    /// A zone.
    pub open spec fn zone(self, p: Place) -> Option<u64> {
        match p {
            Place::Zone(z) => Some(z),
            Place::Inventory(c) => match self.card(c) {
                Some(id) => Some(self.seat().state().realm.zones.inventory_of(id)),
                None => None,
            },
            Place::Marked(who, reg) => self.mark(who, reg),
        }
    }

    /// A recipe is queued.
    pub open spec fn queued(self, recipe: Recipe, waiting: bool) -> bool {
        let q = self.seat().state().queue;
        exists|k: u64| #[trigger]
            q.actions.dom().contains(k) && q.actions[k].recipe == recipe.text() && (waiting
                ==> !q.in_flight(k))
    }

    /// What we own.
    pub open spec fn ours(self, key: Key, loose: bool) -> Seq<u32> {
        listing(self.seat().owned(key, loose, Some(self.seat().player())))
    }

    /// The player of the other client.
    pub open spec fn peer_player(self) -> u32 {
        self.seats[self.peer].player()
    }
}

impl Check {
    /// The check holds.
    pub open spec fn holds<'a, C: Codec>(&self, env: Env<'a, C>) -> bool
        decreases self,
    {
        let s = env.seat().state();
        match self {
            Check::Both(a, b) => a.holds(env) && b.holds(env),
            Check::Not(a) => !a.holds(env),
            Check::At(i, a) => (*i as int) < env.seats.len() && a.holds(env.at(*i as int)),
            Check::Each(a) => forall|i: int|
                0 <= i < env.seats.len() ==> a.holds(#[trigger] env.at(i)),
            Check::Peers(a) => forall|i: int|
                0 <= i < env.seats.len() && i != env.me ==> a.holds(#[trigger] env.facing(i)),
            Check::There(a) => a.holds(env.swapped()),
            Check::Defined(key) => env.seat().def_of(*key) is Some,
            Check::Queued(r) => env.queued(*r, false),
            Check::Waiting(r) => env.queued(*r, true),
            Check::AnyInFlight => exists|k: u64| #[trigger]
                s.queue.actions.dom().contains(k) && s.queue.in_flight(k),
            Check::AnyQueued => exists|k: u64| #[trigger] s.queue.actions.dom().contains(k),
            Check::Accepted(r) => first_outcome(ends(env.seat().log@), r.text()) == Some(
                None::<Seq<char>>,
            ),
            Check::Ended(r) => exists|i: int|
                0 <= i < env.seat().log@.len() && (#[trigger] env.seat().log@[i]).0@ == r.text(),
            Check::Rejected(r) => exists|i: int|
                0 <= i < env.seat().log@.len() && (#[trigger] env.seat().log@[i]).0@ == r.text()
                    && env.seat().log@[i].1 is Some,
            Check::AnyRejected => exists|i: int|
                0 <= i < env.seat().log@.len() && (#[trigger] env.seat().log@[i]).1 is Some,
            Check::AnyOutcome => env.seat().log@.len() > 0,
            Check::AnyError => env.seat().errors > 0,
            Check::Known(c) => env.row(*c) is Some,
            Check::Dead(c) => env.row(*c) matches Some(row) && row.dead,
            Check::Alive(c) => env.row(*c) matches Some(row) && !row.dead,
            Check::Loose(c) => env.row(*c) matches Some(row) && row.micro is Loose,
            Check::StackedOn(c, base) => env.card(*base) is Some && (env.row(*c) matches Some(row)
                && (row.micro matches Micro::Stacked { root, .. } && Some(root) == env.card(*base))),
            Check::StackedAt(c, base, b, n) => env.card(*base) is Some && (env.row(
                *c,
            ) matches Some(row) && (row.micro matches Micro::Stacked { root, branch, index }
                && Some(root) == env.card(*base) && branch == *b && index == *n)),
            Check::StackedAs(c, base, n) => env.card(*base) is Some && (env.row(
                *c,
            ) matches Some(row) && (row.micro matches Micro::Stacked { root, index, .. } && Some(
                root,
            ) == env.card(*base) && index == *n)),
            Check::Follows(a, b) => env.row(*a) matches Some(x) && (env.row(*b) matches Some(y) && (
            x.micro matches Micro::Stacked { index: i, .. } && (y.micro matches Micro::Stacked {
                index: j,
                ..
            } && j == i + 1))),
            Check::InZone(c, p) => env.row(*c) matches Some(row) && env.zone(*p) == Some(
                row.macro_zone,
            ),
            Check::MicroIs(c, who, reg) => env.row(*c) matches Some(row) && env.mark(*who, *reg)
                == Some(row.micro_location as u64),
            Check::Stock(c, n) => env.row(*c) matches Some(row) && row.stock.s0 == *n,
            Check::StockFrom(c, n) => env.row(*c) matches Some(row) && row.stock.s0 >= *n,
            Check::PosHeld(c) => env.row(*c) matches Some(row) && row.pos_held,
            Check::SlotHeld(c) => env.row(*c) matches Some(row) && row.stock.claimed,
            Check::Same(a, b) => env.card(*a) is Some && env.card(*a) == env.card(*b),
            Check::IsSoul(c) => env.card(*c) matches Some(id) && s.realm.souls.dom().contains(
                id as u64,
            ),
            Check::Finds(q, n) => env.found(*q).len() >= *n,
            Check::More(key, loose, reg) => env.mark(Who::Me, *reg) matches Some(n) && env.ours(
                *key,
                *loose,
            ).len() > n,
            Check::SeesPeers(key) => 0 <= env.peer < env.seats.len() && listing(
                env.seat().owned(*key, false, Some(env.peer_player())),
            ).len() > 0,
            Check::AllDead(reg) => {
                let k = slot(env.me, *reg);
                env.regs.dom().contains(k) && forall|i: int|
                    0 <= i < env.regs[k].len() ==> (env.seat().row(#[trigger] env.regs[k][i]) matches Some(
                        row,
                    ) && row.dead)
            },
            Check::Occupied(p) => env.zone(*p) matches Some(z) && exists|id: u32|
                (#[trigger] s.world.cards.at(id, s.pulse.ms)) matches Some(row) && row.macro_zone
                    == z,
            Check::WatchedByAll(p) => env.zone(*p) matches Some(z) && s.moves.watchers(z)
                == env.seats.len(),
            Check::AtCell(c, reg, dx) => env.cell_of(*c) is Some && env.cell_of(*c) == env.east(
                *reg,
                *dx,
            ),
        }
    }
}

/// Registers of a run.
pub struct Regs {
    lists: OrdMap<Vec<u32>>,
    marks: OrdMap<u64>,
    cells: OrdMap<(i32, i32)>,
}

/// The lists of registers, as values.
pub open spec fn lists_of(m: Map<u64, Vec<u32>>) -> Map<u64, Seq<u32>> {
    m.map_values(|v: Vec<u32>| v@)
}

impl Regs {
    pub closed spec fn wf(&self) -> bool {
        self.lists.wf() && self.marks.wf() && self.cells.wf()
    }

    pub closed spec fn lists(&self) -> Map<u64, Seq<u32>> {
        lists_of(self.lists@)
    }

    pub closed spec fn marks(&self) -> Map<u64, u64> {
        self.marks@
    }

    pub closed spec fn cells(&self) -> Map<u64, (i32, i32)> {
        self.cells@
    }

    pub fn new() -> (r: Self)
        ensures
            r.wf(),
            r.lists() == Map::<u64, Seq<u32>>::empty(),
            r.marks() == Map::<u64, u64>::empty(),
            r.cells() == Map::<u64, (i32, i32)>::empty(),
    {
        let r = Regs { lists: OrdMap::new(), marks: OrdMap::new(), cells: OrdMap::new() };
        assert(r.lists() =~= Map::empty());
        r
    }

    fn keep(&mut self, k: u64, ids: Vec<u32>)
        requires
            old(self).wf(),
        ensures
            final(self).wf(),
            final(self).lists() == old(self).lists().insert(k, ids@),
            final(self).marks() == old(self).marks(),
            final(self).cells() == old(self).cells(),
    {
        let ghost o = self.lists();
        self.lists.insert(k, ids);
        assert(self.lists() =~= o.insert(k, ids@));
    }

    fn mark(&mut self, k: u64, n: u64)
        requires
            old(self).wf(),
        ensures
            final(self).wf(),
            final(self).lists() == old(self).lists(),
            final(self).marks() == old(self).marks().insert(k, n),
            final(self).cells() == old(self).cells(),
    {
        self.marks.insert(k, n);
    }

    fn locate(&mut self, k: u64, cell: (i32, i32))
        requires
            old(self).wf(),
        ensures
            final(self).wf(),
            final(self).lists() == old(self).lists(),
            final(self).marks() == old(self).marks(),
            final(self).cells() == old(self).cells().insert(k, cell),
    {
        self.cells.insert(k, cell);
    }
}

/// A register's key.
fn slot_key(seat: usize, reg: usize) -> (k: u64)
    requires
        seat < 0x1_0000,
    ensures
        k == slot(seat as int, reg),
{
    seat as u64 * 0x1_0000 + (reg % 0x1_0000) as u64
}

/// The clients, the registers, and where a check is made.
pub struct Look<'a, 'b, C: Codec> {
    pub seats: &'b Vec<Seat<'a, C>>,
    pub regs: &'b Regs,
    pub me: usize,
    pub peer: usize,
}

impl<'a, 'b, C: Codec> Look<'a, 'b, C> {
    /// The clients are sound, and there are few enough of them.
    pub open spec fn wf(&self) -> bool {
        &&& self.regs.wf()
        &&& self.me < self.seats@.len() <= 0x1_0000
        &&& self.peer < self.seats@.len()
        &&& forall|i: int| 0 <= i < self.seats@.len() ==> (#[trigger] self.seats@[i]).wf()
    }

    /// What a check is made against.
    pub open spec fn env(&self) -> Env<'a, C> {
        Env {
            seats: self.seats@,
            regs: self.regs.lists(),
            marks: self.regs.marks(),
            cells: self.regs.cells(),
            me: self.me as int,
            peer: self.peer as int,
        }
    }

    fn index(&self, who: Who) -> (i: Option<usize>)
        requires
            self.wf(),
        ensures
            i matches Some(x) ==> x == self.env().index_of(who) && x < self.seats@.len(),
            i is None ==> self.env().index_of(who) >= self.seats@.len(),
    {
        let i: usize = match who {
            Who::Me => self.me,
            Who::Peer => self.peer,
            Who::At(i) => i,
        };
        if i < self.seats.len() {
            Some(i)
        } else {
            None
        }
    }

    /// The card in a register.
    fn card(&self, c: Card) -> (id: Option<u32>)
        requires
            self.wf(),
        ensures
            id == self.env().card(c),
    {
        let i: usize = match self.index(c.who) {
            Some(i) => i,
            None => {
                return None;
            },
        };
        match self.regs.lists.get(slot_key(i, c.reg)) {
            Some(ids) => if c.at < ids.len() {
                Some(ids[c.at])
            } else {
                None
            },
            None => None,
        }
    }

    /// The row of the card in a register, as the client sees it.
    fn row(&self, c: Card) -> (r: Option<CardRow>)
        requires
            self.wf(),
        ensures
            r == self.env().row(c),
    {
        match self.card(c) {
            Some(id) => self.seats[self.me].current(id),
            None => None,
        }
    }

    /// The number in a register.
    fn mark(&self, who: Who, reg: usize) -> (n: Option<u64>)
        requires
            self.wf(),
        ensures
            n == self.env().mark(who, reg),
    {
        match self.index(who) {
            Some(i) => match self.regs.marks.get(slot_key(i, reg)) {
                Some(n) => Some(*n),
                None => None,
            },
            None => None,
        }
    }

    /// The cell so many tiles east of a cell register, if it is on the map.
    fn east(&self, reg: usize, dx: i32) -> (cell: Option<(i32, i32)>)
        requires
            self.wf(),
        ensures
            cell == self.env().east(reg, dx),
    {
        match self.regs.cells.get(slot_key(self.me, reg)) {
            Some(c) => match c.0.checked_add(dx) {
                Some(q) => Some((q, c.1)),
                None => None,
            },
            None => None,
        }
    }

    /// Where the card in a register stands.
    fn cell_of(&self, c: Card) -> (cell: Option<(i32, i32)>)
        requires
            self.wf(),
        ensures
            cell == self.env().cell_of(c),
    {
        match self.card(c) {
            Some(id) => self.seats[self.me].client.soul_cell(id),
            None => None,
        }
    }

    /// A zone.
    fn zone(&self, p: Place) -> (z: Option<u64>)
        requires
            self.wf(),
        ensures
            z == self.env().zone(p),
    {
        match p {
            Place::Zone(z) => Some(z),
            Place::Inventory(c) => match self.card(c) {
                Some(id) => Some(self.seats[self.me].client.zones().inventory(id)),
                None => None,
            },
            Place::Marked(who, reg) => self.mark(who, reg),
        }
    }

    /// Whether a recipe is queued.
    fn queued(&self, recipe: Recipe, waiting: bool) -> (b: bool)
        requires
            self.wf(),
        ensures
            b == self.env().queued(recipe, waiting),
    {
        let name = recipe.name();
        let list = self.seats[self.me].client.queued();
        let ghost q = self.env().seat().state().queue;
        let n: usize = list.len();
        let mut i: usize = 0;
        while i < n
            invariant
                n == list@.len(),
                i <= n,
                name@ == recipe.text(),
                forall|j: int|
                    0 <= j < list@.len() ==> q.actions.dom().contains(
                        (#[trigger] list@[j]).0 as u64,
                    ) && list@[j].1@ == q.actions[list@[j].0 as u64].recipe && list@[j].2
                        == q.in_flight(list@[j].0 as u64),
                forall|j: int|
                    0 <= j < i ==> !((#[trigger] list@[j]).1@ == name@ && (waiting
                        ==> !list@[j].2)),
                q == self.env().seat().state().queue,
            decreases n - i,
        {
            if list[i].1 == name && (!waiting || !list[i].2) {
                assert(q.actions.dom().contains(list@[i as int].0 as u64));
                return true;
            }
            i = i + 1;
        }
        proof {
            assert forall|k: u64| #[trigger] q.actions.dom().contains(k) implies !(
            q.actions[k].recipe == recipe.text() && (waiting ==> !q.in_flight(k))) by {
                let j = choose|j: int| 0 <= j < list@.len() && (#[trigger] list@[j]).0 as u64 == k;
                assert(list@[j].0 as u64 == k);
            }
        }
        false
    }

    /// Whether something is queued, or in flight.
    fn any_queued(&self, in_flight: bool) -> (b: bool)
        requires
            self.wf(),
        ensures
            b == exists|k: u64| #[trigger]
                self.env().seat().state().queue.actions.dom().contains(k) && (in_flight
                    ==> self.env().seat().state().queue.in_flight(k)),
    {
        let list = self.seats[self.me].client.queued();
        let ghost q = self.env().seat().state().queue;
        let n: usize = list.len();
        let mut i: usize = 0;
        while i < n
            invariant
                n == list@.len(),
                i <= n,
                forall|j: int|
                    0 <= j < list@.len() ==> q.actions.dom().contains(
                        (#[trigger] list@[j]).0 as u64,
                    ) && list@[j].2 == q.in_flight(list@[j].0 as u64),
                forall|j: int| 0 <= j < i ==> in_flight && !(#[trigger] list@[j]).2,
                q == self.env().seat().state().queue,
            decreases n - i,
        {
            if !in_flight || list[i].2 {
                assert(q.actions.dom().contains(list@[i as int].0 as u64));
                return true;
            }
            i = i + 1;
        }
        proof {
            assert forall|k: u64| #[trigger] q.actions.dom().contains(k) implies in_flight
                && !q.in_flight(k) by {
                let j = choose|j: int| 0 <= j < list@.len() && (#[trigger] list@[j]).0 as u64 == k;
                assert(list@[j].0 as u64 == k);
            }
        }
        false
    }

    /// Whether the first outcome of a recipe is that it was accepted.
    fn accepted(&self, recipe: Recipe) -> (b: bool)
        requires
            self.wf(),
        ensures
            b == (first_outcome(ends(self.env().seat().log@), recipe.text()) == Some(
                None::<Seq<char>>,
            )),
    {
        let name = recipe.name();
        let log = self.seats[self.me].log;
        let ghost all = ends(log@);
        let n: usize = log.len();
        let mut i: usize = 0;
        assert(all.skip(0) =~= all);
        while i < n
            invariant
                n == log@.len(),
                i <= n,
                log@ == self.env().seat().log@,
                all == ends(log@),
                name@ == recipe.text(),
                first_outcome(all, recipe.text()) == first_outcome(
                    all.skip(i as int),
                    recipe.text(),
                ),
            decreases n - i,
        {
            assert(all.skip(i as int)[0] == all[i as int]);
            assert(all.skip(i as int).skip(1) =~= all.skip(i + 1));
            if log[i].0 == name {
                return log[i].1.is_none();
            }
            i = i + 1;
        }
        false
    }

    /// Whether a recipe ended; was rejected, if asked.
    fn ended(&self, recipe: Recipe, rejected: bool) -> (b: bool)
        requires
            self.wf(),
        ensures
            b == exists|i: int|
                0 <= i < self.env().seat().log@.len() && (#[trigger] self.env().seat().log@[i]).0@
                    == recipe.text() && (rejected ==> self.env().seat().log@[i].1 is Some),
    {
        let name = recipe.name();
        let log = self.seats[self.me].log;
        let n: usize = log.len();
        let mut i: usize = 0;
        while i < n
            invariant
                n == log@.len(),
                i <= n,
                log@ == self.env().seat().log@,
                name@ == recipe.text(),
                forall|j: int|
                    0 <= j < i ==> !((#[trigger] log@[j]).0@ == name@ && (rejected
                        ==> log@[j].1 is Some)),
            decreases n - i,
        {
            if log[i].0 == name && (!rejected || log[i].1.is_some()) {
                assert(self.env().seat().log@[i as int].0@ == name@);
                return true;
            }
            i = i + 1;
        }
        false
    }

    /// Whether some action was rejected.
    fn any_rejected(&self) -> (b: bool)
        requires
            self.wf(),
        ensures
            b == exists|i: int|
                0 <= i < self.env().seat().log@.len() && (#[trigger] self.env().seat().log@[i]).1 is Some,
    {
        let log = self.seats[self.me].log;
        let n: usize = log.len();
        let mut i: usize = 0;
        while i < n
            invariant
                n == log@.len(),
                i <= n,
                log@ == self.env().seat().log@,
                forall|j: int| 0 <= j < i ==> (#[trigger] log@[j]).1 is None,
            decreases n - i,
        {
            if log[i].1.is_some() {
                assert(self.env().seat().log@[i as int].1 is Some);
                return true;
            }
            i = i + 1;
        }
        false
    }

    /// What we own.
    fn ours(&self, key: Key, loose: bool) -> (ids: Vec<u32>)
        requires
            self.wf(),
        ensures
            ids@ == self.env().ours(key, loose),
    {
        let seat = &self.seats[self.me];
        let me: u32 = seat.me();
        seat.owned_cards(key, loose, Some(me))
    }

    /// Whether every card of a list register is dead.
    fn all_dead(&self, reg: usize) -> (b: bool)
        requires
            self.wf(),
        ensures
            b == (Check::AllDead(reg)).holds(self.env()),
    {
        let seat = &self.seats[self.me];
        let ids = match self.regs.lists.get(slot_key(self.me, reg)) {
            Some(ids) => ids,
            None => {
                return false;
            },
        };
        let ghost k = slot(self.me as int, reg);
        let n: usize = ids.len();
        let mut i: usize = 0;
        while i < n
            invariant
                self.wf(),
                n == ids@.len(),
                i <= n,
                seat == self.seats@[self.me as int],
                k == slot(self.me as int, reg),
                self.env().regs.dom().contains(k),
                self.env().regs[k] == ids@,
                forall|j: int|
                    0 <= j < i ==> (seat.row(#[trigger] ids@[j]) matches Some(row) && row.dead),
            decreases n - i,
        {
            let dead: bool = match seat.current(ids[i]) {
                Some(row) => row.dead,
                None => false,
            };
            if !dead {
                assert(!(seat.row(self.env().regs[k][i as int]) matches Some(row) && row.dead));
                return false;
            }
            i = i + 1;
        }
        true
    }

    /// Whether some card is in a zone.
    fn occupied(&self, z: u64) -> (b: bool)
        requires
            self.wf(),
        ensures
            b == exists|id: u32|
                (#[trigger] self.env().seat().state().world.cards.at(
                    id,
                    self.env().seat().state().pulse.ms,
                )) matches Some(row) && row.macro_zone == z,
    {
        let client = self.seats[self.me].client;
        let now: u64 = client.clock_ms();
        let ghost s = self.env().seat().state();
        let rows = client.world().cards.current_all(now);
        let n: usize = rows.len();
        let mut i: usize = 0;
        while i < n
            invariant
                n == rows@.len(),
                i <= n,
                s == self.env().seat().state(),
                now == s.pulse.ms,
                is_current_all(s.world.cards, now, rows@),
                forall|j: int| 0 <= j < i ==> (#[trigger] rows@[j]).macro_zone != z,
            decreases n - i,
        {
            if rows[i].macro_zone == z {
                assert(s.world.cards.at(rows@[i as int].card_id, now) == Some(*rows@[i as int]));
                return true;
            }
            i = i + 1;
        }
        proof {
            assert forall|id: u32|
                !((#[trigger] s.world.cards.at(id, now)) matches Some(row) && row.macro_zone == z) by {
                if s.world.cards.at(id, now) is Some {
                    let p = choose|p: int|
                        0 <= p < rows@.len() && (#[trigger] rows@[p]).card_id == id;
                    assert(rows@[p].card_id == id);
                    assert(s.world.cards.at(rows@[p].card_id, now) == Some(*rows@[p]));
                }
            }
        }
        false
    }

    /// Whether a check holds.
    pub fn holds(&self, check: &Check) -> (b: bool)
        requires
            self.wf(),
        ensures
            b == check.holds(self.env()),
        decreases check,
    {
        match check {
            Check::Both(a, b) => {
                let x = self.holds(a);
                let y = self.holds(b);
                x && y
            },
            Check::Not(a) => !self.holds(a),
            Check::At(i, a) => {
                if *i >= self.seats.len() {
                    return false;
                }
                let there = Look { seats: self.seats, regs: self.regs, me: *i, peer: self.peer };
                assert(there.env() == self.env().at(*i as int));
                there.holds(a)
            },
            Check::Each(a) => {
                let n: usize = self.seats.len();
                let mut i: usize = 0;
                while i < n
                    invariant
                        self.wf(),
                        n == self.seats@.len(),
                        i <= n,
                        *check == Check::Each(*a),
                        decreases_to!(check => a),
                        forall|j: int| 0 <= j < i ==> a.holds(#[trigger] self.env().at(j)),
                    decreases n - i,
                {
                    let there = Look { seats: self.seats, regs: self.regs, me: i, peer: self.peer };
                    assert(there.env() == self.env().at(i as int));
                    if !there.holds(a) {
                        return false;
                    }
                    i = i + 1;
                }
                true
            },
            Check::Peers(a) => {
                let n: usize = self.seats.len();
                let mut i: usize = 0;
                while i < n
                    invariant
                        self.wf(),
                        n == self.seats@.len(),
                        i <= n,
                        *check == Check::Peers(*a),
                        decreases_to!(check => a),
                        forall|j: int|
                            0 <= j < i && j != self.me ==> a.holds(#[trigger] self.env().facing(j)),
                    decreases n - i,
                {
                    if i != self.me {
                        let there = Look {
                            seats: self.seats,
                            regs: self.regs,
                            me: self.me,
                            peer: i,
                        };
                        assert(there.env() == self.env().facing(i as int));
                        if !there.holds(a) {
                            return false;
                        }
                    }
                    i = i + 1;
                }
                true
            },
            Check::There(a) => {
                let there = Look {
                    seats: self.seats,
                    regs: self.regs,
                    me: self.peer,
                    peer: self.me,
                };
                assert(there.env() == self.env().swapped());
                there.holds(a)
            },
            _ => self.sees(check),
        }
    }

    /// Whether a plain check holds.
    fn sees(&self, check: &Check) -> (b: bool)
        requires
            self.wf(),
            !(check is Both || check is Not || check is At || check is Each || check is Peers
                || check is There),
        ensures
            b == check.holds(self.env()),
    {
        let seat = &self.seats[self.me];
        match check {
            Check::Defined(key) => {
                let name = key.name();
                seat.client.packed_def(name.as_str()).is_some()
            },
            Check::Queued(r) => self.queued(*r, false),
            Check::Waiting(r) => self.queued(*r, true),
            Check::AnyInFlight => self.any_queued(true),
            Check::AnyQueued => self.any_queued(false),
            Check::Accepted(r) => self.accepted(*r),
            Check::Ended(r) => self.ended(*r, false),
            Check::Rejected(r) => self.ended(*r, true),
            Check::AnyRejected => self.any_rejected(),
            Check::AnyOutcome => seat.log.len() > 0,
            Check::AnyError => seat.errors > 0,
            Check::Known(c) => self.row(*c).is_some(),
            Check::Dead(c) => match self.row(*c) {
                Some(row) => row.dead,
                None => false,
            },
            Check::Alive(c) => match self.row(*c) {
                Some(row) => !row.dead,
                None => false,
            },
            Check::Loose(c) => match self.row(*c) {
                Some(row) => match row.micro {
                    Micro::Loose { .. } => true,
                    Micro::Stacked { .. } => false,
                },
                None => false,
            },
            Check::StackedOn(c, base) => match (self.row(*c), self.card(*base)) {
                (Some(row), Some(id)) => match row.micro {
                    Micro::Stacked { root, .. } => root == id,
                    Micro::Loose { .. } => false,
                },
                _ => false,
            },
            Check::StackedAt(c, base, b, n) => match (self.row(*c), self.card(*base)) {
                (Some(row), Some(id)) => match row.micro {
                    Micro::Stacked { root, branch, index } => root == id && branch == *b && index
                        == *n,
                    Micro::Loose { .. } => false,
                },
                _ => false,
            },
            Check::StackedAs(c, base, n) => match (self.row(*c), self.card(*base)) {
                (Some(row), Some(id)) => match row.micro {
                    Micro::Stacked { root, index, .. } => root == id && index == *n,
                    Micro::Loose { .. } => false,
                },
                _ => false,
            },
            Check::Follows(a, b) => match (self.row(*a), self.row(*b)) {
                (Some(x), Some(y)) => match (x.micro, y.micro) {
                    (Micro::Stacked { index: i, .. }, Micro::Stacked { index: j, .. }) => j as u32
                        == i as u32 + 1,
                    _ => false,
                },
                _ => false,
            },
            Check::InZone(c, p) => match (self.row(*c), self.zone(*p)) {
                (Some(row), Some(z)) => row.macro_zone == z,
                _ => false,
            },
            Check::MicroIs(c, who, reg) => match (self.row(*c), self.mark(*who, *reg)) {
                (Some(row), Some(n)) => n == row.micro_location as u64,
                _ => false,
            },
            Check::Stock(c, n) => match self.row(*c) {
                Some(row) => row.stock.s0 == *n,
                None => false,
            },
            Check::StockFrom(c, n) => match self.row(*c) {
                Some(row) => row.stock.s0 >= *n,
                None => false,
            },
            Check::PosHeld(c) => match self.row(*c) {
                Some(row) => row.pos_held,
                None => false,
            },
            Check::SlotHeld(c) => match self.row(*c) {
                Some(row) => row.stock.claimed,
                None => false,
            },
            Check::Same(a, b) => match (self.card(*a), self.card(*b)) {
                (Some(x), Some(y)) => x == y,
                _ => false,
            },
            Check::IsSoul(c) => match self.card(*c) {
                Some(id) => {
                    let ids = seat.client.souls();
                    let is = holds_id(&ids, id);
                    assert((id as u64) as u32 == id);
                    is
                },
                None => false,
            },
            Check::Finds(q, n) => self.find(*q).len() >= *n,
            Check::More(key, loose, reg) => match self.mark(Who::Me, *reg) {
                Some(n) => self.ours(*key, *loose).len() as u64 > n,
                None => false,
            },
            Check::SeesPeers(key) => {
                let player: u32 = self.seats[self.peer].me();
                seat.owned_cards(*key, false, Some(player)).len() > 0
            },
            Check::AllDead(reg) => self.all_dead(*reg),
            Check::Occupied(p) => match self.zone(*p) {
                Some(z) => self.occupied(z),
                None => false,
            },
            Check::WatchedByAll(p) => match self.zone(*p) {
                Some(z) => seat.client.observers(z) as usize == self.seats.len(),
                None => false,
            },
            Check::AtCell(c, reg, dx) => match (self.cell_of(*c), self.east(*reg, *dx)) {
                (Some(a), Some(b)) => a.0 == b.0 && a.1 == b.1,
                _ => false,
            },
            _ => false,
        }
    }
}

/// Whether a list holds an id.
fn holds_id(ids: &Vec<u32>, id: u32) -> (b: bool)
    ensures
        b == ids@.contains(id),
{
    let n: usize = ids.len();
    let mut i: usize = 0;
    while i < n
        invariant
            n == ids@.len(),
            i <= n,
            forall|j: int| 0 <= j < i ==> ids@[j] != id,
        decreases n - i,
    {
        if ids[i] == id {
            assert(ids@[i as int] == id);
            return true;
        }
        i = i + 1;
    }
    false
}

/// The next thing to do.
#[derive(Debug, Clone, Copy, PartialEq, Eq, Structural)]
pub enum Action {
    /// Let this many milliseconds pass.
    Pump(u32),
    /// Create a card and wait for the reply.
    Create { seat: usize, owner: u32, key: Key, surface: u8, macro_zone: u64, q: u8, r: u8 },
    /// Put a card somewhere, and tell whether it worked.
    Put { seat: usize, card_id: u32, at: Placement },
    /// Match a root with and without the filter, and tell whether they agree.
    Compare { seat: usize, soul: u32, root: u32 },
    /// Send a soul to a world tile: in one step, or along a path.
    Walk { seat: usize, soul: u32, q: i32, r: i32, far: bool },
    /// Wait for the reply to the last call.
    Reply { seat: usize },
    /// Forget the outcomes so far.
    Forget,
    /// Nothing; go on.
    Go,
    /// The script is done.
    Passed,
    /// The step failed.
    Failed(usize),
}

/// The ids that another list does not hold.
pub open spec fn without(ids: Seq<u32>, other: Seq<u32>) -> Seq<u32>
    decreases ids.len(),
{
    if ids.len() == 0 {
        ids
    } else {
        let before = without(ids.drop_last(), other);
        if other.contains(ids.last()) {
            before
        } else {
            before.push(ids.last())
        }
    }
}

/// The ids that another list does not hold.
fn leave_out(ids: &Vec<u32>, other: &Vec<u32>) -> (out: Vec<u32>)
    ensures
        out@ == without(ids@, other@),
{
    let n: usize = ids.len();
    let mut out: Vec<u32> = Vec::new();
    let mut i: usize = 0;
    assert(ids@.take(0) =~= Seq::empty());
    assert(out@ =~= Seq::empty());
    while i < n
        invariant
            n == ids@.len(),
            i <= n,
            out@ == without(ids@.take(i as int), other@),
        decreases n - i,
    {
        assert(ids@.take(i + 1).drop_last() =~= ids@.take(i as int));
        assert(ids@.take(i + 1).last() == ids@[i as int]);
        if !holds_id(other, ids[i]) {
            out.push(ids[i]);
        }
        i = i + 1;
    }
    assert(ids@.take(n as int) =~= ids@);
    out
}

impl<'a, C: Codec> Env<'a, C> {
    /// The list in a register of the client; empty if there is none.
    pub open spec fn list(self, reg: usize) -> Seq<u32> {
        let k = slot(self.me, reg);
        if self.regs.dom().contains(k) {
            self.regs[k]
        } else {
            Seq::empty()
        }
    }

    /// What a query finds.
    pub open spec fn found(self, q: Query) -> Seq<u32> {
        let realm = self.seat().state().realm;
        match q {
            Query::Owned(key, loose) => self.ours(key, loose),
            Query::Fresh(key, loose, than) => without(self.ours(key, loose), self.list(than)),
            Query::Seen(key) => listing(self.seat().owned(key, false, None)),
            Query::Souls => listing(realm.souls.dom()),
            Query::FreshSouls(than) => without(listing(realm.souls.dom()), self.list(than)),
            Query::PlayerSouls => listing(realm.player_souls),
        }
    }

    /// What a measure gives.
    pub open spec fn measured(self, m: Measure) -> Option<u64> {
        match m {
            Measure::MicroOf(c) => match self.row(c) {
                Some(row) => Some(row.micro_location as u64),
                None => None,
            },
            Measure::ZoneOf(c) => match self.row(c) {
                Some(row) => Some(row.macro_zone),
                None => None,
            },
            Measure::CountOf(key, loose) => Some(self.ours(key, loose).len() as u64),
        }
    }

    /// Where a card is put, by ids.
    pub open spec fn target(self, s: Spot) -> Option<Placement> {
        match s {
            Spot::Onto(c, dir) => match self.card(c) {
                Some(id) => Some(Placement::Stack { parent_id: id, direction: dir }),
                None => None,
            },
            Spot::Cell(surface, p, q, r) => match self.zone(p) {
                Some(z) => Some(Placement::Loose { surface, macro_zone: z, q, r, x: 0, y: 0 }),
                None => None,
            },
        }
    }

    /// Who owns a card to be created.
    pub open spec fn owner(self, o: Owner) -> Option<u32> {
        match o {
            Owner::Player => self.seat().state().player_id,
            Owner::Of(c) => self.card(c),
        }
    }

    /// The action that puts a card somewhere.
    pub open spec fn putting(self, card: Card, spot: Spot) -> Option<Action> {
        match (self.card(card), self.target(spot)) {
            (Some(id), Some(at)) => Some(
                Action::Put { seat: self.me as usize, card_id: id, at },
            ),
            _ => None,
        }
    }
}

impl<'a, 'b, C: Codec> Look<'a, 'b, C> {
    fn list(&self, reg: usize) -> (ids: Vec<u32>)
        requires
            self.wf(),
        ensures
            ids@ == self.env().list(reg),
    {
        match self.regs.lists.get(slot_key(self.me, reg)) {
            Some(ids) => copy_ids(ids),
            None => {
                let ids: Vec<u32> = Vec::new();
                assert(ids@ =~= Seq::empty());
                ids
            },
        }
    }

    fn find(&self, q: Query) -> (ids: Vec<u32>)
        requires
            self.wf(),
        ensures
            ids@ == self.env().found(q),
    {
        let client = self.seats[self.me].client;
        match q {
            Query::Owned(key, loose) => self.ours(key, loose),
            Query::Fresh(key, loose, than) => leave_out(&self.ours(key, loose), &self.list(than)),
            Query::Seen(key) => self.seats[self.me].owned_cards(key, false, None),
            Query::Souls => {
                let ids = client.souls();
                proof {
                    lemma_listing(ids@, self.env().seat().state().realm.souls.dom());
                }
                ids
            },
            Query::FreshSouls(than) => {
                let ids = client.souls();
                proof {
                    lemma_listing(ids@, self.env().seat().state().realm.souls.dom());
                }
                leave_out(&ids, &self.list(than))
            },
            Query::PlayerSouls => {
                let ids = client.player_souls();
                proof {
                    lemma_listing(ids@, self.env().seat().state().realm.player_souls);
                }
                ids
            },
        }
    }

    fn measure(&self, m: Measure) -> (n: Option<u64>)
        requires
            self.wf(),
        ensures
            n == self.env().measured(m),
    {
        match m {
            Measure::MicroOf(c) => match self.row(c) {
                Some(row) => Some(row.micro_location as u64),
                None => None,
            },
            Measure::ZoneOf(c) => match self.row(c) {
                Some(row) => Some(row.macro_zone),
                None => None,
            },
            Measure::CountOf(key, loose) => Some(self.ours(key, loose).len() as u64),
        }
    }

    fn target(&self, s: Spot) -> (t: Option<Placement>)
        requires
            self.wf(),
        ensures
            t == self.env().target(s),
    {
        match s {
            Spot::Onto(c, dir) => match self.card(c) {
                Some(id) => Some(Placement::Stack { parent_id: id, direction: dir }),
                None => None,
            },
            Spot::Cell(surface, p, q, r) => match self.zone(p) {
                Some(z) => Some(Placement::Loose { surface, macro_zone: z, q, r, x: 0, y: 0 }),
                None => None,
            },
        }
    }

    fn put(&self, card: Card, spot: Spot) -> (a: Option<Action>)
        requires
            self.wf(),
        ensures
            a == self.env().putting(card, spot),
    {
        match (self.card(card), self.target(spot)) {
            (Some(id), Some(at)) => Some(Action::Put { seat: self.me, card_id: id, at }),
            _ => None,
        }
    }

    fn owner(&self, o: Owner) -> (id: Option<u32>)
        requires
            self.wf(),
        ensures
            id == self.env().owner(o),
    {
        match o {
            Owner::Player => self.seats[self.me].client.player_id(),
            Owner::Of(c) => self.card(c),
        }
    }
}

/// How far a script has come, as values.
pub ghost struct RunState {
    /// The step it is at.
    pub pc: usize,
    /// How often that step has waited.
    pub tries: u32,
    /// That step has asked for something and waits for the answer.
    pub asked: bool,
    pub lists: Map<u64, Seq<u32>>,
    pub marks: Map<u64, u64>,
    pub cells: Map<u64, (i32, i32)>,
}

impl RunState {
    /// What the registers and the clients say, at one of them.
    pub open spec fn env<'a, C: Codec>(self, seats: Seq<Seat<'a, C>>, seat: usize) -> Env<'a, C> {
        Env {
            seats,
            regs: self.lists,
            marks: self.marks,
            cells: self.cells,
            me: seat as int,
            peer: seat as int,
        }
    }

    /// The step is done.
    pub open spec fn next(self) -> RunState {
        RunState { pc: (self.pc + 1) as usize, tries: 0, asked: false, ..self }
    }

    /// The step asks for something.
    pub open spec fn asking(self) -> RunState {
        RunState { asked: true, ..self }
    }

    /// The step waits, unless it has waited too often.
    pub open spec fn waiting(self, limit: u32, ms: u32) -> (RunState, Action) {
        if self.tries >= limit {
            (self, Action::Failed(self.pc))
        } else {
            (RunState { tries: (self.tries + 1) as u32, asked: false, ..self }, Action::Pump(ms))
        }
    }

    /// One turn: what happens at the current step, given what the clients see, and
    /// whether what was asked for worked.
    pub open spec fn turned<'a, C: Codec>(
        self,
        script: Seq<Step>,
        seats: Seq<Seat<'a, C>>,
        worked: bool,
    ) -> (RunState, Action) {
        let failed = (self, Action::Failed(self.pc));
        if self.pc >= script.len() {
            (self, Action::Passed)
        } else {
            match script[self.pc as int] {
                Step::Pump(ms) => (self.next(), Action::Pump(ms)),
                Step::Forget => (self.next(), Action::Forget),
                Step::Need(c) => if c.holds(self.env(seats, 0)) {
                    (self.next(), Action::Go)
                } else {
                    failed
                },
                Step::Poll(limit, ms, c) => if self.tries > 0 && c.holds(self.env(seats, 0)) {
                    (self.next(), Action::Go)
                } else {
                    self.waiting(limit, ms)
                },
                Step::Await(limit, ms, c) => if c.holds(self.env(seats, 0)) {
                    (self.next(), Action::Go)
                } else {
                    self.waiting(limit, ms)
                },
                Step::Guard(limit, ms, bad, good) => if self.tries > 0 && bad.holds(
                    self.env(seats, 0),
                ) {
                    failed
                } else if self.tries > 0 && good.holds(self.env(seats, 0)) {
                    (self.next(), Action::Go)
                } else {
                    self.waiting(limit, ms)
                },
                Step::Create(seat, owner, key, surface, place, q, r) => if seat >= seats.len() {
                    failed
                } else {
                    let env = self.env(seats, seat);
                    match (env.owner(owner), env.zone(place)) {
                        (Some(owner), Some(macro_zone)) => (
                            self.next(),
                            Action::Create { seat, owner, key, surface, macro_zone, q, r },
                        ),
                        _ => failed,
                    }
                },
                Step::Put(seat, card, spot) => if seat >= seats.len() {
                    failed
                } else if self.asked {
                    if worked {
                        (self.next(), Action::Go)
                    } else {
                        failed
                    }
                } else {
                    match self.env(seats, seat).putting(card, spot) {
                        Some(a) => (self.asking(), a),
                        None => failed,
                    }
                },
                Step::Refused(seat, card, spot) => if seat >= seats.len() {
                    failed
                } else if self.asked {
                    if worked {
                        failed
                    } else {
                        (self.next(), Action::Go)
                    }
                } else {
                    match self.env(seats, seat).putting(card, spot) {
                        Some(a) => (self.asking(), a),
                        None => failed,
                    }
                },
                Step::Coax(seat, card, spot, limit, ms) => if seat >= seats.len() {
                    failed
                } else if self.asked {
                    if worked {
                        (self.next(), Action::Go)
                    } else {
                        self.waiting(limit, ms)
                    }
                } else {
                    let env = self.env(seats, seat);
                    match env.putting(card, spot) {
                        Some(a) => if (Check::PosHeld(card)).holds(env) {
                            self.waiting(limit, ms)
                        } else {
                            (self.asking(), a)
                        },
                        None => failed,
                    }
                },
                Step::Keep(seat, query, reg) => if seat >= seats.len() {
                    failed
                } else {
                    (
                        RunState {
                            lists: self.lists.insert(
                                slot(seat as int, reg),
                                self.env(seats, seat).found(query),
                            ),
                            ..self.next()
                        },
                        Action::Go,
                    )
                },
                Step::Mark(seat, measure, reg) => if seat >= seats.len() {
                    failed
                } else {
                    match self.env(seats, seat).measured(measure) {
                        Some(n) => (
                            RunState {
                                marks: self.marks.insert(slot(seat as int, reg), n),
                                ..self.next()
                            },
                            Action::Go,
                        ),
                        None => failed,
                    }
                },
                Step::Locate(seat, card, reg) => if seat >= seats.len() {
                    failed
                } else {
                    match self.env(seats, seat).cell_of(card) {
                        Some(cell) => (
                            RunState {
                                cells: self.cells.insert(slot(seat as int, reg), cell),
                                ..self.next()
                            },
                            Action::Go,
                        ),
                        None => failed,
                    }
                },
                Step::Walk(seat, card, reg, dx, far) => if seat >= seats.len() {
                    failed
                } else {
                    let env = self.env(seats, seat);
                    match (env.card(card), env.east(reg, dx)) {
                        (Some(soul), Some((q, r))) => (
                            self.next(),
                            Action::Walk { seat, soul, q, r, far },
                        ),
                        _ => failed,
                    }
                },
                Step::Reply(seat) => if seat >= seats.len() {
                    failed
                } else {
                    (self.next(), Action::Reply { seat })
                },
                Step::Sound(seat, soul, root) => if seat >= seats.len() {
                    failed
                } else if self.asked {
                    if worked {
                        (self.next(), Action::Go)
                    } else {
                        failed
                    }
                } else {
                    let env = self.env(seats, seat);
                    match (env.card(soul), env.card(root)) {
                        (Some(soul), Some(root)) => (
                            self.asking(),
                            Action::Compare { seat, soul, root },
                        ),
                        _ => failed,
                    }
                },
            }
        }
    }
}

/// How far a script has come.
pub struct Run {
    pc: usize,
    tries: u32,
    asked: bool,
    regs: Regs,
}

impl View for Run {
    type V = RunState;

    closed spec fn view(&self) -> RunState {
        RunState {
            pc: self.pc,
            tries: self.tries,
            asked: self.asked,
            lists: self.regs.lists(),
            marks: self.regs.marks(),
            cells: self.regs.cells(),
        }
    }
}

impl Run {
    pub closed spec fn wf(&self) -> bool {
        self.regs.wf()
    }

    pub fn new() -> (r: Self)
        ensures
            r.wf(),
            r@ == (RunState {
                pc: 0,
                tries: 0,
                asked: false,
                lists: Map::empty(),
                marks: Map::empty(),
                cells: Map::empty(),
            }),
    {
        Run { pc: 0, tries: 0, asked: false, regs: Regs::new() }
    }

    /// Go to the start of another script, with the registers as they are.
    pub fn restart(&mut self)
        requires
            old(self).wf(),
        ensures
            final(self).wf(),
            final(self)@ == (RunState { pc: 0, tries: 0, asked: false, ..old(self)@ }),
    {
        self.pc = 0;
        self.tries = 0;
        self.asked = false;
    }

    /// The step is done.
    fn step(&mut self, len: usize)
        requires
            old(self).wf(),
            old(self)@.pc < len,
        ensures
            final(self).wf(),
            final(self)@ == old(self)@.next(),
    {
        self.pc = self.pc + 1;
        self.tries = 0;
        self.asked = false;
    }

    /// The step waits, unless it has waited too often.
    fn wait(&mut self, limit: u32, ms: u32) -> (a: Action)
        requires
            old(self).wf(),
        ensures
            final(self).wf(),
            (final(self)@, a) == old(self)@.waiting(limit, ms),
    {
        if self.tries >= limit {
            return Action::Failed(self.pc);
        }
        self.tries = self.tries + 1;
        self.asked = false;
        Action::Pump(ms)
    }

    /// The first card of a list register.
    pub fn kept(&self, seat: usize, reg: usize) -> (id: Option<u32>)
        requires
            self.wf(),
            seat < 0x1_0000,
        ensures
            id == ({
                let k = slot(seat as int, reg);
                if self@.lists.dom().contains(k) && self@.lists[k].len() > 0 {
                    Some(self@.lists[k][0])
                } else {
                    None
                }
            }),
    {
        match self.regs.lists.get(slot_key(seat, reg)) {
            Some(ids) => if ids.len() > 0 {
                Some(ids[0])
            } else {
                None
            },
            None => None,
        }
    }

    /// Take a turn: the next thing to do. `worked` tells whether what the last turn asked
    /// for worked.
    pub fn turn<'a, C: Codec>(
        &mut self,
        script: &Vec<Step>,
        seats: &Vec<Seat<'a, C>>,
        worked: bool,
    ) -> (a: Action)
        requires
            old(self).wf(),
            0 < seats@.len() <= 0x1_0000,
            forall|i: int| 0 <= i < seats@.len() ==> (#[trigger] seats@[i]).wf(),
        ensures
            final(self).wf(),
            (final(self)@, a) == old(self)@.turned(script@, seats@, worked),
    {
        let len: usize = script.len();
        if self.pc >= len {
            return Action::Passed;
        }
        let failed = Action::Failed(self.pc);
        let seat: usize = match &script[self.pc] {
            Step::Create(s, ..) => *s,
            Step::Put(s, ..) => *s,
            Step::Refused(s, ..) => *s,
            Step::Coax(s, ..) => *s,
            Step::Keep(s, ..) => *s,
            Step::Mark(s, ..) => *s,
            Step::Locate(s, ..) => *s,
            Step::Walk(s, ..) => *s,
            Step::Reply(s) => *s,
            Step::Sound(s, ..) => *s,
            _ => 0,
        };
        if seat >= seats.len() {
            return failed;
        }
        let look = Look { seats, regs: &self.regs, me: seat, peer: seat };
        assert(look.env() == self@.env(seats@, seat));
        match &script[self.pc] {
            Step::Pump(ms) => {
                let ms: u32 = *ms;
                self.step(len);
                Action::Pump(ms)
            },
            Step::Forget => {
                self.step(len);
                Action::Forget
            },
            Step::Need(c) => {
                if look.holds(c) {
                    self.step(len);
                    Action::Go
                } else {
                    failed
                }
            },
            Step::Poll(limit, ms, c) => {
                let (limit, ms): (u32, u32) = (*limit, *ms);
                if self.tries > 0 && look.holds(c) {
                    self.step(len);
                    Action::Go
                } else {
                    self.wait(limit, ms)
                }
            },
            Step::Await(limit, ms, c) => {
                let (limit, ms): (u32, u32) = (*limit, *ms);
                if look.holds(c) {
                    self.step(len);
                    Action::Go
                } else {
                    self.wait(limit, ms)
                }
            },
            Step::Guard(limit, ms, bad, good) => {
                let (limit, ms): (u32, u32) = (*limit, *ms);
                if self.tries > 0 && look.holds(bad) {
                    failed
                } else if self.tries > 0 && look.holds(good) {
                    self.step(len);
                    Action::Go
                } else {
                    self.wait(limit, ms)
                }
            },
            Step::Create(_, owner, key, surface, place, q, r) => {
                match (look.owner(*owner), look.zone(*place)) {
                    (Some(id), Some(macro_zone)) => {
                        let a = Action::Create {
                            seat,
                            owner: id,
                            key: *key,
                            surface: *surface,
                            macro_zone,
                            q: *q,
                            r: *r,
                        };
                        self.step(len);
                        a
                    },
                    _ => failed,
                }
            },
            Step::Put(_, card, spot) => {
                if self.asked {
                    if worked {
                        self.step(len);
                        Action::Go
                    } else {
                        failed
                    }
                } else {
                    match look.put(*card, *spot) {
                        Some(a) => {
                            self.asked = true;
                            a
                        },
                        None => failed,
                    }
                }
            },
            Step::Refused(_, card, spot) => {
                if self.asked {
                    if worked {
                        failed
                    } else {
                        self.step(len);
                        Action::Go
                    }
                } else {
                    match look.put(*card, *spot) {
                        Some(a) => {
                            self.asked = true;
                            a
                        },
                        None => failed,
                    }
                }
            },
            Step::Coax(_, card, spot, limit, ms) => {
                let (limit, ms): (u32, u32) = (*limit, *ms);
                if self.asked {
                    if worked {
                        self.step(len);
                        Action::Go
                    } else {
                        self.wait(limit, ms)
                    }
                } else {
                    match look.put(*card, *spot) {
                        Some(a) => {
                            if look.holds(&Check::PosHeld(*card)) {
                                self.wait(limit, ms)
                            } else {
                                self.asked = true;
                                a
                            }
                        },
                        None => failed,
                    }
                }
            },
            Step::Keep(_, query, reg) => {
                let reg: usize = *reg;
                let ids = look.find(*query);
                self.regs.keep(slot_key(seat, reg), ids);
                self.step(len);
                Action::Go
            },
            Step::Mark(_, measure, reg) => {
                let reg: usize = *reg;
                match look.measure(*measure) {
                    Some(n) => {
                        self.regs.mark(slot_key(seat, reg), n);
                        self.step(len);
                        Action::Go
                    },
                    None => failed,
                }
            },
            Step::Locate(_, card, reg) => {
                let reg: usize = *reg;
                match look.cell_of(*card) {
                    Some(cell) => {
                        self.regs.locate(slot_key(seat, reg), cell);
                        self.step(len);
                        Action::Go
                    },
                    None => failed,
                }
            },
            Step::Walk(_, card, reg, dx, far) => {
                let far: bool = *far;
                match (look.card(*card), look.east(*reg, *dx)) {
                    (Some(soul), Some((q, r))) => {
                        self.step(len);
                        Action::Walk { seat, soul, q, r, far }
                    },
                    _ => failed,
                }
            },
            Step::Reply(_) => {
                self.step(len);
                Action::Reply { seat }
            },
            Step::Sound(_, soul, root) => {
                if self.asked {
                    if worked {
                        self.step(len);
                        Action::Go
                    } else {
                        failed
                    }
                } else {
                    match (look.card(*soul), look.card(*root)) {
                        (Some(soul), Some(root)) => {
                            self.asked = true;
                            Action::Compare { seat, soul, root }
                        },
                        _ => failed,
                    }
                }
            },
        }
    }
}

/// A script passes only at its end.
pub proof fn law_passes_at_the_end<'a, C: Codec>(
    s: RunState,
    script: Seq<Step>,
    seats: Seq<Seat<'a, C>>,
    worked: bool,
)
    requires
        s.turned(script, seats, worked).1 == Action::Passed,
    ensures
        s.pc >= script.len(),
{
}

/// A script goes past a requirement only where it holds.
pub proof fn law_requirement_must_hold<'a, C: Codec>(
    s: RunState,
    script: Seq<Step>,
    seats: Seq<Seat<'a, C>>,
    worked: bool,
)
    requires
        s.pc < script.len(),
        s.turned(script, seats, worked).0.pc != s.pc,
    ensures
        script[s.pc as int] matches Step::Need(c) ==> c.holds(s.env(seats, 0)),
        script[s.pc as int] matches Step::Poll(n, ms, c) ==> c.holds(s.env(seats, 0)),
        script[s.pc as int] matches Step::Await(n, ms, c) ==> c.holds(s.env(seats, 0)),
        script[s.pc as int] matches Step::Guard(n, ms, bad, c) ==> c.holds(s.env(seats, 0))
            && !bad.holds(s.env(seats, 0)),
{
}

/// A script never hangs: a turn that neither passes nor fails moves on to the next step,
/// asks for something, or uses up one of the waits that its step has.
pub proof fn law_turn_makes_progress<'a, C: Codec>(
    s: RunState,
    script: Seq<Step>,
    seats: Seq<Seat<'a, C>>,
    worked: bool,
)
    requires
        s.pc < usize::MAX,
    ensures
        ({
            let (t, a) = s.turned(script, seats, worked);
            ||| a == Action::Passed
            ||| a == Action::Failed(s.pc)
            ||| t.pc == s.pc + 1
            ||| t.pc == s.pc && t.asked && !s.asked && t.tries == s.tries
            ||| t.pc == s.pc && t.tries == s.tries + 1
        }),
{
}

/// What a step demands of the clients before the script goes past it.
pub open spec fn met<'a, C: Codec>(step: Step, env: Env<'a, C>) -> bool {
    match step {
        Step::Need(c) => c.holds(env),
        Step::Poll(_, _, c) => c.holds(env),
        Step::Await(_, _, c) => c.holds(env),
        Step::Guard(_, _, bad, good) => good.holds(env) && !bad.holds(env),
        _ => true,
    }
}

/// Each state comes of the one before by a turn, with what was seen and answered then.
pub open spec fn is_run<'a, C: Codec>(
    script: Seq<Step>,
    states: Seq<RunState>,
    seen: Seq<Seq<Seat<'a, C>>>,
    worked: Seq<bool>,
) -> bool {
    &&& states.len() == seen.len() + 1
    &&& worked.len() == seen.len()
    &&& forall|k: int|
        0 <= k < seen.len() ==> states[k + 1] == states[k].turned(
            script,
            #[trigger] seen[k],
            worked[k],
        ).0
}

/// A run that came past a step made the turn that goes past it.
proof fn lemma_crossing<'a, C: Codec>(
    script: Seq<Step>,
    states: Seq<RunState>,
    seen: Seq<Seq<Seat<'a, C>>>,
    worked: Seq<bool>,
    i: int,
    m: int,
) -> (k: int)
    requires
        is_run(script, states, seen, worked),
        script.len() <= usize::MAX,
        0 <= i < script.len(),
        0 <= m < states.len(),
        states[0].pc <= i,
        states[m].pc > i,
    ensures
        0 <= k < seen.len(),
        states[k].pc == i,
        states[k + 1].pc != i,
    decreases m,
{
    assert(m > 0);
    let before = states[m - 1];
    assert(states[m - 1 + 1] == before.turned(script, seen[m - 1], worked[m - 1]).0);
    if before.pc > i {
        lemma_crossing(script, states, seen, worked, i, m - 1)
    } else {
        law_turn_makes_progress(before, script, seen[m - 1], worked[m - 1]);
        m - 1
    }
}

/// A run that passed has met what each of its steps demands, when it was at that step.
pub proof fn law_passed_run_met_its_demands<'a, C: Codec>(
    script: Seq<Step>,
    states: Seq<RunState>,
    seen: Seq<Seq<Seat<'a, C>>>,
    worked: Seq<bool>,
    i: int,
)
    requires
        is_run(script, states, seen, worked),
        script.len() <= usize::MAX,
        states[0].pc == 0,
        states.last().pc >= script.len(),
        0 <= i < script.len(),
    ensures
        exists|k: int|
            0 <= k < seen.len() && states[k].pc == i && met(
                script[i],
                states[k].env(#[trigger] seen[k], 0),
            ),
{
    let k = lemma_crossing(script, states, seen, worked, i, states.len() - 1);
    assert(states[k + 1] == states[k].turned(script, seen[k], worked[k]).0);
    law_requirement_must_hold(states[k], script, seen[k], worked[k]);
    assert(met(script[i], states[k].env(seen[k], 0)));
}

} // verus!
