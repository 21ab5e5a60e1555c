//! The client core: intents in, frames out; frames in, world updates and events out.
//!
//! No socket and no clock of its own. Whoever drives it sends what it returns, feeds
//! it what arrives, and supplies the local time.
use vstd::prelude::*;

use crate::actions::copy_bindings;
use crate::codec::Codec;
use crate::content::{has_text, Content};
use crate::matcher::{same_matches, Frame, RecipeMatch, Scene, Subject};
use crate::moves::{chain_root, Moves, Write};
use crate::needs::Needs;
use crate::ordmap::OrdMap;
use crate::pulse::{thousand_times, Pulse};
use crate::queue::{stands, Queue, Site};
use crate::realm::{ids_of, Known, Realm};
use crate::rows::{CardRow, RegionRow, RowOp, ZoneRow};
use crate::text::{chars_of, join3, parse_u64, quote, with_number};
use crate::wire::{ClientCall, ClientMsg, Command, Event, GateMsg, RowData, PLAYER_SOUL_PACKED_MIN};
use crate::world::World;
use crate::zones::{DataType, ZoneManager};
use vstd::string::StringExecFns;

verus! {

use crate::actions::deep;
use crate::content::{
    def_in, describes, distinct_recipes, lemma_matchable, matchable, packed_in, recipe_id_in,
    texts,
};
use crate::history::{swept, with_version, without_version};
use crate::laws::subscriptions::{
    law_sweep_keeps_cards_as_souls_saw_them, law_sweep_keeps_tiles_as_souls_saw_them,
};
use crate::links::LinkState;
use crate::matcher::{
    is_held, judges, law_filter_is_sound, law_recipe_matches_once, match_views, witnesses,
    MatchView,
};
use crate::moves::{
    cleared, marked, move_call, places, root_in, row_in, Board, MovesState, Rows,
};
use crate::needs::{follows_needs, pumped, replied, Asks, Reply};
use crate::pulse::{id_after, times, PulseState};
use crate::queue::{best_of, still_stands, QueueState};
use crate::realm::{lemma_listing, listing, lists_set, RealmState};
use crate::memory::is_frozen_list;
use crate::rows::{time_of, TileSlot};
use crate::text::{decimal, number_within, quoted};
use crate::wire::{events, msgs, text_of, CallView, EventView, MsgView};
use crate::world::swept_by;
use crate::zones::{Anchor, MemEntry};

/// The dirty roots are matched again at most once in this long.
pub const MATCH_BUDGET_US: u64 = 1_000_000;

/// Why a recipe cannot be proposed.
pub ghost enum ProposeError {
    NoContent,
    UnknownRecipe,
}

impl ProposeError {
    /// What is said of it.
    pub open spec fn text(self, recipe: Seq<char>) -> Seq<char> {
        match self {
            ProposeError::NoContent => "propose: content bundle not loaded"@,
            ProposeError::UnknownRecipe => "propose: unknown recipe "@ + quoted(recipe),
        }
    }
}

/// The client, as values.
#[verifier::reject_recursive_types(C)]
pub ghost struct ClientState<C: Codec> {
    pub world: World,
    pub realm: RealmState<C>,
    pub pulse: PulseState,
    pub content: Option<Content>,
    pub moves: MovesState,
    pub queue: QueueState,
    /// Calls on behalf of zones.
    pub asks: Asks,
    /// Errors seen and not drained.
    pub errors: Seq<Seq<char>>,
    /// Rows to come: when each takes effect, and for which card.
    pub promotions: Seq<(u64, u32)>,
    /// Chain roots to match again.
    pub roots: Set<u64>,
    /// When the roots were last matched.
    pub last_match: u64,
    pub name: Option<Seq<char>>,
    pub player_id: Option<u32>,
    /// The flag bits that are a placement.
    pub pmask: u32,
}

/// A row to come that has come due marks the chain root of its card.
pub open spec fn kicked_roots(
    rows: Rows,
    roots: Set<u64>,
    promotions: Seq<(u64, u32)>,
    now: u64,
) -> Set<u64>
    decreases promotions.len(),
{
    if promotions.len() == 0 {
        roots
    } else {
        let before = kicked_roots(rows, roots, promotions.drop_last(), now);
        let (at, id) = promotions.last();
        if at <= now {
            marked(before, root_in(rows, id, now))
        } else {
            before
        }
    }
}

/// The rows that are still to come.
pub open spec fn still_to_come(promotions: Seq<(u64, u32)>, now: u64) -> Seq<(u64, u32)>
    decreases promotions.len(),
{
    if promotions.len() == 0 {
        Seq::empty()
    } else {
        let before = still_to_come(promotions.drop_last(), now);
        if promotions.last().0 <= now {
            before
        } else {
            before.push(promotions.last())
        }
    }
}

/// A clock sample is an event, unless it was no number.
pub open spec fn clock_events(p: PulseState, server_micros: Seq<char>) -> Seq<EventView> {
    if number_within(server_micros, u64::MAX as nat) is Some {
        seq![EventView::Clock { ms: p.sampled(server_micros).ms }]
    } else {
        Seq::empty()
    }
}

impl<C: Codec> ClientState<C> {
    /// What discovery reads.
    pub open spec fn known(&self) -> Known<'_> {
        Known {
            world: &self.world,
            content: &self.content,
            me: self.player_id,
            now: self.pulse.ms,
        }
    }

    /// Who calls.
    pub open spec fn caller(self) -> u32 {
        match self.player_id {
            Some(id) => id,
            None => 0,
        }
    }

    /// What matching looks at.
    pub open spec fn scene<'a>(&'a self, content: &'a Content, soul: u32) -> Scene<'a, C> {
        Scene {
            world: &self.world,
            zones: &self.realm.zones,
            content,
            soul,
            now: self.pulse.ms,
        }
    }

    /// The judge upholds no recipe whose required aspects are out of reach.
    pub open spec fn heeds_filter<J: Fn(&Frame) -> bool, S: Fn(&String, &Subject) -> bool>(
        &self,
        judge: J,
        shows: S,
        soul: u32,
        root: u32,
    ) -> bool {
        match self.content {
            Some(content) => forall|i: int|
                0 <= i < content.index().len() && self.scene(&content, soul).recipe_match(
                    judge,
                    #[trigger] content.index()[i],
                    root,
                ) is Some ==> self.scene(&content, soul).passes_filter(
                    shows,
                    content.index()[i],
                    root,
                ),
            None => true,
        }
    }

    /// The recipes that apply to a root as a soul knows it; none without content.
    pub open spec fn matches_for<J: Fn(&Frame) -> bool, S: Fn(&String, &Subject) -> bool>(
        &self,
        judge: J,
        shows: S,
        soul: u32,
        root: u32,
        use_filter: bool,
    ) -> Seq<MatchView> {
        match self.content {
            Some(content) => self.scene(&content, soul).matches(judge, shows, root, use_filter),
            None => Seq::empty(),
        }
    }

    /// The world tile a card stands on now; none off the world surface.
    pub open spec fn cell_of(self, id: u32) -> Option<(i32, i32)> {
        match self.world.cards.at(id, self.pulse.ms) {
            Some(row) => self.realm.hex_of(row),
            None => None,
        }
    }

    /// The state after cards were committed, and the call that does it.
    pub open spec fn committed(self, ids: Seq<u32>) -> (ClientState<C>, Seq<MsgView>) {
        let moved = places(self.world.cards@, ids, self.pulse.ms, self.pmask);
        let clean = ClientState {
            moves: MovesState { dirty: cleared(self.moves.dirty, ids), ..self.moves },
            ..self
        };
        if moved.len() == 0 {
            (clean, Seq::empty())
        } else {
            (
                ClientState { pulse: self.pulse.minted(), ..clean },
                seq![
                    MsgView::Call {
                        cid: self.pulse.next_cid,
                        call: move_call(moved, self.caller(), self.pulse.ms),
                    },
                ],
            )
        }
    }

    /// The state with frames queued.
    pub open spec fn queued_out(self, out: Seq<MsgView>) -> ClientState<C> {
        ClientState { realm: RealmState { out: self.realm.out + out, ..self.realm }, ..self }
    }

    /// The state with its queued frames taken.
    pub open spec fn taken(self) -> ClientState<C> {
        ClientState { realm: RealmState { out: Seq::empty(), ..self.realm }, ..self }
    }

    /// The state after every dirty card was committed, and the call that does it.
    pub open spec fn flushed(self) -> (ClientState<C>, Seq<MsgView>) {
        self.committed(listing(self.moves.dirty))
    }

    /// Why a recipe cannot be proposed.
    pub open spec fn propose_error(self, recipe: Seq<char>) -> Option<ProposeError> {
        match self.content {
            Some(content) => if recipe_id_in(content.recipes(), recipe) is Some {
                None
            } else {
                Some(ProposeError::UnknownRecipe)
            },
            None => Some(ProposeError::NoContent),
        }
    }

    /// The state after a proposal, and its frames: what is dirty is committed first.
    pub open spec fn proposed(
        self,
        recipe: Seq<char>,
        root: u32,
        bindings: Seq<Seq<u32>>,
        site: Site,
    ) -> (ClientState<C>, Seq<MsgView>) {
        let (s, out) = self.flushed();
        (
            ClientState { pulse: s.pulse.minted(), ..s },
            out.push(
                MsgView::Call {
                    cid: s.pulse.next_cid,
                    call: CallView::ProposeAction {
                        recipe_id: recipe_id_in(self.content->0.recipes(), recipe)->0,
                        surface: site.surface,
                        macro_zone: site.macro_zone,
                        micro_location: site.micro_location,
                        root,
                        bindings,
                        caller_player_id: self.caller(),
                        client_time_ms: self.pulse.ms,
                    },
                },
            ),
        )
    }

    /// The queue after one dirty root was matched again: by the soul that acts on it,
    /// or dropped if none does.
    pub open spec fn rematched<J: Fn(&Frame) -> bool, S: Fn(&String, &Subject) -> bool>(
        &self,
        q: QueueState,
        judge: J,
        shows: S,
        root: u32,
    ) -> QueueState {
        match self.realm.actor(self.world.cards, root, self.pulse.ms) {
            Some(soul) => q.evaluated(
                root,
                soul,
                best_of(self.matches_for(judge, shows, soul, root, true)),
                self.site_of(root),
                self.pulse.perf,
            ),
            None => q.dropped(root as u64),
        }
    }

    /// The cell of a root.
    pub open spec fn site_of(self, root: u32) -> Option<Site> {
        match row_in(self.world.cards@, root, self.pulse.ms) {
            Some(row) => Some(
                Site {
                    surface: row.surface,
                    macro_zone: row.macro_zone,
                    micro_location: row.micro_location,
                },
            ),
            None => None,
        }
    }

    /// The queue after a list of dirty roots was matched again.
    pub open spec fn rematched_all<J: Fn(&Frame) -> bool, S: Fn(&String, &Subject) -> bool>(
        &self,
        judge: J,
        shows: S,
        roots: Seq<u32>,
    ) -> QueueState
        decreases roots.len(),
    {
        if roots.len() == 0 {
            self.queue
        } else {
            self.rematched(
                self.rematched_all(judge, shows, roots.drop_last()),
                judge,
                shows,
                roots.last(),
            )
        }
    }

    /// The state after the ready action of a root was looked at once more: proposed
    /// if its match still stands, else dropped.
    pub open spec fn fired<J: Fn(&Frame) -> bool, S: Fn(&String, &Subject) -> bool>(
        self,
        judge: J,
        shows: S,
        root: u64,
    ) -> ClientState<C> {
        if !self.queue.actions.dom().contains(root) {
            self
        } else {
            let a = self.queue.actions[root];
            if still_stands(
                self.matches_for(judge, shows, a.soul, root as u32, true),
                a.recipe,
                a.bindings,
            ) && self.propose_error(a.recipe) is None {
                let site = Site {
                    surface: a.surface,
                    macro_zone: a.macro_zone,
                    micro_location: a.micro_location,
                };
                let (s, out) = self.proposed(a.recipe, a.root, a.bindings, site);
                ClientState {
                    queue: s.queue.submitted(root, self.flushed().0.pulse.next_cid),
                    ..s.queued_out(out)
                }
            } else {
                ClientState {
                    queue: QueueState { actions: self.queue.actions.remove(root), ..self.queue },
                    ..self
                }
            }
        }
    }

    /// The state after a list of ready actions was fired.
    pub open spec fn fired_all<J: Fn(&Frame) -> bool, S: Fn(&String, &Subject) -> bool>(
        self,
        judge: J,
        shows: S,
        roots: Seq<u64>,
    ) -> ClientState<C>
        decreases roots.len(),
    {
        if roots.len() == 0 {
            self
        } else {
            self.fired_all(judge, shows, roots.drop_last()).fired(judge, shows, roots.last())
        }
    }

    /// The state after the local clock advanced, and rows that came due marked their
    /// roots.
    pub open spec fn kicked(self, perf_us: u64) -> ClientState<C> {
        let pulse = self.pulse.ticked(perf_us);
        ClientState {
            pulse,
            roots: kicked_roots(self.world.cards@, self.roots, self.promotions, pulse.ms),
            promotions: still_to_come(self.promotions, pulse.ms),
            ..self
        }
    }

    /// The dirty roots are to be matched again: there are some, and the budget allows.
    pub open spec fn match_is_due(self) -> bool {
        (exists|r: u64| self.roots.contains(r)) && self.pulse.perf >= self.last_match
            + MATCH_BUDGET_US
    }

    /// The state after the dirty roots were matched again, if that is due.
    pub open spec fn identified<J: Fn(&Frame) -> bool, S: Fn(&String, &Subject) -> bool>(
        self,
        judge: J,
        shows: S,
    ) -> ClientState<C> {
        if self.match_is_due() {
            ClientState {
                last_match: self.pulse.perf,
                queue: self.rematched_all(judge, shows, listing(self.roots)),
                roots: Set::empty(),
                ..self
            }
        } else {
            self
        }
    }

    /// `self` is `old` after a tick.
    pub open spec fn ticked<J: Fn(&Frame) -> bool, S: Fn(&String, &Subject) -> bool>(
        self,
        old: ClientState<C>,
        perf_us: u64,
        judge: J,
        shows: S,
    ) -> bool {
        let s = old.kicked(perf_us).identified(judge, shows);
        exists|roots: Seq<u64>| #[trigger]
            s.queue.is_ready_list(perf_us, roots) && self == s.fired_all(judge, shows, roots)
    }

    /// `self` is `old` with the zone manager's decisions carried out and what the
    /// zones need asked for, in these frames.
    pub open spec fn framed(self, old: ClientState<C>, out: Seq<MsgView>) -> bool {
        &&& self == ClientState { realm: self.realm, asks: self.asks, pulse: self.pulse, ..old }
        &&& self.realm.carried_out(old.realm)
        &&& exists|mid: Asks, sent: Seq<MsgView>|
            {
                &&& follows_needs(self.realm.zones, old.asks, mid, old.pulse.perf)
                &&& #[trigger] pumped(mid, self.asks, old.pulse, self.pulse, sent)
                &&& out == old.realm.links.frames(old.realm.zones.pending()) + sent
            }
    }

    /// `self` is `old` after a card row landed.
    pub open spec fn card_landed(self, old: ClientState<C>, op: RowOp, row: CardRow) -> bool {
        let now = old.pulse.ms;
        let id = row.card_id;
        let known = self.known();
        &&& self.world == World { cards: self.world.cards, ..old.world }
        &&& self.world.cards@ == match op {
            RowOp::Delete => without_version(old.world.cards@, id as u64, row.valid_at),
            _ => with_version(old.world.cards@, id as u64, row.valid_at, row),
        }
        &&& if op == RowOp::Delete {
            &&& self == ClientState { world: self.world, realm: self.realm, ..old }
            &&& self.realm == RealmState { zones: self.realm.zones, ..old.realm }
            &&& self.realm.zones.updated_from(
                &old.realm.zones,
                row.macro_zone,
                DataType::Card,
                now,
            )
        } else {
            &&& self == ClientState {
                world: self.world,
                realm: self.realm,
                roots: marked(old.roots, root_in(self.world.cards@, id, now)),
                promotions: if time_of(row.valid_at) > now {
                    old.promotions.push((time_of(row.valid_at), id))
                } else {
                    old.promotions
                },
                ..old
            }
            &&& exists|a: RealmState<C>, b: RealmState<C>|
                {
                    &&& a == RealmState { zones: a.zones, ..old.realm }
                    &&& a.zones.updated_from(
                        &old.realm.zones,
                        row.macro_zone,
                        DataType::Card,
                        now,
                    )
                    &&& #[trigger] b.discovered(a, &known, id)
                    &&& self.realm.stocked(b, &known, id)
                }
        }
    }

    /// `self` is `old` after a zone row landed.
    pub open spec fn zone_landed(self, old: ClientState<C>, op: RowOp, row: ZoneRow) -> bool {
        &&& self == ClientState { world: self.world, realm: self.realm, ..old }
        &&& self.world == World { zones: self.world.zones, ..old.world }
        &&& self.world.zones@ == match op {
            RowOp::Delete => without_version(old.world.zones@, row.macro_zone, row.valid_at),
            _ => with_version(old.world.zones@, row.macro_zone, row.valid_at, row),
        }
        &&& self.realm == RealmState { zones: self.realm.zones, ..old.realm }
        &&& self.realm.zones.updated_from(
            &old.realm.zones,
            row.macro_zone,
            DataType::Zone,
            old.pulse.ms,
        )
    }

    /// `self` is `old` after a region row landed.
    pub open spec fn region_landed(self, old: ClientState<C>, op: RowOp, row: RegionRow) -> bool {
        &&& self == ClientState { realm: self.realm, ..old }
        &&& self.realm == RealmState { zones: self.realm.zones, ..old.realm }
        &&& self.realm.zones.same_but_bits(&old.realm.zones)
        &&& self.realm.zones.bits() == match op {
            RowOp::Delete => old.realm.zones.bits().remove(row.macro_region),
            _ => old.realm.zones.bits().insert(
                row.macro_region,
                (crate::zones::RegionBits {
                    presence: row.zone_presence,
                    available: row.zone_available,
                    distance: row.distance,
                }),
            ),
        }
    }

    /// The state after a `players` row: our own teaches us who we are, and the roster
    /// of our player souls is subscribed.
    pub open spec fn introduced(self, name: Option<Seq<char>>, id: Option<u32>) -> ClientState<C> {
        if self.learns(name, id) {
            ClientState {
                player_id: id,
                realm: self.realm.subscribed(
                    "cards"@,
                    "owner_id = "@ + decimal(id->0 as nat) + (" AND packed_definition >= "@
                        + decimal(PLAYER_SOUL_PACKED_MIN as nat)),
                ),
                ..self
            }
        } else {
            self
        }
    }

    /// The row is ours, and says something new.
    pub open spec fn learns(self, name: Option<Seq<char>>, id: Option<u32>) -> bool {
        name is Some && id is Some && self.name == name && self.player_id != id
    }

    /// `self` is `old` after the server told how many watch a zone.
    pub open spec fn watched(self, old: ClientState<C>, zone: u64, observers: u32) -> bool {
        let s = ClientState { moves: old.moves.heard(zone, observers), ..old };
        if old.moves.watchers(zone) <= 1 && observers > 1 {
            exists|ids: Seq<u32>|
                {
                    &&& #[trigger] old.moves.is_dirty_list(
                        old.world.cards@,
                        zone,
                        old.pulse.ms,
                        ids,
                    )
                    &&& self == s.committed(ids).0.queued_out(s.committed(ids).1)
                }
        } else {
            self == s
        }
    }

    /// `self` is `old` after a row, with these events.
    pub open spec fn row_applied(
        self,
        old: ClientState<C>,
        op: RowOp,
        row: RowData,
        out: Seq<EventView>,
    ) -> bool {
        match row {
            RowData::Card(card) => {
                &&& self.card_landed(old, op, card)
                &&& out == seq![
                    if op == RowOp::Delete {
                        EventView::CardRemoved { card_id: card.card_id }
                    } else {
                        EventView::CardUpserted { card_id: card.card_id }
                    },
                ]
            },
            RowData::Zone(zone) => {
                &&& self.zone_landed(old, op, zone)
                &&& out == seq![EventView::ZoneUpserted { macro_zone: zone.macro_zone }]
            },
            RowData::Region(region) => {
                &&& self.region_landed(old, op, region)
                &&& out == Seq::<EventView>::empty()
            },
            RowData::Player { name, player_id } => {
                &&& self == old.introduced(text_of(name), player_id)
                &&& out == if old.learns(text_of(name), player_id) {
                    seq![EventView::PlayerId { id: player_id->0 }]
                } else {
                    Seq::empty()
                }
            },
            RowData::Undecodable { table, error } => {
                &&& self == old
                &&& out == seq![
                    EventView::Error { error: table@ + " row decode: "@ + error@ },
                ]
            },
            RowData::Other { .. } => self == old && out == Seq::<EventView>::empty(),
        }
    }

    /// `self` is `old` after a frame, with these events; errors are not kept yet.
    pub open spec fn folded(self, old: ClientState<C>, msg: GateMsg, out: Seq<EventView>) -> bool {
        match msg {
            GateMsg::Time { server_micros } => {
                &&& self == ClientState { pulse: old.pulse.sampled(server_micros@), ..old }
                &&& out == clock_events(old.pulse, server_micros@)
            },
            GateMsg::Applied { sid } => self == old && out == seq![EventView::Applied { sid }],
            GateMsg::Error { error } => self == old && out == seq![
                EventView::Error { error: error@ },
            ],
            GateMsg::CallOk { cid, server_micros } => {
                &&& self == ClientState {
                    pulse: old.pulse.sampled(server_micros@).answered(cid),
                    queue: old.queue.resolved(cid, None, old.pulse.perf),
                    asks: self.asks,
                    ..old
                }
                &&& replied(old.asks, self.asks, cid, Reply::Done, old.pulse.perf)
                &&& out == clock_events(old.pulse, server_micros@).push(EventView::CallOk { cid })
            },
            GateMsg::CallErr { cid, error, server_micros } => {
                let p = old.pulse.drifted(cid, error@);
                &&& self == ClientState {
                    pulse: p.sampled(server_micros@).answered(cid),
                    queue: old.queue.resolved(cid, Some(error@), old.pulse.perf),
                    asks: self.asks,
                    ..old
                }
                &&& replied(old.asks, self.asks, cid, Reply::Failed, old.pulse.perf)
                &&& out == clock_events(p, server_micros@).push(
                    EventView::CallErr { cid, error: error@ },
                )
            },
            GateMsg::CallPromise { cid, timeout_ms } => {
                &&& self == ClientState { asks: self.asks, ..old }
                &&& replied(
                    old.asks,
                    self.asks,
                    cid,
                    Reply::Promise { timeout_us: times(timeout_ms, 1000) },
                    old.pulse.perf,
                )
                &&& out == Seq::<EventView>::empty()
            },
            GateMsg::Row { op, row } => self.row_applied(old, op, row, out),
            GateMsg::ContentChanged { .. } => self == old && out == Seq::<EventView>::empty(),
            GateMsg::ZoneObservers { macro_zone, observers } => {
                &&& match number_within(macro_zone@, u64::MAX as nat) {
                    Some(zone) => self.watched(old, zone as u64, observers),
                    None => self == old,
                }
                &&& out == Seq::<EventView>::empty()
            },
        }
    }

    /// `self` is `old` after a frame, with these events; errors are kept.
    pub open spec fn applied(self, old: ClientState<C>, msg: GateMsg, out: Seq<EventView>) -> bool {
        exists|mid: ClientState<C>| #[trigger]
            mid.folded(old, msg, out) && self == ClientState {
                errors: mid.errors + errors_in(out),
                ..mid
            }
    }

    /// `self` is `old` after a placement plan was applied.
    pub open spec fn placed(self, old: ClientState<C>, plan: Seq<Write>) -> bool {
        let b = (Board {
            rows: old.world.cards@,
            dirty: old.moves.dirty,
            seq: old.moves.seq,
            roots: old.roots,
            moved: Seq::empty(),
        }).planned(plan, old.pulse.ms, old.pmask);
        exists|world: World|
            {
                let s = ClientState {
                    world,
                    moves: MovesState { dirty: b.dirty, seq: b.seq, ..old.moves },
                    roots: b.roots,
                    ..old
                };
                &&& #[trigger] world.cards@ == b.rows
                &&& world == World { cards: world.cards, ..old.world }
                &&& self == if s.moves.must_sync(&s.known(), b.moved) {
                    s.committed(b.moved).0.queued_out(s.committed(b.moved).1)
                } else {
                    s
                }
            }
    }

    /// `self` is `old` after a command, with these frames.
    pub open spec fn dispatched(
        self,
        old: ClientState<C>,
        cmd: Command,
        out: Seq<MsgView>,
    ) -> bool {
        let ms = old.pulse.ms;
        let cid = old.pulse.next_cid;
        let sid = old.realm.links.next_sid;
        let linked = RealmState {
            links: LinkState { next_sid: id_after(sid), ..old.realm.links },
            ..old.realm
        };
        match cmd {
            Command::Login { name } => {
                &&& self == ClientState {
                    pulse: old.pulse.minted(),
                    realm: linked,
                    name: Some(name@),
                    ..old
                }
                &&& out == seq![
                    MsgView::Sub {
                        sid,
                        table: "players"@,
                        filter: Some("name = '"@ + name@ + "'"@),
                    },
                    MsgView::Call {
                        cid,
                        call: CallView::ClaimOrLogin { client_time_ms: ms, name: name@ },
                    },
                ]
            },
            Command::CreateCard { owner, card_key, surface, macro_zone, q, r } => {
                &&& self == ClientState { pulse: old.pulse.minted(), ..old }
                &&& out == seq![
                    MsgView::Call {
                        cid,
                        call: CallView::CreateCard {
                            client_time_ms: ms,
                            owner_id: owner,
                            surface,
                            card_key: card_key@,
                            macro_zone,
                            q,
                            r,
                        },
                    },
                ]
            },
            Command::Subscribe { table, filter } => {
                &&& self == ClientState { realm: linked, ..old }
                &&& out == seq![MsgView::Sub { sid, table: table@, filter: text_of(filter) }]
            },
            Command::SetAnchor { name, surface, owner, q, r, radii } => {
                exists|realm: RealmState<C>|
                    {
                        &&& realm == RealmState { zones: realm.zones, ..old.realm }
                        &&& #[trigger] realm.zones.anchored_from(
                            &old.realm.zones,
                            name@,
                            (Anchor { q, r, surface, owner, radii, soul: 0 }),
                            ms,
                        )
                        &&& self.framed((ClientState { realm, ..old }), out)
                    }
            },
            Command::Call { reducer, args } => {
                &&& self == ClientState { pulse: old.pulse.minted(), ..old }
                &&& out == seq![
                    MsgView::Call { cid, call: CallView::Raw { reducer: reducer@, args } },
                ]
            },
        }
    }
}

/// The errors among events.
pub open spec fn errors_in(out: Seq<EventView>) -> Seq<Seq<char>>
    decreases out.len(),
{
    if out.len() == 0 {
        Seq::empty()
    } else {
        let before = errors_in(out.drop_last());
        match out.last() {
            EventView::Error { error } => before.push(error),
            _ => before,
        }
    }
}

/// The client core.
pub struct Client<C: Codec> {
    world: World,
    realm: Realm<C>,
    pulse: Pulse,
    content: Option<Content>,
    moves: Moves,
    queue: Queue,
    needs: Needs,
    seen_errors: Vec<String>,
    pending_promotions: Vec<(u64, u32)>,
    dirty_roots: OrdMap<()>,
    last_match_us: u64,
    name: Option<String>,
    player_id: Option<u32>,
    pmask: u32,
}

impl<C: Codec> View for Client<C> {
    type V = ClientState<C>;

    closed spec fn view(&self) -> ClientState<C> {
        ClientState {
            world: self.world,
            realm: self.realm@,
            pulse: self.pulse@,
            content: self.content,
            moves: self.moves@,
            queue: self.queue@,
            asks: self.needs@,
            errors: texts(self.seen_errors@),
            promotions: self.pending_promotions@,
            roots: self.dirty_roots@.dom(),
            last_match: self.last_match_us,
            name: text_of(self.name),
            player_id: self.player_id,
            pmask: self.pmask,
        }
    }
}

impl<C: Codec> Client<C> {
    pub closed spec fn wf(&self) -> bool {
        &&& self.world.wf()
        &&& self.realm.wf()
        &&& self.pulse.wf()
        &&& self.content matches Some(c) ==> c.wf()
        &&& self.moves.wf()
        &&& self.queue.wf()
        &&& self.needs.wf()
        &&& self.needs.ids_below(self.pulse@.next_cid)
        &&& self.dirty_roots.wf()
        &&& forall|k: u64| #[trigger] self.dirty_roots@.dom().contains(k) ==> k <= u32::MAX
    }

    /// A client that has done nothing. `pmask` tells which flag bits are a placement.
    pub fn new(codec: C, pmask: u32) -> (c: Self)
        requires
            codec.wf(),
        ensures
            c.wf(),
            c@.realm.zones.is_new(codec),
            c@.world.cards@ == Map::<u64, Map<u64, CardRow>>::empty(),
            c@.world.zones@ == Map::<u64, Map<u64, ZoneRow>>::empty(),
            c@.world.tile_cards@ == Map::<u64, Map<u64, CardRow>>::empty(),
            c@ == (ClientState {
                world: c@.world,
                realm: RealmState {
                    zones: c@.realm.zones,
                    links: LinkState { next_sid: 1, zones: Map::empty(), regions: Map::empty() },
                    out: Seq::empty(),
                    player_souls: Set::empty(),
                    souls: Map::empty(),
                    inventoried: Set::empty(),
                },
                pulse: PulseState {
                    clock: crate::clock::ClockState::fresh(),
                    perf: 0,
                    ms: 0,
                    next_cid: 1,
                    sent: Map::empty(),
                },
                content: None,
                moves: MovesState { dirty: Set::empty(), seq: 0, watched: Map::empty() },
                queue: QueueState { actions: Map::empty(), outcomes: Seq::empty() },
                asks: Map::empty(),
                errors: Seq::empty(),
                promotions: Seq::empty(),
                roots: Set::empty(),
                last_match: 0,
                name: None,
                player_id: None,
                pmask,
            }),
    {
        let c = Client {
            world: World::new(),
            realm: Realm::new(codec),
            pulse: Pulse::new(),
            content: None,
            moves: Moves::new(),
            queue: Queue::new(),
            needs: Needs::new(),
            seen_errors: Vec::new(),
            pending_promotions: Vec::new(),
            dirty_roots: OrdMap::new(),
            last_match_us: 0,
            name: None,
            player_id: None,
            pmask,
        };
        proof {
            assert(c@.errors =~= Seq::empty());
            assert(c@.promotions =~= Seq::empty());
            assert(c@.roots =~= Set::empty());
        }
        c
    }

    /// The local world.
    pub fn world(&self) -> (w: &World)
        requires
            self.wf(),
        ensures
            *w == self@.world,
            w.wf(),
    {
        &self.world
    }

    /// Our player id, once learned.
    pub fn player_id(&self) -> (id: Option<u32>)
        ensures
            id == self@.player_id,
    {
        self.player_id
    }

    /// The packed definition of a card name; nothing without content.
    pub fn packed_def(&self, name: &str) -> (p: Option<u16>)
        ensures
            p == match self@.content {
                Some(c) => packed_in(c.cards(), name@),
                None => None,
            },
    {
        match &self.content {
            Some(c) => c.packed_def(name),
            None => None,
        }
    }

    /// The server-time estimate.
    pub fn clock_ms(&self) -> (ms: u64)
        ensures
            ms == self@.pulse.ms,
    {
        self.pulse.clock_ms()
    }

    /// Set the server-time estimate, as a replayed session does.
    pub fn set_clock_ms(&mut self, ms: u64)
        requires
            old(self).wf(),
        ensures
            final(self).wf(),
            final(self)@ == (ClientState {
                pulse: PulseState { ms, ..old(self)@.pulse },
                ..old(self)@
            }),
    {
        self.pulse.set_clock_ms(ms);
    }

    /// The zones.
    pub fn zones(&self) -> (z: &ZoneManager<C>)
        requires
            self.wf(),
        ensures
            *z == self@.realm.zones,
            z.wf(),
    {
        self.realm.zone_manager()
    }

    /// What is queued: root, recipe, and whether it is in flight; by ascending root.
    pub fn queued(&self) -> (out: Vec<(u32, String, bool)>)
        requires
            self.wf(),
        ensures
            forall|a: int, b: int|
                0 <= a < b < out@.len() ==> (#[trigger] out@[a]).0 < (#[trigger] out@[b]).0,
            forall|i: int|
                0 <= i < out@.len() ==> self@.queue.actions.dom().contains(
                    (#[trigger] out@[i]).0 as u64,
                ) && out@[i].1@ == self@.queue.actions[out@[i].0 as u64].recipe && out@[i].2
                    == self@.queue.in_flight(out@[i].0 as u64),
            forall|k: u64| #[trigger]
                self@.queue.actions.dom().contains(k) ==> exists|i: int|
                    0 <= i < out@.len() && (#[trigger] out@[i]).0 as u64 == k,
    {
        self.queue.queued()
    }

    /// Our souls, by ascending id.
    pub fn souls(&self) -> (ids: Vec<u32>)
        requires
            self.wf(),
        ensures
            lists_set(ids@, self@.realm.souls.dom()),
    {
        self.realm.soul_ids()
    }

    /// Our player souls, by ascending id.
    pub fn player_souls(&self) -> (ids: Vec<u32>)
        requires
            self.wf(),
        ensures
            lists_set(ids@, self@.realm.player_souls),
    {
        self.realm.player_soul_ids()
    }

    /// The world tile a soul stands on now; none off the world surface.
    pub fn soul_cell(&self, soul: u32) -> (cell: Option<(i32, i32)>)
        requires
            self.wf(),
        ensures
            cell == self@.cell_of(soul),
    {
        match self.world.cards.current(soul, self.pulse.clock_ms()) {
            Some(row) => self.realm.world_hex(row),
            None => None,
        }
    }

    /// How many watch a zone; zero unless others do.
    pub fn observers(&self, macro_zone: u64) -> (n: u32)
        requires
            self.wf(),
        ensures
            n == self@.moves.watchers(macro_zone),
    {
        self.moves.observers(macro_zone)
    }

    /// Whether a card was moved and not committed.
    pub fn is_dirty(&self, card_id: u32) -> (b: bool)
        requires
            self.wf(),
        ensures
            b == self@.moves.dirty.contains(card_id as u64),
    {
        self.moves.is_dirty(card_id)
    }

    /// Load content.
    pub fn set_bundle(&mut self, content: Content)
        requires
            old(self).wf(),
            content.wf(),
        ensures
            final(self).wf(),
            final(self)@ == (ClientState { content: Some(content), ..old(self)@ }),
    {
        self.content = Some(content);
    }

    /// Take the errors seen.
    pub fn drain_errors(&mut self) -> (out: Vec<String>)
        requires
            old(self).wf(),
        ensures
            final(self).wf(),
            final(self)@ == (ClientState { errors: Seq::empty(), ..old(self)@ }),
            texts(out@) == old(self)@.errors,
    {
        let mut out: Vec<String> = Vec::new();
        std::mem::swap(&mut out, &mut self.seen_errors);
        assert(self@.errors =~= Seq::empty());
        out
    }

    /// Take how fired actions ended.
    pub fn drain_action_outcomes(&mut self) -> (out: Vec<(String, Option<String>)>)
        requires
            old(self).wf(),
        ensures
            final(self).wf(),
            final(self)@ == (ClientState {
                queue: QueueState { outcomes: Seq::empty(), ..old(self)@.queue },
                ..old(self)@
            }),
            crate::queue::ends(out@) == old(self)@.queue.outcomes,
    {
        self.queue.drain_outcomes()
    }

    /// Sweep out the rows that no soul remembers: kept are those to come, the current
    /// one, and those pinned by a soul's memory of the zone.
    pub fn gc(&mut self)
        requires
            old(self).wf(),
        ensures
            final(self).wf(),
            final(self)@ == (ClientState { world: final(self)@.world, ..old(self)@ }),
            final(self)@.world.tile_cards == old(self)@.world.tile_cards,
            final(self)@.world.cards@.dom() == old(self)@.world.cards@.dom(),
            final(self)@.world.zones@.dom() == old(self)@.world.zones@.dom(),
            forall|id: u64| #[trigger]
                old(self)@.world.cards@.dom().contains(id) ==> exists|pins: Seq<MemEntry>|
                    #![trigger is_frozen_list(
                        old(self)@.realm.zones.mem(),
                        old(self)@.world.cards.home(id, old(self)@.pulse.ms),
                        pins,
                    )]
                    is_frozen_list(
                        old(self)@.realm.zones.mem(),
                        old(self)@.world.cards.home(id, old(self)@.pulse.ms),
                        pins,
                    ) && final(self)@.world.cards@[id] == swept(
                        old(self)@.world.cards@[id],
                        old(self)@.pulse.ms,
                        pins.map_values(|e: MemEntry| e.card_ms),
                    ),
            forall|zone: u64| #[trigger]
                old(self)@.world.zones@.dom().contains(zone) ==> exists|pins: Seq<MemEntry>|
                    #![trigger is_frozen_list(old(self)@.realm.zones.mem(), zone, pins)]
                    is_frozen_list(old(self)@.realm.zones.mem(), zone, pins)
                        && final(self)@.world.zones@[zone] == swept(
                        old(self)@.world.zones@[zone],
                        old(self)@.pulse.ms,
                        pins.map_values(|e: MemEntry| e.zone_ms),
                    ),
            forall|id: u32, s: u64|
                #![trigger final(self)@.world.cards.hist(id), old(self)@.realm.zones.mem()[s]]
                {
                    let mem = old(self)@.realm.zones.mem();
                    let zone = old(self)@.world.cards.home(id as u64, old(self)@.pulse.ms);
                    old(self)@.world.cards@.dom().contains(id as u64) && mem.dom().contains(s)
                        && mem[s].dom().contains(zone) && !mem[s][zone].present
                        ==> final(self)@.world.cards.at(id, mem[s][zone].card_ms) == old(
                        self,
                    )@.world.cards.at(id, mem[s][zone].card_ms)
                },
            forall|zone: u64, s: u64|
                #![trigger final(self)@.world.zones.hist(zone), old(self)@.realm.zones.mem()[s]]
                {
                    let mem = old(self)@.realm.zones.mem();
                    old(self)@.world.zones@.dom().contains(zone) && mem.dom().contains(s)
                        && mem[s].dom().contains(zone) && !mem[s][zone].present
                        ==> final(self)@.world.zones.at(zone, mem[s][zone].zone_ms) == old(
                        self,
                    )@.world.zones.at(zone, mem[s][zone].zone_ms)
                },
    {
        let ghost o = *self;
        let now: u64 = self.pulse.clock_ms();
        let zones = self.realm.zone_manager();
        let card_pins = |zone: u64| -> (pins: Vec<u64>)
            ensures
                exists|out: Seq<MemEntry>| #[trigger]
                    is_frozen_list(zones.mem(), zone, out) && pins@ == out.map_values(
                        |e: MemEntry| e.card_ms,
                    ),
            { zones.zone_card_pins(zone) };
        let tile_pins = |zone: u64| -> (pins: Vec<u64>)
            ensures
                exists|out: Seq<MemEntry>| #[trigger]
                    is_frozen_list(zones.mem(), zone, out) && pins@ == out.map_values(
                        |e: MemEntry| e.zone_ms,
                    ),
            { zones.zone_tile_pins(zone) };
        self.world.cards.gc(now, card_pins);
        self.world.zones.gc(now, tile_pins);
        proof {
            assert forall|id: u64| #[trigger] o@.world.cards@.dom().contains(id) implies exists|
                pins: Seq<MemEntry>,
            |
                #![trigger is_frozen_list(
                    o@.realm.zones.mem(),
                    o@.world.cards.home(id, now),
                    pins,
                )]
                is_frozen_list(o@.realm.zones.mem(), o@.world.cards.home(id, now), pins)
                    && self@.world.cards@[id] == swept(
                    o@.world.cards@[id],
                    now,
                    pins.map_values(|e: MemEntry| e.card_ms),
                ) by {
                let z = o@.world.cards.home(id, now);
                assert(swept_by(
                    card_pins,
                    z,
                    now,
                    o@.world.cards@[id],
                    self@.world.cards@[id],
                ));
                let pins = choose|pins: Vec<u64>| #[trigger]
                    call_ensures(card_pins, (z,), pins) && self@.world.cards@[id] == swept(
                        o@.world.cards@[id],
                        now,
                        pins@,
                    );
                let out = choose|out: Seq<MemEntry>| #[trigger]
                    is_frozen_list(o@.realm.zones.mem(), z, out) && pins@ == out.map_values(
                        |e: MemEntry| e.card_ms,
                    );
                assert(is_frozen_list(o@.realm.zones.mem(), z, out));
            }
            assert forall|zone: u64| #[trigger] o@.world.zones@.dom().contains(zone) implies exists|
                pins: Seq<MemEntry>,
            |
                #![trigger is_frozen_list(o@.realm.zones.mem(), zone, pins)]
                is_frozen_list(o@.realm.zones.mem(), zone, pins) && self@.world.zones@[zone]
                    == swept(
                    o@.world.zones@[zone],
                    now,
                    pins.map_values(|e: MemEntry| e.zone_ms),
                ) by {
                assert(swept_by(
                    tile_pins,
                    zone,
                    now,
                    o@.world.zones@[zone],
                    self@.world.zones@[zone],
                ));
                let pins = choose|pins: Vec<u64>| #[trigger]
                    call_ensures(tile_pins, (zone,), pins) && self@.world.zones@[zone] == swept(
                        o@.world.zones@[zone],
                        now,
                        pins@,
                    );
                let out = choose|out: Seq<MemEntry>| #[trigger]
                    is_frozen_list(o@.realm.zones.mem(), zone, out) && pins@ == out.map_values(
                        |e: MemEntry| e.zone_ms,
                    );
                assert(is_frozen_list(o@.realm.zones.mem(), zone, out));
            }
            let mem = o@.realm.zones.mem();
            assert forall|id: u32, s: u64|
                #![trigger self@.world.cards.hist(id), mem[s]]
                {
                    let zone = o@.world.cards.home(id as u64, now);
                    o@.world.cards@.dom().contains(id as u64) && mem.dom().contains(s)
                        && mem[s].dom().contains(zone) && !mem[s][zone].present
                } implies {
                let zone = o@.world.cards.home(id as u64, now);
                self@.world.cards.at(id, mem[s][zone].card_ms) == o@.world.cards.at(
                    id,
                    mem[s][zone].card_ms,
                )
            } by {
                let zone = o@.world.cards.home(id as u64, now);
                let pins = choose|pins: Seq<MemEntry>|
                    #![trigger is_frozen_list(mem, zone, pins)]
                    is_frozen_list(mem, zone, pins) && self@.world.cards@[id as u64] == swept(
                        o@.world.cards@[id as u64],
                        now,
                        pins.map_values(|e: MemEntry| e.card_ms),
                    );
                law_sweep_keeps_cards_as_souls_saw_them(
                    mem,
                    zone,
                    pins,
                    o@.world.cards@[id as u64],
                    now,
                    s,
                );
            }
            assert forall|zone: u64, s: u64|
                #![trigger self@.world.zones.hist(zone), mem[s]]
                o@.world.zones@.dom().contains(zone) && mem.dom().contains(s)
                    && mem[s].dom().contains(zone) && !mem[s][zone].present implies self@.world.zones.at(
                zone,
                mem[s][zone].zone_ms,
            ) == o@.world.zones.at(zone, mem[s][zone].zone_ms) by {
                let pins = choose|pins: Seq<MemEntry>|
                    #![trigger is_frozen_list(mem, zone, pins)]
                    is_frozen_list(mem, zone, pins) && self@.world.zones@[zone] == swept(
                        o@.world.zones@[zone],
                        now,
                        pins.map_values(|e: MemEntry| e.zone_ms),
                    );
                law_sweep_keeps_tiles_as_souls_saw_them(
                    mem,
                    zone,
                    pins,
                    o@.world.zones@[zone],
                    now,
                    s,
                );
            }
        }
    }

    /// Carry out the zone manager's decisions, and ask for what the zones need.
    pub fn zone_frames(&mut self) -> (out: Vec<ClientMsg>)
        requires
            old(self).wf(),
        ensures
            final(self).wf(),
            final(self)@.framed(old(self)@, msgs(out@)),
    {
        let ghost o = *self;
        let mut out = self.realm.zone_frames();
        let now: u64 = self.pulse.perf_us();
        self.needs.reconcile(self.realm.zone_manager(), now);
        let ghost mid = self.needs@;
        let mut calls = self.needs.pump(&mut self.pulse);
        let ghost a = out@;
        let ghost b = calls@;
        out.append(&mut calls);
        proof {
            assert(out@ =~= a + b);
            assert(msgs(out@) =~= msgs(a) + msgs(b));
            assert(pumped(mid, self@.asks, o@.pulse, self@.pulse, msgs(b)));
        }
        out
    }

    /// Take every frame the core wants sent.
    pub fn drain_outbound(&mut self) -> (out: Vec<ClientMsg>)
        requires
            old(self).wf(),
        ensures
            final(self).wf(),
            exists|frames: Seq<MsgView>|
                {
                    &&& #[trigger] final(self)@.framed(old(self)@.taken(), frames)
                    &&& msgs(out@) == old(self)@.realm.out + frames
                },
    {
        let mut out = self.realm.take_out();
        let mut frames = self.zone_frames();
        let ghost a = out@;
        let ghost b = frames@;
        out.append(&mut frames);
        proof {
            assert(out@ =~= a + b);
            assert(msgs(out@) =~= msgs(a) + msgs(b));
        }
        out
    }

    /// Turn a command into the frames to send. Results arrive later, as events.
    pub fn dispatch(&mut self, cmd: Command) -> (out: Vec<ClientMsg>)
        requires
            old(self).wf(),
        ensures
            final(self).wf(),
            final(self)@.dispatched(old(self)@, cmd, msgs(out@)),
    {
        let ghost o = *self;
        let ms: u64 = self.pulse.clock_ms();
        let mut out: Vec<ClientMsg> = Vec::new();
        match cmd {
            Command::Login { name } => {
                let cid: u32 = self.pulse.cid();
                let sid: u32 = self.realm.sid();
                let filter = join3("name = '", name.as_str(), "'");
                out.push(
                    ClientMsg::Sub { sid, table: "players".to_owned(), filter: Some(filter) },
                );
                out.push(
                    ClientMsg::Call {
                        cid,
                        call: ClientCall::ClaimOrLogin { client_time_ms: ms, name: name.clone() },
                    },
                );
                self.name = Some(name);
                assert(msgs(out@) =~= seq![out@[0]@, out@[1]@]);
            },
            Command::CreateCard { owner, card_key, surface, macro_zone, q, r } => {
                let cid: u32 = self.pulse.cid();
                out.push(
                    ClientMsg::Call {
                        cid,
                        call: ClientCall::CreateCard {
                            client_time_ms: ms,
                            owner_id: owner,
                            surface,
                            card_key,
                            macro_zone,
                            q,
                            r,
                        },
                    },
                );
                assert(msgs(out@) =~= seq![out@[0]@]);
            },
            Command::Subscribe { table, filter } => {
                let sid: u32 = self.realm.sid();
                out.push(ClientMsg::Sub { sid, table, filter });
                assert(msgs(out@) =~= seq![out@[0]@]);
            },
            Command::SetAnchor { name, surface, owner, q, r, radii } => {
                self.realm.set_anchor(name.as_str(), q, r, surface, owner, radii, 0, ms);
                let ghost mid = self@;
                let frames = self.zone_frames();
                proof {
                    assert(mid == ClientState { realm: mid.realm, ..o@ });
                    assert(mid.realm.zones.anchored_from(
                        &o@.realm.zones,
                        name@,
                        (Anchor { q, r, surface, owner, radii, soul: 0 }),
                        ms,
                    ));
                }
                return frames;
            },
            Command::Call { reducer, args } => {
                let cid: u32 = self.pulse.cid();
                out.push(ClientMsg::Call { cid, call: ClientCall::Raw { reducer, args } });
                assert(msgs(out@) =~= seq![out@[0]@]);
            },
        }
        out
    }

    /// Commit cards; the frame to send, if any.
    fn commit(&mut self, ids: &Vec<u32>) -> (out: Vec<ClientMsg>)
        requires
            old(self).wf(),
        ensures
            final(self).wf(),
            (final(self)@, msgs(out@)) == old(self)@.committed(ids@),
    {
        let ghost o = *self;
        let ms: u64 = self.pulse.clock_ms();
        let caller: u32 = match self.player_id {
            Some(id) => id,
            None => 0,
        };
        let call = self.moves.build_move_cards(&self.world.cards, ids, caller, ms, self.pmask);
        let mut out: Vec<ClientMsg> = Vec::new();
        if let Some(call) = call {
            let cid: u32 = self.pulse.cid();
            out.push(ClientMsg::Call { cid, call });
            assert(msgs(out@) =~= seq![out@[0]@]);
        } else {
            assert(msgs(out@) =~= Seq::empty());
        }
        assert(self@ == o@.committed(ids@).0);
        assert(msgs(out@) == o@.committed(ids@).1);
        out
    }

    /// Queue frames.
    fn push_all(&mut self, frames: Vec<ClientMsg>)
        requires
            old(self).wf(),
        ensures
            final(self).wf(),
            final(self)@ == old(self)@.queued_out(msgs(frames@)),
    {
        let ghost o = *self;
        self.realm.push_all(frames);
    }

    /// Commit every dirty card in one batch.
    pub fn flush_positions(&mut self) -> (out: Vec<ClientMsg>)
        requires
            old(self).wf(),
        ensures
            final(self).wf(),
            (final(self)@, msgs(out@)) == old(self)@.flushed(),
    {
        let ids = self.moves.dirty_ids();
        proof {
            lemma_listing(ids@, self@.moves.dirty);
        }
        self.commit(&ids)
    }

    /// Apply a resolved placement plan to the local world. It stays local until a
    /// commit, unless others depend on it; an infeasible move changes nothing.
    pub fn place(&mut self, plan: Result<Vec<Write>, String>) -> (r: Result<
        Vec<ClientMsg>,
        String,
    >)
        requires
            old(self).wf(),
        ensures
            final(self).wf(),
            match plan {
                Ok(writes) => {
                    &&& final(self)@.placed(old(self)@, writes@)
                    &&& r matches Ok(out) && out@ == Seq::<ClientMsg>::empty()
                },
                Err(e) => {
                    &&& final(self)@ == old(self)@
                    &&& r == Err::<Vec<ClientMsg>, String>(e)
                },
            },
    {
        let ghost o = *self;
        let writes = match plan {
            Ok(w) => w,
            Err(e) => {
                return Err(e);
            },
        };
        let now: u64 = self.pulse.clock_ms();
        let moved = self.moves.place(
            &mut self.world.cards,
            &mut self.dirty_roots,
            &writes,
            now,
            self.pmask,
        );
        let ghost mid = self@;
        let known = Known {
            world: &self.world,
            content: &self.content,
            me: self.player_id,
            now,
        };
        if self.moves.syncs_now(&known, &moved) {
            let frames = self.commit(&moved);
            self.push_all(frames);
        }
        proof {
            let b = (Board {
                rows: o@.world.cards@,
                dirty: o@.moves.dirty,
                seq: o@.moves.seq,
                roots: o@.roots,
                moved: Seq::empty(),
            }).planned(writes@, now, o@.pmask);
            assert(mid == ClientState {
                world: mid.world,
                moves: MovesState { dirty: b.dirty, seq: b.seq, ..o@.moves },
                roots: b.roots,
                ..o@
            });
            assert(mid.world.cards@ == b.rows);
        }
        Ok(Vec::new())
    }

    /// Propose a recipe. What is dirty is committed first, so that the server sees the
    /// cards where they are.
    pub fn propose(
        &mut self,
        recipe_name: &str,
        root: u32,
        bindings: Vec<Vec<u32>>,
        surface: u8,
        macro_zone: u64,
        micro_location: u32,
    ) -> (r: Result<Vec<ClientMsg>, String>)
        requires
            old(self).wf(),
        ensures
            final(self).wf(),
            match old(self)@.propose_error(recipe_name@) {
                Some(e) => {
                    &&& r matches Err(text) && text@ == e.text(recipe_name@)
                    &&& final(self)@ == old(self)@
                },
                None => {
                    &&& r matches Ok(out) && (final(self)@, msgs(out@)) == old(self)@.proposed(
                        recipe_name@,
                        root,
                        deep(bindings@),
                        Site { surface, macro_zone, micro_location },
                    )
                },
            },
    {
        let ghost o = *self;
        let recipe_id: u16 = match &self.content {
            Some(content) => match content.recipe_def_id(recipe_name) {
                Some(id) => id,
                None => {
                    let name = quote(recipe_name);
                    let text = join3("propose: unknown recipe ", name.as_str(), "");
                    proof {
                        reveal_strlit("");
                    }
                    assert(text@ =~= "propose: unknown recipe "@ + name@);
                    return Err(text);
                },
            },
            None => {
                return Err("propose: content bundle not loaded".to_owned());
            },
        };
        let caller: u32 = match self.player_id {
            Some(id) => id,
            None => 0,
        };
        let ms: u64 = self.pulse.clock_ms();
        let mut out = self.flush_positions();
        let ghost before = out@;
        let cid: u32 = self.pulse.cid();
        out.push(
            ClientMsg::Call {
                cid,
                call: ClientCall::ProposeAction {
                    recipe_id,
                    surface,
                    macro_zone,
                    micro_location,
                    root,
                    bindings,
                    caller_player_id: caller,
                    client_time_ms: ms,
                },
            },
        );
        proof {
            assert(msgs(out@) =~= msgs(before).push(out@.last()@));
        }
        Ok(out)
    }

    /// The recipes that apply to a root as a soul knows it.
    fn find<J: Fn(&Frame) -> bool, S: Fn(&String, &Subject) -> bool>(
        &self,
        judge: &J,
        shows: &S,
        soul: u32,
        root: u32,
        use_filter: bool,
    ) -> (out: Vec<RecipeMatch>)
        requires
            self.wf(),
            judges(*judge),
            witnesses(*shows),
        ensures
            match_views(out@) == self@.matches_for(*judge, *shows, soul, root, use_filter),
    {
        match &self.content {
            Some(content) => {
                let scene = Scene {
                    world: &self.world,
                    zones: self.realm.zone_manager(),
                    content,
                    soul,
                    now: self.pulse.clock_ms(),
                };
                scene.match_recipes(judge, shows, root, use_filter)
            },
            None => {
                let out: Vec<RecipeMatch> = Vec::new();
                assert(match_views(out@) =~= Seq::empty());
                out
            },
        }
    }

    /// The recipes that apply to a root as a soul knows it, with their bindings.
    pub fn match_recipes<J: Fn(&Frame) -> bool, S: Fn(&String, &Subject) -> bool>(
        &self,
        judge: &J,
        shows: &S,
        soul: u32,
        root: u32,
    ) -> (out: Vec<RecipeMatch>)
        requires
            self.wf(),
            judges(*judge),
            witnesses(*shows),
        ensures
            match_views(out@) == self@.matches_for(*judge, *shows, soul, root, true),
    {
        self.find(judge, shows, soul, root, true)
    }

    /// The same without the aspect filter: every recipe is tried.
    pub fn match_recipes_unfiltered<J: Fn(&Frame) -> bool, S: Fn(&String, &Subject) -> bool>(
        &self,
        judge: &J,
        shows: &S,
        soul: u32,
        root: u32,
    ) -> (out: Vec<RecipeMatch>)
        requires
            self.wf(),
            judges(*judge),
            witnesses(*shows),
        ensures
            match_views(out@) == self@.matches_for(*judge, *shows, soul, root, false),
    {
        self.find(judge, shows, soul, root, false)
    }

    /// Whether the aspect filter drops no match of a root for a soul.
    pub fn filter_is_sound<J: Fn(&Frame) -> bool, S: Fn(&String, &Subject) -> bool>(
        &self,
        judge: &J,
        shows: &S,
        soul: u32,
        root: u32,
    ) -> (b: bool)
        requires
            self.wf(),
            judges(*judge),
            witnesses(*shows),
        ensures
            b == (self@.matches_for(*judge, *shows, soul, root, true) == self@.matches_for(
                *judge,
                *shows,
                soul,
                root,
                false,
            )),
    {
        let kept = self.match_recipes(judge, shows, soul, root);
        let all = self.match_recipes_unfiltered(judge, shows, soul, root);
        same_matches(&kept, &all)
    }

    /// Match a root again for a soul, and queue what comes of it.
    fn evaluate_root<J: Fn(&Frame) -> bool, S: Fn(&String, &Subject) -> bool>(
        &mut self,
        judge: &J,
        shows: &S,
        soul: u32,
        root: u32,
    )
        requires
            old(self).wf(),
            judges(*judge),
            witnesses(*shows),
        ensures
            final(self).wf(),
            final(self)@ == (ClientState {
                queue: old(self)@.queue.evaluated(
                    root,
                    soul,
                    best_of(old(self)@.matches_for(*judge, *shows, soul, root, true)),
                    old(self)@.site_of(root),
                    old(self)@.pulse.perf,
                ),
                ..old(self)@
            }),
    {
        let found = self.find(judge, shows, soul, root, true);
        let ms: u64 = self.pulse.clock_ms();
        let site: Option<Site> = match self.world.cards.current(root, ms) {
            Some(row) => Some(
                Site {
                    surface: row.surface,
                    macro_zone: row.macro_zone,
                    micro_location: row.micro_location,
                },
            ),
            None => None,
        };
        let perf: u64 = self.pulse.perf_us();
        self.queue.evaluate(root, soul, found, site, perf);
    }

    /// Match every dirty root again.
    fn flush_dirty<J: Fn(&Frame) -> bool, S: Fn(&String, &Subject) -> bool>(
        &mut self,
        judge: &J,
        shows: &S,
    )
        requires
            old(self).wf(),
            judges(*judge),
            witnesses(*shows),
        ensures
            final(self).wf(),
            final(self)@ == (ClientState {
                queue: old(self)@.rematched_all(*judge, *shows, listing(old(self)@.roots)),
                roots: Set::empty(),
                ..old(self)@
            }),
    {
        let ghost o = *self;
        let roots = ids_of(&self.dirty_roots);
        proof {
            lemma_listing(roots@, self@.roots);
        }
        self.dirty_roots = OrdMap::new();
        let ms: u64 = self.pulse.clock_ms();
        let n: usize = roots.len();
        let mut i: usize = 0;
        proof {
            assert(roots@.take(0) =~= Seq::empty());
            assert(self@.roots =~= Set::empty());
        }
        while i < n
            invariant
                self.wf(),
                judges(*judge),
                witnesses(*shows),
                n == roots@.len(),
                i <= n,
                ms == o@.pulse.ms,
                self@ == (ClientState {
                    queue: o@.rematched_all(*judge, *shows, roots@.take(i as int)),
                    roots: Set::empty(),
                    ..o@
                }),
            decreases n - i,
        {
            let root: u32 = roots[i];
            let ghost before = self@;
            proof {
                assert(roots@.take(i + 1).drop_last() =~= roots@.take(i as int));
                assert(roots@.take(i + 1).last() == root);
            }
            match self.realm.actor_soul_for_root(&self.world, root, ms) {
                Some(soul) => {
                    self.evaluate_root(judge, shows, soul, root);
                    assert(before.matches_for(*judge, *shows, soul, root, true) == o@.matches_for(
                        *judge,
                        *shows,
                        soul,
                        root,
                        true,
                    ));
                },
                None => {
                    self.queue.drop_pending(root as u64);
                },
            }
            i = i + 1;
        }
        assert(roots@.take(n as int) =~= roots@);
    }

    /// Look at a ready action once more, and propose it.
    fn fire<J: Fn(&Frame) -> bool, S: Fn(&String, &Subject) -> bool>(
        &mut self,
        judge: &J,
        shows: &S,
        root: u64,
    )
        requires
            old(self).wf(),
            judges(*judge),
            witnesses(*shows),
            root <= u32::MAX,
        ensures
            final(self).wf(),
            final(self)@ == old(self)@.fired(*judge, *shows, root),
    {
        let ghost o = *self;
        let (soul, recipe, pass_root, bindings, site): (u32, String, u32, Vec<Vec<u32>>, Site) =
            match self.queue.action(root) {
            Some(a) => (
                a.soul,
                a.recipe.clone(),
                a.root,
                copy_bindings(&a.bindings),
                Site {
                    surface: a.surface,
                    macro_zone: a.macro_zone,
                    micro_location: a.micro_location,
                },
            ),
            None => {
                return ;
            },
        };
        let found = self.find(judge, shows, soul, root as u32, true);
        let still: bool = match self.queue.action(root) {
            Some(a) => stands(&found, a),
            None => false,
        };
        if !still {
            self.queue.remove(root);
            return ;
        }
        let limit: u32 = self.pulse.cid_limit();
        match self.propose(
            recipe.as_str(),
            pass_root,
            bindings,
            site.surface,
            site.macro_zone,
            site.micro_location,
        ) {
            Ok(frames) => {
                proof {
                    assert(msgs(frames@).last() == frames@.last()@);
                }
                let cid: u32 = last_cid(&frames, limit);
                self.push_all(frames);
                self.queue.submit(root, cid);
            },
            Err(_) => {
                self.queue.remove(root);
            },
        }
    }

    /// Propose every action whose window has elapsed.
    fn fire_ready<J: Fn(&Frame) -> bool, S: Fn(&String, &Subject) -> bool>(
        &mut self,
        judge: &J,
        shows: &S,
    )
        requires
            old(self).wf(),
            judges(*judge),
            witnesses(*shows),
        ensures
            final(self).wf(),
            exists|roots: Seq<u64>| #[trigger]
                old(self)@.queue.is_ready_list(old(self)@.pulse.perf, roots) && final(self)@
                    == old(self)@.fired_all(*judge, *shows, roots),
    {
        let ghost o = *self;
        let perf: u64 = self.pulse.perf_us();
        let roots = self.queue.ready_roots(perf);
        let n: usize = roots.len();
        let mut i: usize = 0;
        assert(roots@.take(0) =~= Seq::empty());
        while i < n
            invariant
                self.wf(),
                judges(*judge),
                witnesses(*shows),
                n == roots@.len(),
                i <= n,
                forall|j: int| 0 <= j < n ==> #[trigger] roots@[j] <= u32::MAX,
                self@ == o@.fired_all(*judge, *shows, roots@.take(i as int)),
            decreases n - i,
        {
            proof {
                assert(roots@.take(i + 1).drop_last() =~= roots@.take(i as int));
                assert(roots@.take(i + 1).last() == roots@[i as int]);
            }
            self.fire(judge, shows, roots[i]);
            i = i + 1;
        }
        assert(roots@.take(n as int) =~= roots@);
        assert(self@ == o@.fired_all(*judge, *shows, roots@));
        assert(o@.queue.is_ready_list(o@.pulse.perf, roots@));
    }

    /// Rows that came due mark the chain roots of their cards.
    fn kick(&mut self)
        requires
            old(self).wf(),
        ensures
            final(self).wf(),
            final(self)@ == (ClientState {
                roots: kicked_roots(
                    old(self)@.world.cards@,
                    old(self)@.roots,
                    old(self)@.promotions,
                    old(self)@.pulse.ms,
                ),
                promotions: still_to_come(old(self)@.promotions, old(self)@.pulse.ms),
                ..old(self)@
            }),
    {
        let ghost o = *self;
        let ms: u64 = self.pulse.clock_ms();
        let n: usize = self.pending_promotions.len();
        let ghost all = self.pending_promotions@;
        let mut kept: Vec<(u64, u32)> = Vec::new();
        let mut i: usize = 0;
        proof {
            assert(all.take(0) =~= Seq::empty());
            assert(kept@ =~= Seq::empty());
        }
        while i < n
            invariant
                self.wf(),
                n == all.len(),
                i <= n,
                ms == o@.pulse.ms,
                all == o@.promotions,
                all == self.pending_promotions@,
                kept@ == still_to_come(all.take(i as int), ms),
                self@ == (ClientState {
                    roots: kicked_roots(o@.world.cards@, o@.roots, all.take(i as int), ms),
                    ..o@
                }),
            decreases n - i,
        {
            let (at, id): (u64, u32) = self.pending_promotions[i];
            let ghost before = self@;
            proof {
                assert(all.take(i + 1).drop_last() =~= all.take(i as int));
                assert(all.take(i + 1).last() == (at, id));
            }
            if at <= ms {
                if let Some(root) = chain_root(&self.world.cards, id, ms) {
                    self.dirty_roots.insert(root as u64, ());
                }
                assert(self@.roots =~= marked(before.roots, root_in(o@.world.cards@, id, ms)));
            } else {
                kept.push((at, id));
            }
            i = i + 1;
        }
        assert(all.take(n as int) =~= all);
        self.pending_promotions = kept;
    }

    /// Whether a root is dirty.
    fn has_dirty_roots(&self) -> (b: bool)
        requires
            self.wf(),
        ensures
            b == exists|r: u64| self@.roots.contains(r),
    {
        proof {
            self.dirty_roots.lemma_ks();
        }
        let n: usize = self.dirty_roots.len();
        if n > 0 {
            let k: u64 = self.dirty_roots.key_at(0);
            assert(self@.roots.contains(k));
            true
        } else {
            assert forall|r: u64| !self@.roots.contains(r) by {
                assert(self.dirty_roots@.dom().contains(r) <==> self.dirty_roots.ks().contains(r));
            }
            false
        }
    }

    /// The local clock advanced: refresh the estimate, match dirty roots again within
    /// the budget, and propose what is ready.
    pub fn tick<J: Fn(&Frame) -> bool, S: Fn(&String, &Subject) -> bool>(
        &mut self,
        perf_us: u64,
        judge: &J,
        shows: &S,
    )
        requires
            old(self).wf(),
            judges(*judge),
            witnesses(*shows),
        ensures
            final(self).wf(),
            final(self)@.ticked(old(self)@, perf_us, *judge, *shows),
    {
        let ghost o = *self;
        self.pulse.tick(perf_us);
        self.kick();
        assert(self@ == o@.kicked(perf_us));
        let ghost k = self@;
        if self.has_dirty_roots() && perf_us >= self.last_match_us && perf_us - self.last_match_us
            >= MATCH_BUDGET_US {
            self.last_match_us = perf_us;
            let ghost m = self@;
            self.flush_dirty(judge, shows);
            proof {
                lemma_rematch_frame(k, m, *judge, *shows, listing(k.roots));
            }
        }
        assert(self@ == o@.kicked(perf_us).identified(*judge, *shows));
        self.fire_ready(judge, shows);
    }

    /// Take in a server time.
    fn sample_clock(&mut self, server_micros: &str) -> (out: Vec<Event>)
        requires
            old(self).wf(),
        ensures
            final(self).wf(),
            final(self)@ == (ClientState {
                pulse: old(self)@.pulse.sampled(server_micros@),
                ..old(self)@
            }),
            events(out@) == clock_events(old(self)@.pulse, server_micros@),
    {
        let mut out: Vec<Event> = Vec::new();
        match self.pulse.sample(server_micros) {
            Some(ms) => {
                out.push(Event::Clock { ms });
                assert(events(out@) =~= seq![out@[0]@]);
            },
            None => {
                assert(events(out@) =~= Seq::empty());
            },
        }
        out
    }

    /// A card row landed.
    fn apply_card(&mut self, op: RowOp, row: CardRow)
        requires
            old(self).wf(),
        ensures
            final(self).wf(),
            final(self)@.card_landed(old(self)@, op, row),
    {
        let ghost o = *self;
        let now: u64 = self.pulse.clock_ms();
        let id: u32 = row.card_id;
        self.world.cards.apply(op, row);
        self.realm.note_update(row.macro_zone, DataType::Card, now);
        let ghost a = self.realm@;
        let upsert: bool = match op {
            RowOp::Insert | RowOp::Update => true,
            RowOp::Delete => false,
        };
        if upsert {
            let known = Known {
                world: &self.world,
                content: &self.content,
                me: self.player_id,
                now,
            };
            self.realm.discover(&known, id);
            let ghost b = self.realm@;
            self.realm.ensure_owned_inventory(&known, id);
            proof {
                assert(b.discovered(a, &known, id));
            }
            let ghost w = self.world;
            if let Some(root) = chain_root(&self.world.cards, id, now) {
                self.dirty_roots.insert(root as u64, ());
            }
            let at: u64 = row.time_ms();
            if at > now {
                self.pending_promotions.push((at, id));
            }
            proof {
                assert(self@.roots =~= marked(o@.roots, root_in(self@.world.cards@, id, now)));
                assert(self@.known() == known);
            }
        }
    }

    /// A `players` row landed.
    fn apply_player(&mut self, name: Option<String>, player_id: Option<u32>) -> (out: Vec<Event>)
        requires
            old(self).wf(),
        ensures
            final(self).wf(),
            final(self)@ == old(self)@.introduced(text_of(name), player_id),
            events(out@) == if old(self)@.learns(text_of(name), player_id) {
                seq![EventView::PlayerId { id: player_id->0 }]
            } else {
                Seq::empty()
            },
    {
        let mut out: Vec<Event> = Vec::new();
        assert(events(out@) =~= Seq::empty());
        let ours: bool = match (&self.name, &name) {
            (Some(a), Some(b)) => *a == *b,
            _ => false,
        };
        assert(ours == (name is Some && self@.name == text_of(name)));
        if !ours {
            return out;
        }
        let id: u32 = match player_id {
            Some(id) => id,
            None => {
                return out;
            },
        };
        let stale: bool = match self.player_id {
            Some(old_id) => old_id == id,
            None => false,
        };
        if stale {
            return out;
        }
        self.player_id = Some(id);
        let mut filter = with_number("owner_id = ", id as u64);
        let rest = with_number(" AND packed_definition >= ", PLAYER_SOUL_PACKED_MIN as u64);
        filter.append(rest.as_str());
        self.realm.subscribe("cards", filter);
        out.push(Event::PlayerId { id });
        assert(events(out@) =~= seq![out@[0]@]);
        out
    }

    /// A row landed.
    fn apply_row(&mut self, op: RowOp, row: RowData) -> (out: Vec<Event>)
        requires
            old(self).wf(),
        ensures
            final(self).wf(),
            final(self)@.row_applied(old(self)@, op, row, events(out@)),
    {
        let ghost o = *self;
        let mut out: Vec<Event> = Vec::new();
        assert(events(out@) =~= Seq::empty());
        match row {
            RowData::Card(card) => {
                let card_id: u32 = card.card_id;
                self.apply_card(op, card);
                let ev = match op {
                    RowOp::Insert | RowOp::Update => Event::CardUpserted { card_id },
                    RowOp::Delete => Event::CardRemoved { card_id },
                };
                out.push(ev);
                assert(events(out@) =~= seq![out@[0]@]);
            },
            RowData::Zone(zone) => {
                let macro_zone: u64 = zone.macro_zone;
                let now: u64 = self.pulse.clock_ms();
                self.world.zones.apply(op, zone);
                self.realm.note_update(macro_zone, DataType::Zone, now);
                out.push(Event::ZoneUpserted { macro_zone });
                assert(events(out@) =~= seq![out@[0]@]);
            },
            RowData::Region(region) => {
                self.realm.note_region(op, &region);
            },
            RowData::Player { name, player_id } => {
                return self.apply_player(name, player_id);
            },
            RowData::Undecodable { table, error } => {
                let text = join3(table.as_str(), " row decode: ", error.as_str());
                out.push(Event::Error { error: text });
                assert(events(out@) =~= seq![out@[0]@]);
            },
            RowData::Other { .. } => {},
        }
        out
    }

    /// Fold a frame into the state.
    fn apply_inner(&mut self, msg: GateMsg) -> (out: Vec<Event>)
        requires
            old(self).wf(),
        ensures
            final(self).wf(),
            final(self)@.folded(old(self)@, msg, events(out@)),
    {
        let ghost o = *self;
        let mut out: Vec<Event> = Vec::new();
        assert(events(out@) =~= Seq::empty());
        match msg {
            GateMsg::Time { server_micros } => {
                return self.sample_clock(server_micros.as_str());
            },
            GateMsg::Applied { sid } => {
                out.push(Event::Applied { sid });
                assert(events(out@) =~= seq![out@[0]@]);
            },
            GateMsg::Error { error } => {
                out.push(Event::Error { error });
                assert(events(out@) =~= seq![out@[0]@]);
            },
            GateMsg::CallOk { cid, server_micros } => {
                let perf: u64 = self.pulse.perf_us();
                out = self.sample_clock(server_micros.as_str());
                let ghost before = out@;
                self.queue.resolve_action(cid, None, perf);
                self.needs.on_ok(cid, perf);
                self.pulse.answered(cid);
                out.push(Event::CallOk { cid });
                assert(events(out@) =~= events(before).push(out@.last()@));
            },
            GateMsg::CallErr { cid, error, server_micros } => {
                let perf: u64 = self.pulse.perf_us();
                self.pulse.note_drift(cid, error.as_str());
                out = self.sample_clock(server_micros.as_str());
                let ghost before = out@;
                self.queue.resolve_action(cid, Some(error.as_str()), perf);
                self.needs.on_err(cid, perf);
                self.pulse.answered(cid);
                out.push(Event::CallErr { cid, error });
                assert(events(out@) =~= events(before).push(out@.last()@));
            },
            GateMsg::CallPromise { cid, timeout_ms } => {
                let perf: u64 = self.pulse.perf_us();
                let timeout_us: u64 = thousand_times(timeout_ms);
                self.needs.on_promise(cid, timeout_us, perf);
            },
            GateMsg::Row { op, row } => {
                return self.apply_row(op, row);
            },
            GateMsg::ContentChanged { .. } => {},
            GateMsg::ZoneObservers { macro_zone, observers } => {
                let chars = chars_of(macro_zone.as_str());
                if let Some(zone) = parse_u64(&chars) {
                    self.note_observers(zone, observers);
                }
            },
        }
        out
    }

    /// The server told how many watch a zone.
    fn note_observers(&mut self, zone: u64, observers: u32)
        requires
            old(self).wf(),
        ensures
            final(self).wf(),
            final(self)@.watched(old(self)@, zone, observers),
    {
        let ghost o = *self;
        let ms: u64 = self.pulse.clock_ms();
        let shared: bool = self.moves.observers(zone) <= 1 && observers > 1;
        let ids = self.moves.note_observers(&self.world.cards, zone, observers, ms);
        if shared {
            let frames = self.commit(&ids);
            self.push_all(frames);
            assert(o@.moves.is_dirty_list(o@.world.cards@, zone, ms, ids@));
        }
    }

    /// Fold a frame into the world; what was observed. Errors are kept for
    /// [`Client::drain_errors`].
    pub fn apply(&mut self, msg: GateMsg) -> (out: Vec<Event>)
        requires
            old(self).wf(),
        ensures
            final(self).wf(),
            final(self)@.applied(old(self)@, msg, events(out@)),
    {
        let ghost o = *self;
        let out = self.apply_inner(msg);
        let ghost mid = self@;
        let ghost evs = events(out@);
        let n: usize = out.len();
        let mut i: usize = 0;
        proof {
            assert(evs.take(0) =~= Seq::empty());
            assert(mid.errors + errors_in(evs.take(0)) =~= mid.errors);
        }
        while i < n
            invariant
                self.wf(),
                n == out@.len(),
                i <= n,
                evs == events(out@),
                self@ == (ClientState {
                    errors: mid.errors + errors_in(evs.take(i as int)),
                    ..mid
                }),
            decreases n - i,
        {
            let ghost before = self@;
            proof {
                assert(evs.take(i + 1).drop_last() =~= evs.take(i as int));
                assert(evs.take(i + 1).last() == out@[i as int]@);
            }
            if let Event::Error { error } = &out[i] {
                self.seen_errors.push(error.clone());
                assert(self@.errors =~= before.errors.push(error@));
                assert(errors_in(evs.take(i + 1)) == errors_in(evs.take(i as int)).push(error@));
                assert(self@.errors =~= mid.errors + errors_in(evs.take(i + 1)));
            }
            i = i + 1;
        }
        proof {
            assert(evs.take(n as int) =~= evs);
            assert(mid.folded(o@, msg, evs));
        }
        out
    }

    /// The names of the tiles present in a zone, each once, as they first appear row by
    /// row; nothing while the zone or the content is not loaded.
    pub fn zone_tile_names(&self, macro_zone: u64) -> (out: Vec<String>)
        requires
            self.wf(),
        ensures
            texts(out@) == match (
                self@.content,
                self@.world.zones.at(macro_zone, self@.pulse.ms),
            ) {
                (Some(content), Some(zone)) => tile_names(content, zone.tiles@),
                _ => Seq::empty(),
            },
    {
        let mut out: Vec<String> = Vec::new();
        assert(texts(out@) =~= Seq::empty());
        let content = match &self.content {
            Some(c) => c,
            None => {
                return out;
            },
        };
        let zone = match self.world.zones.current(macro_zone, self.pulse.clock_ms()) {
            Some(z) => z,
            None => {
                return out;
            },
        };
        let n: usize = zone.tiles.len();
        let mut i: usize = 0;
        let ghost all = zone.tiles@;
        assert(all.take(0) =~= Seq::empty());
        while i < n
            invariant
                n == zone.tiles@.len(),
                i <= n,
                all == zone.tiles@,
                texts(out@) == tile_names(*content, all.take(i as int)),
            decreases n - i,
        {
            let slot = zone.tiles[i];
            let ghost before = out@;
            proof {
                assert(all.take(i + 1).drop_last() =~= all.take(i as int));
                assert(all.take(i + 1).last() == slot);
            }
            if slot.def_id != 0 {
                if let Some(d) = content.def_for(slot.packed) {
                    if !has_text(&out, &d.name) {
                        out.push(d.name.clone());
                        assert(texts(out@) =~= texts(before).push(d.name@));
                    }
                }
            }
            i = i + 1;
        }
        assert(all.take(n as int) =~= all);
        out
    }
}

/// The names of tiles, each once, as they first appear.
pub open spec fn tile_names(content: Content, tiles: Seq<TileSlot>) -> Seq<Seq<char>>
    decreases tiles.len(),
{
    if tiles.len() == 0 {
        Seq::empty()
    } else {
        let before = tile_names(content, tiles.drop_last());
        let slot = tiles.last();
        match def_in(content.cards(), slot.packed) {
            Some(d) => if slot.def_id != 0 && !before.contains(d.name@) {
                before.push(d.name@)
            } else {
                before
            },
            None => before,
        }
    }
}

/// The call id of the last frame.
fn last_cid(frames: &Vec<ClientMsg>, or: u32) -> (cid: u32)
    ensures
        frames@.len() > 0 ==> (frames@.last() matches ClientMsg::Call { cid: c, .. } ==> cid == c),
{
    let n: usize = frames.len();
    if n == 0 {
        return or;
    }
    match &frames[n - 1] {
        ClientMsg::Call { cid, .. } => *cid,
        _ => or,
    }
}

/// Matching reads neither the budget's clock nor the set of dirty roots.
proof fn lemma_rematch_frame<
    C: Codec,
    J: Fn(&Frame) -> bool,
    S: Fn(&String, &Subject) -> bool,
>(a: ClientState<C>, b: ClientState<C>, judge: J, shows: S, roots: Seq<u32>)
    requires
        b == (ClientState { last_match: b.last_match, ..a }),
    ensures
        a.rematched_all(judge, shows, roots) == b.rematched_all(judge, shows, roots),
    decreases roots.len(),
{
    if roots.len() > 0 {
        lemma_rematch_frame(a, b, judge, shows, roots.drop_last());
    }
}

/// Committing changes neither the world nor what is queued.
pub proof fn law_commit_leaves_world<C: Codec>(s: ClientState<C>, ids: Seq<u32>)
    ensures
        s.committed(ids).0.world == s.world,
        s.committed(ids).0.queue == s.queue,
        s.committed(ids).0.realm == s.realm,
{
}

/// A proposal leaves nothing dirty, and its last frame is the proposal itself.
pub proof fn law_proposal_commits_everything<C: Codec>(
    s: ClientState<C>,
    recipe: Seq<char>,
    root: u32,
    bindings: Seq<Seq<u32>>,
    site: Site,
)
    requires
        exists|ids: Seq<u32>| lists_set(ids, s.moves.dirty),
    ensures
        s.proposed(recipe, root, bindings, site).0.moves.dirty == Set::<u64>::empty(),
        s.proposed(recipe, root, bindings, site).1.last() matches MsgView::Call { cid, call }
            && call is ProposeAction && cid == s.flushed().0.pulse.next_cid,
        s.proposed(recipe, root, bindings, site).1.len() <= 2,
{
    let ids = choose|ids: Seq<u32>| lists_set(ids, s.moves.dirty);
    lemma_listing(ids, s.moves.dirty);
    crate::moves::law_flush_clears(s.moves.dirty, ids);
}

/// Firing actions leaves the world, the zones and what is ours alone.
proof fn lemma_firing_leaves_world<
    C: Codec,
    J: Fn(&Frame) -> bool,
    S: Fn(&String, &Subject) -> bool,
>(s: ClientState<C>, judge: J, shows: S, roots: Seq<u64>)
    ensures
        s.fired_all(judge, shows, roots).world == s.world,
        s.fired_all(judge, shows, roots).content == s.content,
        s.fired_all(judge, shows, roots).pulse.clock == s.pulse.clock,
        s.fired_all(judge, shows, roots).pulse.perf == s.pulse.perf,
        s.fired_all(judge, shows, roots).realm == (RealmState {
            out: s.fired_all(judge, shows, roots).realm.out,
            ..s.realm
        }),
    decreases roots.len(),
{
    if roots.len() > 0 {
        lemma_firing_leaves_world(s, judge, shows, roots.drop_last());
    }
}

/// A tick leaves the world and the clock samples alone: time passes, actions are matched
/// and proposed, and only the server's rows and our moves change what is where.
pub proof fn law_tick_leaves_world<
    C: Codec,
    J: Fn(&Frame) -> bool,
    S: Fn(&String, &Subject) -> bool,
>(new: ClientState<C>, old: ClientState<C>, perf_us: u64, judge: J, shows: S)
    requires
        new.ticked(old, perf_us, judge, shows),
    ensures
        new.world == old.world,
        new.content == old.content,
        new.pulse.clock == old.pulse.clock,
        new.pulse.perf == perf_us,
        new.realm.zones == old.realm.zones,
        new.realm.souls == old.realm.souls,
        new.realm.player_souls == old.realm.player_souls,
{
    let s = old.kicked(perf_us).identified(judge, shows);
    let roots = choose|roots: Seq<u64>| #[trigger]
        s.queue.is_ready_list(perf_us, roots) && new == s.fired_all(judge, shows, roots);
    lemma_firing_leaves_world(s, judge, shows, roots);
}

/// A row that came due is kicked once: afterwards only later rows wait.
pub proof fn law_promotion_kicks_once(promotions: Seq<(u64, u32)>, now: u64)
    ensures
        forall|i: int|
            0 <= i < still_to_come(promotions, now).len() ==> (#[trigger] still_to_come(
                promotions,
                now,
            )[i]).0 > now,
        still_to_come(still_to_come(promotions, now), now) == still_to_come(promotions, now),
    decreases promotions.len(),
{
    if promotions.len() > 0 {
        let init = promotions.drop_last();
        law_promotion_kicks_once(init, now);
        let kept = still_to_come(promotions, now);
        if promotions.last().0 > now {
            assert(kept.drop_last() =~= still_to_come(init, now));
            assert(kept.last() == promotions.last());
        }
    }
}

/// What matching finds: nothing without content, nothing for a root that is held or dead,
/// each recipe at most once; and with the filter the same as without, where the judge
/// upholds no recipe whose required aspects are out of reach.
pub proof fn law_matching<C: Codec, J: Fn(&Frame) -> bool, S: Fn(&String, &Subject) -> bool>(
    s: ClientState<C>,
    judge: J,
    shows: S,
    soul: u32,
    root: u32,
    use_filter: bool,
)
    requires
        s.content matches Some(content) ==> content.wf() && distinct_recipes(content.recipes()),
    ensures
        s.content is None ==> s.matches_for(judge, shows, soul, root, use_filter).len() == 0,
        root != 0 && is_held(s.world.cards, root, s.pulse.ms) ==> s.matches_for(
            judge,
            shows,
            soul,
            root,
            use_filter,
        ).len() == 0,
        forall|a: int, b: int|
            0 <= a < b < s.matches_for(judge, shows, soul, root, use_filter).len() ==> (
            #[trigger] s.matches_for(judge, shows, soul, root, use_filter)[a]).recipe != (
            #[trigger] s.matches_for(judge, shows, soul, root, use_filter)[b]).recipe,
        s.heeds_filter(judge, shows, soul, root) ==> s.matches_for(judge, shows, soul, root, true)
            == s.matches_for(judge, shows, soul, root, false),
{
    if s.content is Some {
        let content = s.content->0;
        content.lemma_wf();
        let index = content.index();
        let able = matchable(content.recipes());
        lemma_matchable(content.recipes());
        assert forall|a: int, b: int| 0 <= a < b < index.len() implies (#[trigger] index[a]).name@
            != (#[trigger] index[b]).name@ by {
            assert(describes(index[a], able[a]));
            assert(describes(index[b], able[b]));
            assert(able[a].name@ != able[b].name@);
        }
        let scene = s.scene(&content, soul);
        law_recipe_matches_once(scene, judge, shows, index, root, use_filter);
        if s.heeds_filter(judge, shows, soul, root) {
            law_filter_is_sound(scene, judge, shows, index, root);
        }
    }
}

/// Matching within the budget: a second pass at the same moment matches nothing.
pub proof fn law_matching_is_budgeted<
    C: Codec,
    J: Fn(&Frame) -> bool,
    S: Fn(&String, &Subject) -> bool,
>(s: ClientState<C>, judge: J, shows: S)
    ensures
        s.identified(judge, shows).identified(judge, shows) == s.identified(judge, shows),
{
    if s.match_is_due() {
        assert(!s.identified(judge, shows).match_is_due()) by {
            assert forall|r: u64| !s.identified(judge, shows).roots.contains(r) by {}
        }
    }
}

} // verus!
