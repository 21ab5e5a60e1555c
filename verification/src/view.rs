//! What a viewport asks for, and what it shows.
use vstd::prelude::*;

use crate::client::Client;
use crate::codec::Codec;
use crate::content::Content;
use crate::matcher::{Frame, Subject};
use crate::moves::Write;
use crate::rows::{CardRow, Micro, ZoneRow, ZONE_SIZE};
use crate::tally::{CallStats, SubStats};
use crate::text::with_number;
use crate::wire::{ClientMsg, Command, Event, GateMsg};
use crate::world::World;
use crate::zones::{AnchorRadii, ZoneManager, INVENTORY_LAYER};
use vstd::string::StringExecFns;

verus! {

use crate::client::{law_tick_leaves_world, ClientState};
use crate::laws::drawing::{law_view_shows_what_lies_in_it, shows_exactly};
use crate::matcher::{judges, witnesses};
use crate::tally::{CallTally, SubTally};
use crate::text::decimal;
use crate::wire::{events, msgs, text_of, EventView, MsgView};
use crate::world::{is_current_all, is_current_zones, law_only_promotions_show};

/// How far the anchor of a viewport reaches beyond what is visible, in tiles.
pub const ANCHOR_MARGIN_TILES: i32 = 2;

/// Something to draw.
#[derive(Debug, Clone, Copy, PartialEq, Eq, Structural)]
pub enum Renderable {
    Tile { q: i32, r: i32, packed: u16, stock0: u8, stock1: u8 },
    Card { card_id: u32, q: i32, r: i32, packed: u16, stock: u64, flags: u32 },
}

/// A part of one surface.
#[derive(Debug, Clone, Copy, PartialEq, Eq, Structural)]
pub struct Viewport {
    pub surface: u8,
    pub owner: u32,
    pub center_q: i32,
    pub center_r: i32,
    pub half_cols: i32,
    pub half_rows: i32,
}

/// The owner packed in a zone key.
pub open spec fn zone_owner(macro_zone: u64) -> u32 {
    (macro_zone / 0x1_0000_0000) as u32
}

/// The owner packed in a zone key.
pub fn owner_of(macro_zone: u64) -> (owner: u32)
    ensures
        owner == zone_owner(macro_zone),
{
    assert(macro_zone >> 32 == macro_zone / 0x1_0000_0000) by (bit_vector);
    (macro_zone >> 32) as u32
}

/// The distance of two coordinates.
pub open spec fn apart(a: i32, b: i32) -> int {
    if a >= b {
        a - b
    } else {
        b - a
    }
}

impl Viewport {
    /// The surface of a zone is the one shown.
    pub open spec fn shows_zone(self, surface: u8, macro_zone: u64) -> bool {
        surface == self.surface && zone_owner(macro_zone) == self.owner
    }

    /// A tile is visible, or just beside what is.
    pub open spec fn shows_tile(self, q: i32, r: i32) -> bool {
        apart(q, self.center_q) <= self.half_cols + 1 && apart(r, self.center_r) <= self.half_rows
            + 1
    }

    fn is_shown(&self, surface: u8, macro_zone: u64) -> (b: bool)
        ensures
            b == self.shows_zone(surface, macro_zone),
    {
        surface == self.surface && owner_of(macro_zone) == self.owner
    }

    fn is_near(&self, q: i32, r: i32) -> (b: bool)
        ensures
            b == self.shows_tile(q, r),
    {
        let dq: i64 = q as i64 - self.center_q as i64;
        let dr: i64 = r as i64 - self.center_r as i64;
        let cols: i64 = self.half_cols as i64 + 1;
        let rows: i64 = self.half_rows as i64 + 1;
        dq <= cols && -dq <= cols && dr <= rows && -dr <= rows
    }

    /// The tile of the `idx`-th cell of a zone, if it is to be drawn.
    pub open spec fn tile_drawn<C: Codec>(self, codec: C, zone: ZoneRow, idx: nat) -> Option<
        Renderable,
    > {
        let lc = (idx % ZONE_SIZE as nat) as u8;
        let lr = (idx / ZONE_SIZE as nat) as u8;
        let q = codec.unfold(zone.chunk_q, lc);
        let r = codec.unfold(zone.chunk_r, lr);
        match zone.tile_spec(lc, lr) {
            Some(slot) => if self.shows_tile(q, r) {
                Some(
                    Renderable::Tile {
                        q,
                        r,
                        packed: slot.packed,
                        stock0: slot.stock0,
                        stock1: slot.stock1,
                    },
                )
            } else {
                None
            },
            None => None,
        }
    }

    /// The tiles of the first `n` cells of a zone, row by row.
    pub open spec fn tiles_drawn<C: Codec>(self, codec: C, zone: ZoneRow, n: nat) -> Seq<Renderable>
        decreases n,
    {
        if n == 0 {
            Seq::empty()
        } else {
            let before = self.tiles_drawn(codec, zone, (n - 1) as nat);
            match self.tile_drawn(codec, zone, (n - 1) as nat) {
                Some(t) => before.push(t),
                None => before,
            }
        }
    }

    /// The tiles of zones, zone by zone.
    pub open spec fn zones_drawn<C: Codec>(self, codec: C, rows: Seq<&ZoneRow>) -> Seq<Renderable>
        decreases rows.len(),
    {
        if rows.len() == 0 {
            Seq::empty()
        } else {
            let before = self.zones_drawn(codec, rows.drop_last());
            let zone = *rows.last();
            if self.shows_zone(zone.surface, zone.macro_zone) {
                before + self.tiles_drawn(codec, zone, (ZONE_SIZE * ZONE_SIZE) as nat)
            } else {
                before
            }
        }
    }

    /// The cell a card is drawn in: its own if loose, its root's if that is loose.
    pub open spec fn cell_of(world: World, row: CardRow, now: u64) -> Option<(u8, u8)> {
        match row.micro {
            Micro::Loose { local_q, local_r } => Some((local_q, local_r)),
            Micro::Stacked { root, .. } => match world.cards.at(root, now) {
                Some(base) => match base.micro {
                    Micro::Loose { local_q, local_r } => Some((local_q, local_r)),
                    Micro::Stacked { .. } => None,
                },
                None => None,
            },
        }
    }

    /// A card as it is drawn, if it is.
    pub open spec fn card_drawn<C: Codec>(
        self,
        codec: C,
        world: World,
        row: CardRow,
        now: u64,
    ) -> Option<Renderable> {
        match Viewport::cell_of(world, row, now) {
            Some((lq, lr)) => {
                let q = codec.unfold(row.chunk_q, lq);
                let r = codec.unfold(row.chunk_r, lr);
                if !row.dead && self.shows_zone(row.surface, row.macro_zone) && self.shows_tile(
                    q,
                    r,
                ) {
                    Some(
                        Renderable::Card {
                            card_id: row.card_id,
                            q,
                            r,
                            packed: row.packed_definition,
                            stock: row.stock.word,
                            flags: row.flags,
                        },
                    )
                } else {
                    None
                }
            },
            None => None,
        }
    }

    /// Cards as they are drawn.
    pub open spec fn cards_drawn<C: Codec>(
        self,
        codec: C,
        world: World,
        rows: Seq<&CardRow>,
        now: u64,
    ) -> Seq<Renderable>
        decreases rows.len(),
    {
        if rows.len() == 0 {
            Seq::empty()
        } else {
            let before = self.cards_drawn(codec, world, rows.drop_last(), now);
            match self.card_drawn(codec, world, *rows.last(), now) {
                Some(c) => before.push(c),
                None => before,
            }
        }
    }

    /// Draw the tiles of a zone.
    fn draw_zone<C: Codec>(
        &self,
        zones: &ZoneManager<C>,
        zone: &ZoneRow,
        out: &mut Vec<Renderable>,
    )
        requires
            zones.wf(),
        ensures
            final(out)@ == old(out)@ + self.tiles_drawn(
                zones.codec(),
                *zone,
                (ZONE_SIZE * ZONE_SIZE) as nat,
            ),
    {
        let ghost o = out@;
        let n: usize = ZONE_SIZE * ZONE_SIZE;
        let mut idx: usize = 0;
        assert(out@ =~= o + self.tiles_drawn(zones.codec(), *zone, 0));
        while idx < n
            invariant
                zones.wf(),
                n == 49,
                idx <= n,
                out@ == o + self.tiles_drawn(zones.codec(), *zone, idx as nat),
            decreases n - idx,
        {
            let lc: u8 = (idx % ZONE_SIZE) as u8;
            let lr: u8 = (idx / ZONE_SIZE) as u8;
            let ghost before = out@;
            let ghost done = self.tiles_drawn(zones.codec(), *zone, idx as nat);
            if let Some(slot) = zone.tile(lc, lr) {
                let q: i32 = zones.world_tile(zone.chunk_q, lc);
                let r: i32 = zones.world_tile(zone.chunk_r, lr);
                if self.is_near(q, r) {
                    let t = Renderable::Tile {
                        q,
                        r,
                        packed: slot.packed,
                        stock0: slot.stock0,
                        stock1: slot.stock1,
                    };
                    out.push(t);
                    assert(out@ =~= o + done.push(t));
                }
            }
            idx = idx + 1;
        }
    }

    /// The cell a card is drawn in.
    fn cell(world: &World, row: &CardRow, now: u64) -> (c: Option<(u8, u8)>)
        requires
            world.wf(),
        ensures
            c == Viewport::cell_of(*world, *row, now),
    {
        match row.micro {
            Micro::Loose { local_q, local_r } => Some((local_q, local_r)),
            Micro::Stacked { root, .. } => match world.cards.current(root, now) {
                Some(base) => match base.micro {
                    Micro::Loose { local_q, local_r } => Some((local_q, local_r)),
                    Micro::Stacked { .. } => None,
                },
                None => None,
            },
        }
    }

    /// Everything to draw: the tiles first, then the cards.
    pub fn render<C: Codec>(&self, world: &World, zones: &ZoneManager<C>, now: u64) -> (out: Vec<
        Renderable,
    >)
        requires
            world.wf(),
            zones.wf(),
        ensures
            exists|zs: Seq<&ZoneRow>, cs: Seq<&CardRow>|
                {
                    &&& #[trigger] is_current_zones(world.zones, now, zs)
                    &&& #[trigger] is_current_all(world.cards, now, cs)
                    &&& out@ == self.zones_drawn(zones.codec(), zs) + self.cards_drawn(
                        zones.codec(),
                        *world,
                        cs,
                        now,
                    )
                },
            shows_exactly(*self, zones.codec(), *world, now, out@),
    {
        let ghost codec = zones.codec();
        let mut out: Vec<Renderable> = Vec::new();
        let zs = world.zones.current_all(now);
        let n: usize = zs.len();
        let mut i: usize = 0;
        assert(zs@.take(0) =~= Seq::empty());
        assert(out@ =~= self.zones_drawn(codec, zs@.take(0)));
        while i < n
            invariant
                zones.wf(),
                codec == zones.codec(),
                n == zs@.len(),
                i <= n,
                out@ == self.zones_drawn(codec, zs@.take(i as int)),
            decreases n - i,
        {
            proof {
                assert(zs@.take(i + 1).drop_last() =~= zs@.take(i as int));
                assert(zs@.take(i + 1).last() == zs@[i as int]);
            }
            let zone: &ZoneRow = zs[i];
            if self.is_shown(zone.surface, zone.macro_zone) {
                self.draw_zone(zones, zone, &mut out);
            }
            i = i + 1;
        }
        assert(zs@.take(n as int) =~= zs@);
        let cs = world.cards.current_all(now);
        let ghost tiles = out@;
        let m: usize = cs.len();
        let mut j: usize = 0;
        assert(cs@.take(0) =~= Seq::empty());
        assert(out@ =~= tiles + self.cards_drawn(codec, *world, cs@.take(0), now));
        while j < m
            invariant
                world.wf(),
                zones.wf(),
                codec == zones.codec(),
                m == cs@.len(),
                j <= m,
                out@ == tiles + self.cards_drawn(codec, *world, cs@.take(j as int), now),
            decreases m - j,
        {
            let ghost done = self.cards_drawn(codec, *world, cs@.take(j as int), now);
            proof {
                assert(cs@.take(j + 1).drop_last() =~= cs@.take(j as int));
                assert(cs@.take(j + 1).last() == cs@[j as int]);
            }
            let row: CardRow = *cs[j];
            if let Some((lq, lr)) = Viewport::cell(world, &row, now) {
                let q: i32 = zones.world_tile(row.chunk_q, lq);
                let r: i32 = zones.world_tile(row.chunk_r, lr);
                if !row.dead && self.is_shown(row.surface, row.macro_zone) && self.is_near(q, r) {
                    let c = Renderable::Card {
                        card_id: row.card_id,
                        q,
                        r,
                        packed: row.packed_definition,
                        stock: row.stock.word,
                        flags: row.flags,
                    };
                    out.push(c);
                    assert(out@ =~= tiles + done.push(c));
                }
            }
            j = j + 1;
        }
        assert(cs@.take(m as int) =~= cs@);
        assert(is_current_zones(world.zones, now, zs@));
        assert(is_current_all(world.cards, now, cs@));
        proof {
            law_view_shows_what_lies_in_it(*self, codec, *world, now, zs@, cs@);
        }
        out
    }
}

/// An id as a signed number; minus one for none.
pub open spec fn signed_id(id: Option<u32>) -> int {
    match id {
        Some(x) => (x as i32) as int,
        None => -1,
    }
}

/// A card id for a caller without unsigned numbers; minus one for none.
pub fn id_or_none(id: Option<u32>) -> (n: i32)
    ensures
        n == signed_id(id),
{
    match id {
        Some(x) => #[verifier::truncate]
        (x as i32),
        None => -1,
    }
}

/// The name of a viewport's anchor.
pub open spec fn viewport_name(surface: u8, owner: u32) -> Seq<char> {
    "viewport:"@ + decimal(surface as nat) + (":"@ + decimal(owner as nat))
}

/// The command that aims a viewport: an active disk over what is visible, and a margin.
pub open spec fn aims(cmd: Command, v: Viewport, radius_tiles: i32) -> bool {
    cmd matches Command::SetAnchor { name, surface, owner, q, r, radii } && name@ == viewport_name(
        v.surface,
        v.owner,
    ) && surface == v.surface && owner == v.owner && q == v.center_q && r == v.center_r && radii
        == (AnchorRadii {
        active: ((if radius_tiles > 1 {
            radius_tiles
        } else {
            1
        }) + ANCHOR_MARGIN_TILES) as i32,
        hot: 0,
        warm: 0,
        cold: 0,
    })
}

/// Where a given card goes: left to the server, or the cell of a world tile. World
/// surfaces are one grid; pockets belong to their container.
pub open spec fn given_cell<C: Codec>(
    zones: ZoneManager<C>,
    owner: u32,
    zone_owner: u32,
    surface: u8,
    q: i32,
    r: i32,
) -> (u64, u8, u8) {
    if zone_owner == owner && q == 0 && r == 0 {
        (0, 0, 0)
    } else {
        zones.cell_at(
            if surface == INVENTORY_LAYER {
                zone_owner
            } else {
                0
            },
            surface,
            q,
            r,
        )
    }
}

/// The view's side of a client: what it tallies, and what it has to redraw.
#[verifier::reject_recursive_types(C)]
pub ghost struct ViewState<C: Codec> {
    pub core: ClientState<C>,
    pub changed: bool,
    /// The server time at the last look for rows that came due.
    pub drawn_ms: u64,
    pub content_changed: Option<Seq<char>>,
    pub calls: CallTally,
    pub subs: SubTally,
}

/// A card or a zone changed.
pub open spec fn redraws(e: EventView) -> bool {
    e is CardUpserted || e is CardRemoved || e is ZoneUpserted
}

/// One of the events asks for a redraw.
pub open spec fn any_redraws(out: Seq<EventView>) -> bool {
    exists|i: int| 0 <= i < out.len() && redraws(#[trigger] out[i])
}

impl<C: Codec> ViewState<C> {
    /// `self` is `old` after a frame of `bytes` bytes was tallied and folded, with these
    /// events.
    pub open spec fn took(
        self,
        old: ViewState<C>,
        msg: GateMsg,
        bytes: usize,
        evs: Seq<EventView>,
    ) -> bool {
        &&& self.core.applied(old.core, msg, evs)
        &&& self.calls == old.calls.replied(msg, bytes)
        &&& self.subs == old.subs.heard(msg, bytes)
        &&& self.changed == (old.changed || any_redraws(evs))
        &&& self.drawn_ms == old.drawn_ms
        &&& self.content_changed == match msg {
            GateMsg::ContentChanged { version } => Some(version@),
            _ => old.content_changed,
        }
    }

    /// `self` is `old` after some frame was taken.
    pub open spec fn took_some(self, old: ViewState<C>, frame: (GateMsg, usize)) -> bool {
        exists|evs: Seq<EventView>| #[trigger] self.took(old, frame.0, frame.1, evs)
    }

    /// `self` is `old` after the local clock advanced.
    pub open spec fn ticked_from<J: Fn(&Frame) -> bool, S: Fn(&String, &Subject) -> bool>(
        self,
        old: ViewState<C>,
        perf_us: u64,
        judge: J,
        shows: S,
    ) -> bool {
        &&& self == ViewState { core: self.core, ..old }
        &&& self.core.ticked(old.core, perf_us, judge, shows)
    }

    /// `self` is `old` after everything to send was taken. There is something to redraw
    /// where a row arrived, and where one came due since the last look: the clock
    /// reaching its time brings no event.
    pub open spec fn finished(self, old: ViewState<C>, out: Seq<MsgView>, redraw: bool) -> bool {
        &&& self == ViewState {
            core: self.core,
            changed: false,
            drawn_ms: old.core.pulse.ms,
            ..old
        }
        &&& redraw == (old.changed || old.core.world.promotion_in(
            old.drawn_ms,
            old.core.pulse.ms,
        ))
        &&& exists|frames: Seq<MsgView>|
            {
                &&& #[trigger] self.core.framed(old.core.taken(), frames)
                &&& out == old.core.realm.out + frames
            }
    }

    /// `self` is `old` after one drive step: the clock first, so that what the frames say
    /// of the time is held against the local time of this step; then the frames, in
    /// order; then the clock again, and what there is to send.
    pub open spec fn pumped<J: Fn(&Frame) -> bool, S: Fn(&String, &Subject) -> bool>(
        self,
        old: ViewState<C>,
        perf_us: u64,
        frames: Seq<(GateMsg, usize)>,
        judge: J,
        shows: S,
        out: Seq<MsgView>,
        redraw: bool,
    ) -> bool {
        exists|states: Seq<ViewState<C>>, last: ViewState<C>|
            {
                &&& #[trigger] folds(states, frames)
                &&& states[0].ticked_from(old, perf_us, judge, shows)
                &&& last.ticked_from(states.last(), perf_us, judge, shows)
                &&& #[trigger] self.finished(last, out, redraw)
            }
    }
}

/// Each state comes of the one before by a frame.
pub open spec fn folds<C: Codec>(states: Seq<ViewState<C>>, frames: Seq<(GateMsg, usize)>) -> bool {
    &&& states.len() == frames.len() + 1
    &&& forall|i: int|
        0 <= i < frames.len() ==> states[i + 1].took_some(states[i], #[trigger] frames[i])
}

/// A client with a view.
pub struct ViewClient<C: Codec> {
    core: Client<C>,
    changed: bool,
    drawn_ms: u64,
    content_changed: Option<String>,
    stats: CallStats,
    subs: SubStats,
}

impl<C: Codec> View for ViewClient<C> {
    type V = ViewState<C>;

    closed spec fn view(&self) -> ViewState<C> {
        ViewState {
            core: self.core@,
            changed: self.changed,
            drawn_ms: self.drawn_ms,
            content_changed: text_of(self.content_changed),
            calls: self.stats@,
            subs: self.subs@,
        }
    }
}

impl<C: Codec> ViewClient<C> {
    pub closed spec fn wf(&self) -> bool {
        self.core.wf() && self.stats.wf() && self.subs.wf()
    }

    pub fn new(core: Client<C>) -> (v: Self)
        requires
            core.wf(),
        ensures
            v.wf(),
            v@ == (ViewState {
                core: core@,
                changed: false,
                drawn_ms: core@.pulse.ms,
                content_changed: None,
                calls: CallTally { by_reducer: Map::empty(), in_flight: Map::empty() },
                subs: SubTally { by_table: Map::empty(), open_subs: Map::empty() },
            }),
    {
        let drawn_ms: u64 = core.clock_ms();
        ViewClient {
            core,
            changed: false,
            drawn_ms,
            content_changed: None,
            stats: CallStats::new(),
            subs: SubStats::new(),
        }
    }

    /// The client.
    pub fn client(&self) -> (c: &Client<C>)
        requires
            self.wf(),
        ensures
            c@ == self@.core,
            c.wf(),
    {
        &self.core
    }

    /// Run a command.
    pub fn dispatch(&mut self, cmd: Command) -> (out: Vec<ClientMsg>)
        requires
            old(self).wf(),
        ensures
            final(self).wf(),
            final(self)@ == (ViewState { core: final(self)@.core, ..old(self)@ }),
            final(self)@.core.dispatched(old(self)@.core, cmd, msgs(out@)),
    {
        self.core.dispatch(cmd)
    }

    /// Take content into use.
    pub fn set_bundle(&mut self, content: Content)
        requires
            old(self).wf(),
            content.wf(),
        ensures
            final(self).wf(),
            final(self)@ == (ViewState {
                core: ClientState { content: Some(content), ..old(self)@.core },
                ..old(self)@
            }),
    {
        self.core.set_bundle(content);
    }

    /// Apply a resolved placement plan; an infeasible move changes nothing.
    pub fn place(&mut self, plan: Result<Vec<Write>, String>) -> (r: Result<Vec<ClientMsg>, String>)
        requires
            old(self).wf(),
        ensures
            final(self).wf(),
            final(self)@ == (ViewState { core: final(self)@.core, ..old(self)@ }),
            match plan {
                Ok(writes) => {
                    &&& final(self)@.core.placed(old(self)@.core, writes@)
                    &&& r matches Ok(out) && out@ == Seq::<ClientMsg>::empty()
                },
                Err(e) => {
                    &&& final(self)@.core == old(self)@.core
                    &&& r == Err::<Vec<ClientMsg>, String>(e)
                },
            },
    {
        self.core.place(plan)
    }

    /// Aim a viewport.
    pub fn set_anchor(&mut self, surface: u8, owner: u32, q: i32, r: i32, radius_tiles: i32) -> (out:
        Vec<ClientMsg>)
        requires
            old(self).wf(),
            radius_tiles <= i32::MAX - ANCHOR_MARGIN_TILES,
        ensures
            final(self).wf(),
            final(self)@ == (ViewState { core: final(self)@.core, ..old(self)@ }),
            exists|cmd: Command| #[trigger]
                final(self)@.core.dispatched(old(self)@.core, cmd, msgs(out@)) && aims(
                    cmd,
                    (Viewport {
                        surface,
                        owner,
                        center_q: q,
                        center_r: r,
                        half_cols: 0,
                        half_rows: 0,
                    }),
                    radius_tiles,
                ),
    {
        let active: i32 = (if radius_tiles > 1 {
            radius_tiles
        } else {
            1
        }) + ANCHOR_MARGIN_TILES;
        let mut name = with_number("viewport:", surface as u64);
        let tail = with_number(":", owner as u64);
        name.append(tail.as_str());
        let cmd = Command::SetAnchor {
            name,
            surface,
            owner,
            q,
            r,
            radii: AnchorRadii { active, hot: 0, warm: 0, cold: 0 },
        };
        let ghost c = cmd;
        let out = self.dispatch(cmd);
        proof {
            assert(aims(
                c,
                (Viewport { surface, owner, center_q: q, center_r: r, half_cols: 0, half_rows: 0 }),
                radius_tiles,
            ));
        }
        out
    }

    /// Create a card for an owner, where the view wants it.
    pub fn give(
        &mut self,
        owner: u32,
        card_key: String,
        zone_owner: u32,
        surface: u8,
        world_q: i32,
        world_r: i32,
    ) -> (out: Vec<ClientMsg>)
        requires
            old(self).wf(),
        ensures
            final(self).wf(),
            final(self)@ == (ViewState { core: final(self)@.core, ..old(self)@ }),
            ({
                let (macro_zone, q, r) = given_cell(
                    old(self)@.core.realm.zones,
                    owner,
                    zone_owner,
                    surface,
                    world_q,
                    world_r,
                );
                final(self)@.core.dispatched(
                    old(self)@.core,
                    Command::CreateCard { owner, card_key, surface, macro_zone, q, r },
                    msgs(out@),
                )
            }),
    {
        let (macro_zone, q, r): (u64, u8, u8) = if zone_owner == owner && world_q == 0 && world_r
            == 0 {
            (0, 0, 0)
        } else {
            let zo: u32 = if surface == INVENTORY_LAYER {
                zone_owner
            } else {
                0
            };
            self.core.zones().locate(zo, surface, world_q, world_r)
        };
        self.dispatch(Command::CreateCard { owner, card_key, surface, macro_zone, q, r })
    }

    /// The local clock advanced.
    pub fn tick<J: Fn(&Frame) -> bool, S: Fn(&String, &Subject) -> bool>(
        &mut self,
        perf_us: u64,
        judge: &J,
        shows: &S,
    )
        requires
            old(self).wf(),
            judges(*judge),
            witnesses(*shows),
        ensures
            final(self).wf(),
            final(self)@.ticked_from(old(self)@, perf_us, *judge, *shows),
    {
        self.core.tick(perf_us, judge, shows);
    }

    /// A frame of `bytes` bytes arrived: tally it, fold it, and note whether there is
    /// something to redraw or new content to load.
    pub fn take_frame(&mut self, msg: GateMsg, bytes: usize) -> (out: Vec<Event>)
        requires
            old(self).wf(),
        ensures
            final(self).wf(),
            final(self)@.took(old(self)@, msg, bytes, events(out@)),
    {
        self.stats.note_reply(&msg, bytes);
        self.subs.note_inbound(&msg, bytes);
        if let GateMsg::ContentChanged { version } = &msg {
            self.content_changed = Some(version.clone());
        }
        let out = self.core.apply(msg);
        let ghost evs = events(out@);
        let n: usize = out.len();
        let mut i: usize = 0;
        while i < n
            invariant
                self.wf(),
                n == out@.len(),
                i <= n,
                evs == events(out@),
                self.core@.applied(old(self)@.core, msg, evs),
                self@.calls == old(self)@.calls.replied(msg, bytes),
                self@.subs == old(self)@.subs.heard(msg, bytes),
                self@.content_changed == (match msg {
                    GateMsg::ContentChanged { version } => Some(version@),
                    _ => old(self)@.content_changed,
                }),
                self@.drawn_ms == old(self)@.drawn_ms,
                self.changed == (old(self)@.changed || exists|j: int|
                    0 <= j < i && redraws(#[trigger] evs[j])),
            decreases n - i,
        {
            assert(evs[i as int] == out@[i as int]@);
            let redraw: bool = match &out[i] {
                Event::CardUpserted { .. } => true,
                Event::CardRemoved { .. } => true,
                Event::ZoneUpserted { .. } => true,
                _ => false,
            };
            assert(redraw == redraws(evs[i as int]));
            if redraw {
                self.changed = true;
            }
            i = i + 1;
        }
        out
    }

    /// Take every frame the client wants sent, and whether there is something to redraw.
    pub fn finish(&mut self) -> (r: (Vec<ClientMsg>, bool))
        requires
            old(self).wf(),
        ensures
            final(self).wf(),
            final(self)@.finished(old(self)@, msgs(r.0@), r.1),
    {
        let now: u64 = self.core.clock_ms();
        let kicked: bool = self.core.world().promotes(self.drawn_ms, now);
        let out = self.core.drain_outbound();
        let redraw: bool = self.changed || kicked;
        self.changed = false;
        self.drawn_ms = now;
        (out, redraw)
    }

    /// One drive step: what to send after these frames arrived, each with its size, and
    /// whether there is something to redraw.
    pub fn pump<J: Fn(&Frame) -> bool, S: Fn(&String, &Subject) -> bool>(
        &mut self,
        perf_us: u64,
        frames: Vec<(GateMsg, usize)>,
        judge: &J,
        shows: &S,
    ) -> (r: (Vec<ClientMsg>, bool))
        requires
            old(self).wf(),
            judges(*judge),
            witnesses(*shows),
        ensures
            final(self).wf(),
            final(self)@.pumped(old(self)@, perf_us, frames@, *judge, *shows, msgs(r.0@), r.1),
    {
        let ghost o = self@;
        let ghost all = frames@;
        let n: usize = frames.len();
        let mut rest = frames;
        self.tick(perf_us, judge, shows);
        let ghost mut states = seq![self@];
        let mut i: usize = 0;
        assert(rest@ =~= all.skip(0));
        while i < n
            invariant
                self.wf(),
                n == all.len(),
                i <= n,
                rest@ == all.skip(i as int),
                states.len() == i + 1,
                states.last() == self@,
                states[0].ticked_from(o, perf_us, *judge, *shows),
                forall|k: int|
                    0 <= k < i ==> states[k + 1].took_some(states[k], #[trigger] all[k]),
            decreases n - i,
        {
            let (msg, bytes) = rest.remove(0);
            let ghost before = states;
            assert((msg, bytes) == all[i as int]);
            assert(rest@ =~= all.skip(i + 1));
            let evs = self.take_frame(msg, bytes);
            proof {
                assert(self@.took_some(before.last(), all[i as int]));
                states = before.push(self@);
                assert forall|k: int| 0 <= k < i + 1 implies states[k + 1].took_some(
                    states[k],
                    #[trigger] all[k],
                ) by {
                    if k < i {
                        assert(before[k + 1].took_some(before[k], all[k]));
                    }
                }
            }
            i = i + 1;
        }
        assert(folds(states, all));
        self.tick(perf_us, judge, shows);
        let ghost last = self@;
        let r = self.finish();
        assert(self@.finished(last, msgs(r.0@), r.1));
        r
    }

    /// A frame was sent, taking `bytes` bytes.
    pub fn note_sent(&mut self, frame: &ClientMsg, bytes: usize)
        requires
            old(self).wf(),
        ensures
            final(self).wf(),
            final(self)@ == match *frame {
                ClientMsg::Call { cid, call } => ViewState {
                    calls: old(self)@.calls.sent(cid, call.reducer_spec(), bytes),
                    ..old(self)@
                },
                _ => ViewState { subs: old(self)@.subs.sent(frame@, bytes), ..old(self)@ },
            },
    {
        match frame {
            ClientMsg::Call { cid, call } => {
                let reducer = call.reducer();
                self.stats.note_send(*cid, &reducer, bytes);
            },
            _ => {
                self.subs.note_send(frame, bytes);
            },
        }
    }

    /// The version of new content, once.
    pub fn take_content_changed(&mut self) -> (v: Option<String>)
        requires
            old(self).wf(),
        ensures
            final(self).wf(),
            text_of(v) == old(self)@.content_changed,
            final(self)@ == (ViewState { content_changed: None, ..old(self)@ }),
    {
        let mut v: Option<String> = None;
        std::mem::swap(&mut v, &mut self.content_changed);
        v
    }

    /// Our player id, or minus one.
    pub fn player_id(&self) -> (n: i32)
        ensures
            n == signed_id(self@.core.player_id),
    {
        id_or_none(self.core.player_id())
    }

    /// Our first player soul, or minus one.
    pub fn player_soul_id(&self) -> (n: i32)
        requires
            self.wf(),
        ensures
            n == ({
                let ids = crate::realm::listing(self@.core.realm.player_souls);
                signed_id(
                    if ids.len() > 0 {
                        Some(ids[0])
                    } else {
                        None
                    },
                )
            }),
    {
        let ids = self.core.player_souls();
        proof {
            crate::realm::lemma_listing(ids@, self@.core.realm.player_souls);
        }
        if ids.len() > 0 {
            id_or_none(Some(ids[0]))
        } else {
            id_or_none(None)
        }
    }

    /// Calls by reducer.
    pub fn call_stats(&self) -> (out: Vec<(String, crate::tally::CmdStat)>)
        requires
            self.wf(),
        ensures
            crate::tally::lists_entries(out@, self@.calls.by_reducer),
    {
        self.stats.report()
    }

    /// Subscriptions by table.
    pub fn sub_stats(&self) -> (out: Vec<(String, crate::tally::TableStat)>)
        requires
            self.wf(),
        ensures
            crate::tally::lists_entries(out@, self@.subs.by_table),
    {
        self.subs.report()
    }

    /// What a part of a surface shows now: its tiles first, then its cards.
    pub fn render_region(
        &self,
        surface: u8,
        owner: u32,
        center_q: i32,
        center_r: i32,
        half_cols: i32,
        half_rows: i32,
    ) -> (out: Vec<Renderable>)
        requires
            self.wf(),
        ensures
            ({
                let v = Viewport { surface, owner, center_q, center_r, half_cols, half_rows };
                let s = self@.core;
                exists|zs: Seq<&ZoneRow>, cs: Seq<&CardRow>|
                    {
                        &&& #[trigger] is_current_zones(s.world.zones, s.pulse.ms, zs)
                        &&& #[trigger] is_current_all(s.world.cards, s.pulse.ms, cs)
                        &&& out@ == v.zones_drawn(s.realm.zones.codec(), zs) + v.cards_drawn(
                            s.realm.zones.codec(),
                            s.world,
                            cs,
                            s.pulse.ms,
                        )
                    }
            }),
            shows_exactly(
                (Viewport { surface, owner, center_q, center_r, half_cols, half_rows }),
                self@.core.realm.zones.codec(),
                self@.core.world,
                self@.core.pulse.ms,
                out@,
            ),
    {
        let v = Viewport { surface, owner, center_q, center_r, half_cols, half_rows };
        v.render(self.core.world(), self.core.zones(), self.core.clock_ms())
    }
}

/// The clock is advanced before anything is folded: what a frame says of the server's time
/// is held against the local time of the step it arrived in.
pub proof fn law_clock_is_advanced_first<
    C: Codec,
    J: Fn(&Frame) -> bool,
    S: Fn(&String, &Subject) -> bool,
>(before: ViewState<C>, after: ViewState<C>, perf_us: u64, judge: J, shows: S)
    requires
        after.ticked_from(before, perf_us, judge, shows),
    ensures
        after.core.pulse.perf == perf_us,
{
    law_tick_leaves_world(after.core, before.core, perf_us, judge, shows);
}

/// Where nothing is to be redrawn, the step shows of every card and zone what the last one
/// showed, as far as no row arrived: nothing comes due unseen.
pub proof fn law_nothing_comes_due_unseen<C: Codec>(
    before: ViewState<C>,
    after: ViewState<C>,
    out: Seq<MsgView>,
    id: u32,
    zone: u64,
)
    requires
        before.core.world.wf(),
        before.drawn_ms <= before.core.pulse.ms,
        after.finished(before, out, false),
    ensures
        !before.changed,
        before.core.world.cards.at(id, before.drawn_ms) == before.core.world.cards.at(
            id,
            after.drawn_ms,
        ),
        before.core.world.zones.at(zone, before.drawn_ms) == before.core.world.zones.at(
            zone,
            after.drawn_ms,
        ),
{
    law_only_promotions_show(before.core.world, before.drawn_ms, after.drawn_ms, id, zone);
}

/// A chat message.
#[derive(Debug)]
pub struct ChatMsg {
    pub sent_at: u64,
    pub sender_player_id: u32,
    pub sender_name: String,
    pub body: String,
}

/// In order of sending.
pub open spec fn in_time(v: Seq<ChatMsg>) -> bool {
    forall|i: int, j: int|
        0 <= i < j < v.len() ==> (#[trigger] v[i]).sent_at <= (#[trigger] v[j]).sent_at
}

/// The messages with one more put in place, behind those sent at the same time.
pub open spec fn placed_in_time(v: Seq<ChatMsg>, m: ChatMsg) -> Seq<ChatMsg>
    decreases v.len(),
{
    if v.len() == 0 || v.last().sent_at <= m.sent_at {
        v.push(m)
    } else {
        placed_in_time(v.drop_last(), m).push(v.last())
    }
}

/// The messages in order of sending; those sent at the same time keep their order.
pub open spec fn sorted_in_time(v: Seq<ChatMsg>) -> Seq<ChatMsg>
    decreases v.len(),
{
    if v.len() == 0 {
        v
    } else {
        placed_in_time(sorted_in_time(v.drop_last()), v.last())
    }
}

/// Putting a message in place keeps the order, and what is there.
proof fn lemma_placed(v: Seq<ChatMsg>, m: ChatMsg)
    requires
        in_time(v),
    ensures
        in_time(placed_in_time(v, m)),
        placed_in_time(v, m).len() == v.len() + 1,
        placed_in_time(v, m).to_multiset() =~= v.to_multiset().insert(m),
        forall|i: int|
            0 <= i < placed_in_time(v, m).len() ==> (#[trigger] placed_in_time(v, m)[i]) == m
                || v.contains(placed_in_time(v, m)[i]),
    decreases v.len(),
{
    broadcast use vstd::seq_lib::group_to_multiset_ensures;

    let p = placed_in_time(v, m);
    if v.len() == 0 || v.last().sent_at <= m.sent_at {
        assert forall|i: int| 0 <= i < p.len() implies (#[trigger] p[i]) == m || v.contains(p[i]) by {
            if i < v.len() {
                assert(v[i] == p[i]);
            }
        }
    } else {
        let init = v.drop_last();
        lemma_placed(init, m);
        let q = placed_in_time(init, m);
        assert(v =~= init.push(v.last()));
        assert forall|i: int| 0 <= i < p.len() implies (#[trigger] p[i]) == m || v.contains(p[i]) by {
            if i < q.len() {
                assert(p[i] == q[i]);
                if q[i] != m {
                    let j = init.index_of(q[i]);
                    assert(v[j] == q[i]);
                }
            } else {
                assert(v[v.len() - 1] == p[i]);
            }
        }
        assert forall|i: int, j: int| 0 <= i < j < p.len() implies (#[trigger] p[i]).sent_at <= (
        #[trigger] p[j]).sent_at by {
            if j < q.len() {
                assert(q[i].sent_at <= q[j].sent_at);
            } else if q[i] != m {
                let k = init.index_of(q[i]);
                assert(v[k] == q[i]);
                assert(v[k].sent_at <= v[v.len() - 1].sent_at);
            }
        }
        assert(p.to_multiset() =~= q.to_multiset().insert(v.last()));
        assert(v.to_multiset() =~= init.to_multiset().insert(v.last()));
    }
}

/// Sorting puts messages in order and loses none.
pub proof fn law_sorting_keeps_messages(v: Seq<ChatMsg>)
    ensures
        in_time(sorted_in_time(v)),
        sorted_in_time(v).to_multiset() =~= v.to_multiset(),
    decreases v.len(),
{
    broadcast use vstd::seq_lib::group_to_multiset_ensures;

    if v.len() > 0 {
        let init = v.drop_last();
        law_sorting_keeps_messages(init);
        lemma_placed(sorted_in_time(init), v.last());
        assert(v =~= init.push(v.last()));
    }
}

/// Sort messages by the time of sending.
pub fn sort_chat(msgs: Vec<ChatMsg>) -> (out: Vec<ChatMsg>)
    ensures
        out@ == sorted_in_time(msgs@),
{
    let ghost all = msgs@;
    let mut rest = msgs;
    let mut out: Vec<ChatMsg> = Vec::new();
    let n: usize = rest.len();
    let mut i: usize = 0;
    assert(all.take(0) =~= Seq::empty());
    assert(rest@ =~= all.skip(0));
    assert(out@ =~= sorted_in_time(all.take(0)));
    while i < n
        invariant
            n == all.len(),
            i <= n,
            rest@ == all.skip(i as int),
            out@ == sorted_in_time(all.take(i as int)),
        decreases n - i,
    {
        let m = rest.remove(0);
        assert(m == all[i as int]);
        assert(rest@ =~= all.skip(i + 1));
        proof {
            assert(all.take(i + 1).drop_last() =~= all.take(i as int));
            assert(all.take(i + 1).last() == m);
        }
        let ghost o = out@;
        let mut at: usize = out.len();
        assert(o.take(at as int) =~= o);
        assert(placed_in_time(o, m) =~= placed_in_time(o.take(at as int), m) + o.skip(at as int));
        while at > 0 && out[at - 1].sent_at > m.sent_at
            invariant
                at <= o.len(),
                out@ == o,
                placed_in_time(o, m) == placed_in_time(o.take(at as int), m) + o.skip(at as int),
            decreases at,
        {
            proof {
                let t = o.take(at as int);
                assert(t.drop_last() =~= o.take(at - 1));
                assert(t.last() == o[at - 1]);
                assert(placed_in_time(o, m) =~= placed_in_time(o.take(at - 1), m) + o.skip(at - 1));
            }
            at = at - 1;
        }
        out.insert(at, m);
        assert(out@ =~= placed_in_time(o, m)) by {
            assert(placed_in_time(o.take(at as int), m) == o.take(at as int).push(m));
            assert(o.insert(at as int, m) =~= o.take(at as int).push(m) + o.skip(at as int));
        }
        i = i + 1;
    }
    assert(all.take(n as int) =~= all);
    out
}

} // verus!
