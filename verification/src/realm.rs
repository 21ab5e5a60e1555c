//! What is ours: player souls, souls, containers, and the zones they hold.
//!
//! Discovery walks from the player to the player souls it owns, from those to the
//! souls they own, and from a soul to its inventory. Each step reacts to one card
//! row: a player soul's roster is subscribed, a soul is anchored where it stands
//! and its inventory is held.
use vstd::prelude::*;

use crate::codec::Codec;
use crate::content::Content;
use crate::links::Links;
use crate::ordmap::OrdMap;
use crate::rows::{CardRow, Micro, RegionRow, RowOp};
use crate::text::with_number;
use crate::wire::{is_player_soul, ClientMsg};
use crate::world::World;
use crate::zones::{Anchor, AnchorRadii, DataType, ZoneManager, WORLD_LAYER};

verus! {

use crate::links::LinkState;
use crate::ordmap::ascending;
use crate::pulse::id_after;
use crate::subs::lookup;
use crate::text::decimal;
use crate::wire::{is_player_soul_spec, msgs, MsgView};
use crate::world::{is_current_all, Cards};
use crate::zones::RegionBits;

/// What discovery reads: the world, the content, who we are, and what time it is.
pub struct Known<'a> {
    pub world: &'a World,
    pub content: &'a Option<Content>,
    pub me: Option<u32>,
    pub now: u64,
}

impl<'a> Known<'a> {
    pub open spec fn wf(&self) -> bool {
        self.world.wf()
    }

    /// The card is a player soul of ours.
    pub open spec fn is_mine(&self, id: u32) -> bool {
        self.world.cards.at(id, self.now) matches Some(row) && self.me == Some(row.owner_id)
            && is_player_soul_spec(row.packed_definition)
    }

    /// The anchor radii of a definition; none while no content is loaded.
    pub open spec fn radii(&self, packed: u16) -> AnchorRadii {
        match *self.content {
            Some(c) => c.radii_of(packed),
            None => AnchorRadii { active: 0, hot: 0, warm: 0, cold: 0 },
        }
    }

    pub fn anchor_radii(&self, packed: u16) -> (r: AnchorRadii)
        ensures
            r == self.radii(packed),
    {
        match self.content {
            Some(c) => c.anchor_radii(packed),
            None => AnchorRadii { active: 0, hot: 0, warm: 0, cold: 0 },
        }
    }

    /// The definition is a container.
    pub open spec fn is_container(&self, packed: u16) -> bool {
        *self.content matches Some(c) && c.is_container(packed)
    }

    pub fn has_inventory(&self, packed: u16) -> (b: bool)
        ensures
            b == self.is_container(packed),
    {
        match self.content {
            Some(c) => c.has_inventory(packed),
            None => false,
        }
    }
}

/// `ids` lists the cards that `owner` owns, itself aside, by ascending id.
pub open spec fn is_owned_list(cards: Cards, owner: u32, now: u64, ids: Seq<u32>) -> bool {
    &&& forall|a: int, b: int| 0 <= a < b < ids.len() ==> #[trigger] ids[a] < #[trigger] ids[b]
    &&& forall|id: u32| #[trigger]
        ids.contains(id) <==> id != owner && (cards.at(id, now) matches Some(row) && row.owner_id
            == owner)
}

/// The cards that `owner` owns, itself aside, by ascending id.
pub fn owned_by(world: &World, owner: u32, now: u64) -> (ids: Vec<u32>)
    requires
        world.wf(),
    ensures
        is_owned_list(world.cards, owner, now, ids@),
{
    let rows = world.cards.current_all(now);
    let n: usize = rows.len();
    let mut ids: Vec<u32> = Vec::new();
    let mut i: usize = 0;
    while i < n
        invariant
            is_current_all(world.cards, now, rows@),
            n == rows@.len(),
            i <= n,
            forall|a: int, b: int|
                0 <= a < b < ids@.len() ==> #[trigger] ids@[a] < #[trigger] ids@[b],
            forall|a: int|
                0 <= a < ids@.len() ==> #[trigger] ids@[a] != owner && (world.cards.at(
                    ids@[a],
                    now,
                ) matches Some(row) && row.owner_id == owner),
            forall|a: int, p: int|
                0 <= a < ids@.len() && i <= p < n ==> #[trigger] ids@[a] < (
                #[trigger] rows@[p]).card_id,
            forall|p: int|
                0 <= p < i && (#[trigger] rows@[p]).owner_id == owner && rows@[p].card_id != owner
                    ==> ids@.contains(rows@[p].card_id),
        decreases n - i,
    {
        let row: CardRow = *rows[i];
        assert(world.cards.at(rows@[i as int].card_id, now) == Some(row));
        let ghost before = ids@;
        if row.owner_id == owner && row.card_id != owner {
            ids.push(row.card_id);
            assert(ids@[before.len() as int] == row.card_id);
        }
        proof {
            assert forall|p: int| 0 <= p < i + 1 && (#[trigger] rows@[p]).owner_id == owner
                && rows@[p].card_id != owner implies ids@.contains(rows@[p].card_id) by {
                if p < i {
                    let a = before.index_of(rows@[p].card_id);
                    assert(ids@[a] == before[a]);
                }
            }
        }
        i = i + 1;
    }
    proof {
        assert forall|id: u32| #[trigger] ids@.contains(id) <==> id != owner && (world.cards.at(
            id,
            now,
        ) matches Some(row) && row.owner_id == owner) by {
            if ids@.contains(id) {
                let a = ids@.index_of(id);
                assert(ids@[a] == id);
            }
            if id != owner && (world.cards.at(id, now) matches Some(row) && row.owner_id == owner) {
                let p = choose|p: int| 0 <= p < rows@.len() && (#[trigger] rows@[p]).card_id == id;
                assert(world.cards.at(rows@[p].card_id, now) == Some(*rows@[p]));
            }
        }
    }
    ids
}

/// The zones, the subscriptions, and what is ours, as values.
#[verifier::ext_equal]
#[verifier::reject_recursive_types(C)]
pub ghost struct RealmState<C: Codec> {
    /// The zone manager.
    pub zones: ZoneManager<C>,
    /// The subscription ids.
    pub links: LinkState,
    /// Frames waiting to be sent.
    pub out: Seq<MsgView>,
    /// Our player souls.
    pub player_souls: Set<u64>,
    /// Our souls, with the world tile each was last anchored at.
    pub souls: Map<u64, (i32, i32)>,
    /// The cards whose inventory is held.
    pub inventoried: Set<u64>,
}

/// The anchor of a soul that stands on a world tile.
pub open spec fn soul_anchor<'a>(
    known: &Known<'a>,
    id: u32,
    row: CardRow,
    q: i32,
    r: i32,
) -> Anchor {
    Anchor {
        q,
        r,
        surface: WORLD_LAYER,
        owner: 0,
        radii: known.radii(row.packed_definition),
        soul: id,
    }
}

impl<C: Codec> RealmState<C> {
    /// The world tile a card stands on; none off the world surface. A stacked card
    /// counts as in the first cell.
    pub open spec fn hex_of(self, row: CardRow) -> Option<(i32, i32)> {
        if row.surface != WORLD_LAYER {
            None
        } else {
            let (lq, lr) = match row.micro {
                Micro::Loose { local_q, local_r } => (local_q, local_r),
                Micro::Stacked { .. } => (0u8, 0u8),
            };
            Some(
                (
                    self.zones.codec().unfold(row.chunk_q, lq),
                    self.zones.codec().unfold(row.chunk_r, lr),
                ),
            )
        }
    }

    /// The state with a subscription frame minted and queued.
    pub open spec fn subscribed(self, table: Seq<char>, filter: Seq<char>) -> RealmState<C> {
        RealmState {
            links: LinkState { next_sid: id_after(self.links.next_sid), ..self.links },
            out: self.out.push(
                MsgView::Sub { sid: self.links.next_sid, table, filter: Some(filter) },
            ),
            ..self
        }
    }

    /// The state with a player soul enlisted and its roster subscribed.
    pub open spec fn enlisted(self, id: u32) -> RealmState<C> {
        RealmState {
            player_souls: self.player_souls.insert(id as u64),
            ..self.subscribed("cards"@, "owner_id = "@ + decimal(id as nat))
        }
    }

    /// `self` is `old` after a look at a card that may be a soul of ours: on first
    /// sight its inventory is held; where it stands anew it is anchored anew.
    pub open spec fn settled<'a>(self, old: RealmState<C>, known: &Known<'a>, id: u32) -> bool {
        match known.world.cards.at(id, known.now) {
            Some(row) => match (old.player_souls.contains(row.owner_id as u64), old.hex_of(row)) {
                (true, Some((q, r))) => {
                    let seen = old.souls.dom().contains(id as u64);
                    &&& self == RealmState {
                        zones: self.zones,
                        souls: old.souls.insert(id as u64, (q, r)),
                        inventoried: if seen {
                            old.inventoried
                        } else {
                            old.inventoried.insert(id as u64)
                        },
                        ..old
                    }
                    &&& exists|mid: ZoneManager<C>|
                        {
                            &&& #[trigger] mid.wf()
                            &&& if seen {
                                mid == old.zones
                            } else {
                                mid.held_from(&old.zones, old.zones.inventory_of(id), known.now)
                            }
                            &&& if lookup(old.souls, id as u64) == Some((q, r)) {
                                self.zones == mid
                            } else {
                                self.zones.anchored_from(
                                    &mid,
                                    "soul:"@ + decimal(id as nat),
                                    soul_anchor(known, id, row, q, r),
                                    known.now,
                                )
                            }
                        }
                },
                _ => self == old,
            },
            None => self == old,
        }
    }

    /// The states between looks at a list of cards, each a soul of ours at most.
    pub open spec fn settles<'a>(
        known: &Known<'a>,
        ids: Seq<u32>,
        trace: Seq<RealmState<C>>,
    ) -> bool {
        &&& trace.len() == ids.len() + 1
        &&& forall|i: int|
            0 <= i < ids.len() ==> (#[trigger] trace[i + 1]).settled(trace[i], known, ids[i])
    }

    /// `self` is `old` after looks at everything that `owner` owns.
    pub open spec fn settled_all<'a>(
        self,
        old: RealmState<C>,
        known: &Known<'a>,
        owner: u32,
    ) -> bool {
        exists|ids: Seq<u32>, trace: Seq<RealmState<C>>|
            {
                &&& is_owned_list(known.world.cards, owner, known.now, ids)
                &&& #[trigger] RealmState::settles(known, ids, trace)
                &&& trace[0] == old
                &&& trace[ids.len() as int] == self
            }
    }

    /// `self` is `old` after a look at a card that one of our player souls owns: a
    /// further player soul is enlisted and what it owns is looked at; anything else
    /// is a soul at most.
    pub open spec fn followed<'a>(self, old: RealmState<C>, known: &Known<'a>, id: u32) -> bool {
        if known.is_mine(id) {
            if old.player_souls.contains(id as u64) {
                self == old
            } else {
                self.settled_all(old.enlisted(id), known, id)
            }
        } else {
            self.settled(old, known, id)
        }
    }

    /// The states between looks at a list of cards that a player soul owns.
    pub open spec fn follows<'a>(
        known: &Known<'a>,
        ids: Seq<u32>,
        trace: Seq<RealmState<C>>,
    ) -> bool {
        &&& trace.len() == ids.len() + 1
        &&& forall|i: int|
            0 <= i < ids.len() ==> (#[trigger] trace[i + 1]).followed(trace[i], known, ids[i])
    }

    /// `self` is `old` after a player soul's rows were all followed.
    pub open spec fn followed_all<'a>(
        self,
        old: RealmState<C>,
        known: &Known<'a>,
        owner: u32,
    ) -> bool {
        exists|ids: Seq<u32>, trace: Seq<RealmState<C>>|
            {
                &&& is_owned_list(known.world.cards, owner, known.now, ids)
                &&& #[trigger] RealmState::follows(known, ids, trace)
                &&& trace[0] == old
                &&& trace[ids.len() as int] == self
            }
    }

    /// `self` is `old` after the discovery walk took one card row: a player soul of
    /// ours is enlisted, once, and what it owns is followed; anything else is a soul
    /// at most.
    pub open spec fn discovered<'a>(self, old: RealmState<C>, known: &Known<'a>, id: u32) -> bool {
        if known.is_mine(id) {
            if old.player_souls.contains(id as u64) {
                self == old
            } else {
                self.followed_all(old.enlisted(id), known, id)
            }
        } else {
            self.settled(old, known, id)
        }
    }

    /// The soul of ours that owns a card, through at most `steps` owners.
    pub open spec fn soul_above(self, cards: Cards, id: u32, now: u64, steps: nat) -> Option<u32>
        decreases steps,
    {
        if steps == 0 {
            None
        } else if self.souls.dom().contains(id as u64) {
            Some(id)
        } else {
            match cards.at(id, now) {
                Some(row) => if row.owner_id == 0 || row.owner_id == id {
                    None
                } else {
                    self.soul_above(cards, row.owner_id, now, (steps - 1) as nat)
                },
                None => None,
            }
        }
    }

    /// `s` is the first soul of ours that is present in the zone.
    pub open spec fn first_present(self, zone: u64, now: u64, s: u32) -> bool {
        &&& self.souls.dom().contains(s as u64)
        &&& self.zones.card_view(s, zone, now) == Some(now)
        &&& forall|x: u32| #[trigger]
            self.souls.dom().contains(x as u64) && self.zones.card_view(x, zone, now) == Some(now)
                ==> s <= x
    }

    /// Which of our souls acts on a root: one that is present in its zone, else the
    /// one that owns it.
    pub open spec fn actor(self, cards: Cards, root: u32, now: u64) -> Option<u32> {
        match cards.at(root, now) {
            Some(row) => if exists|s: u32| self.first_present(row.macro_zone, now, s) {
                Some(choose|s: u32| self.first_present(row.macro_zone, now, s))
            } else {
                self.soul_above(cards, root, now, 32)
            },
            None => None,
        }
    }

    /// `self` is `old` after a look at a card that may be a container of ours: its
    /// inventory is held, once.
    pub open spec fn stocked<'a>(self, old: RealmState<C>, known: &Known<'a>, id: u32) -> bool {
        if !old.inventoried.contains(id as u64) && old.soul_above(
            known.world.cards,
            id,
            known.now,
            32,
        ) is Some && (known.world.cards.at(id, known.now) matches Some(row) && known.is_container(
            row.packed_definition,
        )) {
            &&& self == RealmState {
                zones: self.zones,
                inventoried: old.inventoried.insert(id as u64),
                ..old
            }
            &&& self.zones.held_from(&old.zones, old.zones.inventory_of(id), known.now)
        } else {
            self == old
        }
    }

    /// `self` is `old` with the zone manager's decisions carried out.
    pub open spec fn carried_out(self, old: RealmState<C>) -> bool {
        &&& self == RealmState {
            zones: self.zones,
            links: old.links.after_all(old.zones.pending()),
            ..old
        }
        &&& self.zones.same_but_pending(&old.zones)
        &&& self.zones.pending() == Seq::<crate::zones::ZoneIntent>::empty()
    }
}

/// The zones, the subscriptions, and what is ours.
pub struct Realm<C: Codec> {
    zones: ZoneManager<C>,
    links: Links,
    out: Vec<ClientMsg>,
    player_souls: OrdMap<()>,
    souls: OrdMap<(i32, i32)>,
    inventoried: OrdMap<()>,
}

impl<C: Codec> View for Realm<C> {
    type V = RealmState<C>;

    closed spec fn view(&self) -> RealmState<C> {
        RealmState {
            zones: self.zones,
            links: self.links@,
            out: msgs(self.out@),
            player_souls: self.player_souls@.dom(),
            souls: self.souls@,
            inventoried: self.inventoried@.dom(),
        }
    }
}

impl<C: Codec> Realm<C> {
    pub closed spec fn wf(&self) -> bool {
        &&& self.zones.wf()
        &&& self.links.wf()
        &&& self.player_souls.wf()
        &&& self.souls.wf()
        &&& self.inventoried.wf()
        &&& forall|s: u64| #[trigger] self.souls@.dom().contains(s) ==> s <= u32::MAX
        &&& forall|s: u64| #[trigger] self.player_souls@.dom().contains(s) ==> s <= u32::MAX
    }

    /// A sound realm has sound zones, and souls that are cards.
    pub proof fn lemma_wf(&self)
        requires
            self.wf(),
        ensures
            self@.zones.wf(),
            forall|s: u64| #[trigger] self@.souls.dom().contains(s) ==> s <= u32::MAX,
            forall|s: u64| #[trigger] self@.player_souls.contains(s) ==> s <= u32::MAX,
    {
    }

    pub fn new(codec: C) -> (r: Self)
        requires
            codec.wf(),
        ensures
            r.wf(),
            r@.zones.is_new(codec),
            r@ == (RealmState {
                zones: r@.zones,
                links: LinkState { next_sid: 1, zones: Map::empty(), regions: Map::empty() },
                out: Seq::empty(),
                player_souls: Set::empty(),
                souls: Map::empty(),
                inventoried: Set::empty(),
            }),
    {
        let r = Realm {
            zones: ZoneManager::new(codec),
            links: Links::new(),
            out: Vec::new(),
            player_souls: OrdMap::new(),
            souls: OrdMap::new(),
            inventoried: OrdMap::new(),
        };
        assert(r@.player_souls =~= Set::empty());
        assert(r@.inventoried =~= Set::empty());
        assert(r@.out =~= Seq::empty());
        r
    }

    pub fn zone_manager(&self) -> (z: &ZoneManager<C>)
        requires
            self.wf(),
        ensures
            *z == self@.zones,
            z.wf(),
    {
        &self.zones
    }

    /// Our souls, by ascending id.
    pub fn soul_ids(&self) -> (ids: Vec<u32>)
        requires
            self.wf(),
        ensures
            lists_set(ids@, self@.souls.dom()),
    {
        ids_of(&self.souls)
    }

    /// Our player souls, by ascending id.
    pub fn player_soul_ids(&self) -> (ids: Vec<u32>)
        requires
            self.wf(),
        ensures
            lists_set(ids@, self@.player_souls),
    {
        ids_of(&self.player_souls)
    }

    pub fn world_hex(&self, row: &CardRow) -> (h: Option<(i32, i32)>)
        requires
            self.wf(),
        ensures
            h == self@.hex_of(*row),
    {
        if row.surface != WORLD_LAYER {
            return None;
        }
        let (lq, lr): (u8, u8) = match row.micro {
            Micro::Loose { local_q, local_r } => (local_q, local_r),
            Micro::Stacked { .. } => (0, 0),
        };
        Some((self.zones.world_tile(row.chunk_q, lq), self.zones.world_tile(row.chunk_r, lr)))
    }

    fn settle<'a>(&mut self, known: &Known<'a>, id: u32)
        requires
            old(self).wf(),
            known.wf(),
        ensures
            final(self).wf(),
            final(self)@.settled(old(self)@, known, id),
    {
        let ghost o = *self;
        let row: CardRow = match known.world.cards.current(id, known.now) {
            Some(row) => *row,
            None => {
                return ;
            },
        };
        if !self.player_souls.contains_key(row.owner_id as u64) {
            return ;
        }
        let (q, r): (i32, i32) = match self.world_hex(&row) {
            Some(h) => h,
            None => {
                return ;
            },
        };
        let was: Option<(i32, i32)> = match self.souls.get(id as u64) {
            Some(h) => Some(*h),
            None => None,
        };
        if was.is_none() {
            self.inventoried.insert(id as u64, ());
            self.zones.ensure_inventory(id, known.now);
        }
        let ghost mid = self.zones;
        let moved: bool = match was {
            Some((a, b)) => a != q || b != r,
            None => true,
        };
        if moved {
            self.souls.insert(id as u64, (q, r));
            let radii = known.anchor_radii(row.packed_definition);
            let name = with_number("soul:", id as u64);
            self.zones.set_anchor(name.as_str(), q, r, WORLD_LAYER, 0, radii, id, known.now);
        }
        proof {
            assert(mid.wf());
            let seen = o@.souls.dom().contains(id as u64);
            assert(self@.souls =~= o@.souls.insert(id as u64, (q, r)));
            assert(self@.inventoried =~= if seen {
                o@.inventoried
            } else {
                o@.inventoried.insert(id as u64)
            });
        }
    }

    /// Mint a subscription id.
    pub fn sid(&mut self) -> (sid: u32)
        requires
            old(self).wf(),
        ensures
            final(self).wf(),
            sid == old(self)@.links.next_sid,
            final(self)@ == (RealmState {
                links: LinkState { next_sid: id_after(sid), ..old(self)@.links },
                ..old(self)@
            }),
    {
        self.links.sid()
    }

    /// Queue a frame.
    pub fn push(&mut self, m: ClientMsg)
        requires
            old(self).wf(),
        ensures
            final(self).wf(),
            final(self)@ == (RealmState { out: old(self)@.out.push(m@), ..old(self)@ }),
    {
        let ghost o = *self;
        self.out.push(m);
        assert(self@.out =~= o@.out.push(m@));
    }

    /// Queue frames.
    pub fn push_all(&mut self, frames: Vec<ClientMsg>)
        requires
            old(self).wf(),
        ensures
            final(self).wf(),
            final(self)@ == (RealmState {
                out: old(self)@.out + msgs(frames@),
                ..old(self)@
            }),
    {
        let ghost o = *self;
        let mut rest = frames;
        self.out.append(&mut rest);
        assert(self@.out =~= o@.out + msgs(frames@));
    }

    /// Mint a subscription and queue its frame.
    pub fn subscribe(&mut self, table: &str, filter: String)
        requires
            old(self).wf(),
        ensures
            final(self).wf(),
            final(self)@ == old(self)@.subscribed(table@, filter@),
    {
        let sid: u32 = self.sid();
        self.push(ClientMsg::Sub { sid, table: table.to_owned(), filter: Some(filter) });
    }

    fn enlist(&mut self, id: u32)
        requires
            old(self).wf(),
        ensures
            final(self).wf(),
            final(self)@ == old(self)@.enlisted(id),
    {
        let ghost o = *self;
        let filter = with_number("owner_id = ", id as u64);
        self.subscribe("cards", filter);
        self.player_souls.insert(id as u64, ());
        assert(self@.player_souls =~= o@.player_souls.insert(id as u64));
    }

    fn settle_all<'a>(&mut self, known: &Known<'a>, owner: u32)
        requires
            old(self).wf(),
            known.wf(),
        ensures
            final(self).wf(),
            final(self)@.settled_all(old(self)@, known, owner),
    {
        let ids = owned_by(known.world, owner, known.now);
        let n: usize = ids.len();
        let ghost mut trace: Seq<RealmState<C>> = seq![self@];
        let mut i: usize = 0;
        while i < n
            invariant
                self.wf(),
                known.wf(),
                n == ids@.len(),
                i <= n,
                trace.len() == i + 1,
                trace[0] == old(self)@,
                trace[i as int] == self@,
                forall|j: int|
                    0 <= j < i ==> (#[trigger] trace[j + 1]).settled(trace[j], known, ids@[j]),
            decreases n - i,
        {
            self.settle(known, ids[i]);
            proof {
                let before = trace;
                trace = trace.push(self@);
                assert forall|j: int| 0 <= j < i + 1 implies (#[trigger] trace[j + 1]).settled(
                    trace[j],
                    known,
                    ids@[j],
                ) by {
                    if j < i {
                        assert(before[j + 1].settled(before[j], known, ids@[j]));
                    }
                }
            }
            i = i + 1;
        }
        assert(RealmState::settles(known, ids@, trace));
    }

    fn mine<'a>(&self, known: &Known<'a>, id: u32) -> (b: bool)
        requires
            known.wf(),
        ensures
            b == known.is_mine(id),
    {
        match known.world.cards.current(id, known.now) {
            Some(row) => match known.me {
                Some(me) => me == row.owner_id && is_player_soul(row.packed_definition),
                None => false,
            },
            None => false,
        }
    }

    fn follow<'a>(&mut self, known: &Known<'a>, id: u32)
        requires
            old(self).wf(),
            known.wf(),
        ensures
            final(self).wf(),
            final(self)@.followed(old(self)@, known, id),
    {
        if self.mine(known, id) {
            if !self.player_souls.contains_key(id as u64) {
                self.enlist(id);
                self.settle_all(known, id);
            }
        } else {
            self.settle(known, id);
        }
    }

    /// One step of the discovery walk. What a newly found player soul owns may have
    /// arrived before it, so it is looked at again.
    pub fn discover<'a>(&mut self, known: &Known<'a>, id: u32)
        requires
            old(self).wf(),
            known.wf(),
        ensures
            final(self).wf(),
            final(self)@.discovered(old(self)@, known, id),
    {
        if !self.mine(known, id) {
            self.settle(known, id);
            return ;
        }
        if self.player_souls.contains_key(id as u64) {
            return ;
        }
        self.enlist(id);
        let ghost mid = self@;
        let ids = owned_by(known.world, id, known.now);
        let n: usize = ids.len();
        let ghost mut trace: Seq<RealmState<C>> = seq![self@];
        let mut i: usize = 0;
        while i < n
            invariant
                self.wf(),
                known.wf(),
                n == ids@.len(),
                i <= n,
                trace.len() == i + 1,
                trace[0] == mid,
                trace[i as int] == self@,
                forall|j: int|
                    0 <= j < i ==> (#[trigger] trace[j + 1]).followed(trace[j], known, ids@[j]),
            decreases n - i,
        {
            self.follow(known, ids[i]);
            proof {
                let before = trace;
                trace = trace.push(self@);
                assert forall|j: int| 0 <= j < i + 1 implies (#[trigger] trace[j + 1]).followed(
                    trace[j],
                    known,
                    ids@[j],
                ) by {
                    if j < i {
                        assert(before[j + 1].followed(before[j], known, ids@[j]));
                    }
                }
            }
            i = i + 1;
        }
        assert(RealmState::follows(known, ids@, trace));
    }

    /// Walk a card's owners to a soul we control.
    pub fn owning_soul(&self, world: &World, card_id: u32, now: u64) -> (s: Option<u32>)
        requires
            self.wf(),
            world.wf(),
        ensures
            s == self@.soul_above(world.cards, card_id, now, 32),
    {
        let mut cur: u32 = card_id;
        let mut left: u32 = 32;
        while left > 0
            invariant
                self.wf(),
                world.wf(),
                left <= 32,
                self@.soul_above(world.cards, cur, now, left as nat) == self@.soul_above(
                    world.cards,
                    card_id,
                    now,
                    32,
                ),
            decreases left,
        {
            if self.souls.contains_key(cur as u64) {
                return Some(cur);
            }
            match world.cards.current(cur, now) {
                Some(row) => {
                    if row.owner_id == 0 || row.owner_id == cur {
                        return None;
                    }
                    cur = row.owner_id;
                },
                None => {
                    return None;
                },
            }
            left = left - 1;
        }
        None
    }

    pub fn actor_soul_for_root(&self, world: &World, root: u32, now: u64) -> (s: Option<u32>)
        requires
            self.wf(),
            world.wf(),
        ensures
            s == self@.actor(world.cards, root, now),
    {
        let zone: u64 = match world.cards.current(root, now) {
            Some(row) => row.macro_zone,
            None => {
                return None;
            },
        };
        proof {
            self.souls.lemma_ks();
        }
        let n: usize = self.souls.len();
        let mut i: usize = 0;
        while i < n
            invariant
                self.wf(),
                n == self.souls.ks().len(),
                i <= n,
                ascending(self.souls.ks()),
                forall|k: u64| #[trigger]
                    self.souls@.dom().contains(k) <==> self.souls.ks().contains(k),
                world.cards.at(root, now) matches Some(row) && row.macro_zone == zone,
                forall|j: int|
                    0 <= j < i ==> self.zones.card_view(
                        #[trigger] self.souls.ks()[j] as u32,
                        zone,
                        now,
                    ) != Some(now),
            decreases n - i,
        {
            let s: u32 = self.souls.key_at(i) as u32;
            if let Some(t) = self.zones.card_view_time(s, zone, now) {
                if t == now {
                    proof {
                        assert(self.souls@.dom().contains(s as u64));
                        assert forall|x: u32| #[trigger]
                            self@.souls.dom().contains(x as u64) && self@.zones.card_view(
                                x,
                                zone,
                                now,
                            ) == Some(now) implies s <= x by {
                            let j = self.souls.ks().index_of(x as u64);
                            assert(self.souls.ks()[j] == x as u64);
                        }
                        assert(self@.first_present(zone, now, s));
                        let c = choose|s: u32| self@.first_present(zone, now, s);
                        assert(self@.first_present(zone, now, c));
                        assert(self@.souls.dom().contains(c as u64));
                        assert(self@.souls.dom().contains(s as u64));
                    }
                    return Some(s);
                }
            }
            i = i + 1;
        }
        proof {
            assert forall|s: u32| !self@.first_present(zone, now, s) by {
                if self@.first_present(zone, now, s) {
                    let j = self.souls.ks().index_of(s as u64);
                    assert(self.souls.ks()[j] == s as u64);
                }
            }
        }
        self.owning_soul(world, root, now)
    }

    /// Hold the inventory of any container we own, directly or through others.
    pub fn ensure_owned_inventory<'a>(&mut self, known: &Known<'a>, id: u32)
        requires
            old(self).wf(),
            known.wf(),
        ensures
            final(self).wf(),
            final(self)@.stocked(old(self)@, known, id),
    {
        let ghost o = *self;
        if self.inventoried.contains_key(id as u64) {
            return ;
        }
        if self.owning_soul(known.world, id, known.now).is_none() {
            return ;
        }
        let packed: u16 = match known.world.cards.current(id, known.now) {
            Some(row) => row.packed_definition,
            None => {
                return ;
            },
        };
        if known.has_inventory(packed) {
            self.inventoried.insert(id as u64, ());
            self.zones.ensure_inventory(id, known.now);
            assert(self@.inventoried =~= o@.inventoried.insert(id as u64));
        }
    }

    /// Carry out the zone manager's decisions.
    pub fn zone_frames(&mut self) -> (out: Vec<ClientMsg>)
        requires
            old(self).wf(),
        ensures
            final(self).wf(),
            final(self)@.carried_out(old(self)@),
            msgs(out@) == old(self)@.links.frames(old(self)@.zones.pending()),
    {
        let said = self.zones.take_intents();
        self.links.carry_out_all(&said)
    }

    /// Take the queued frames.
    pub fn take_out(&mut self) -> (out: Vec<ClientMsg>)
        requires
            old(self).wf(),
        ensures
            final(self).wf(),
            final(self)@ == (RealmState { out: Seq::empty(), ..old(self)@ }),
            msgs(out@) == old(self)@.out,
    {
        let mut out: Vec<ClientMsg> = Vec::new();
        std::mem::swap(&mut out, &mut self.out);
        assert(self@.out =~= Seq::empty());
        out
    }

    /// Place or move a named anchor.
    pub fn set_anchor(
        &mut self,
        name: &str,
        q: i32,
        r: i32,
        surface: u8,
        owner: u32,
        radii: AnchorRadii,
        soul: u32,
        now: u64,
    )
        requires
            old(self).wf(),
        ensures
            final(self).wf(),
            final(self)@ == (RealmState { zones: final(self)@.zones, ..old(self)@ }),
            final(self)@.zones.anchored_from(
                &old(self)@.zones,
                name@,
                (Anchor { q, r, surface, owner, radii, soul }),
                now,
            ),
    {
        self.zones.set_anchor(name, q, r, surface, owner, radii, soul, now);
    }

    /// Rows landed in a zone.
    pub fn note_update(&mut self, zone: u64, data: DataType, now: u64)
        requires
            old(self).wf(),
        ensures
            final(self).wf(),
            final(self)@ == (RealmState { zones: final(self)@.zones, ..old(self)@ }),
            final(self)@.zones.updated_from(&old(self)@.zones, zone, data, now),
    {
        self.zones.note_update(zone, data, now);
    }

    /// A region's bits arrived, or its row was deleted.
    pub fn note_region(&mut self, op: RowOp, row: &RegionRow)
        requires
            old(self).wf(),
        ensures
            final(self).wf(),
            final(self)@ == (RealmState { zones: final(self)@.zones, ..old(self)@ }),
            final(self)@.zones.same_but_bits(&old(self)@.zones),
            final(self)@.zones.bits() == match op {
                RowOp::Delete => old(self)@.zones.bits().remove(row.macro_region),
                _ => old(self)@.zones.bits().insert(
                    row.macro_region,
                    (RegionBits {
                        presence: row.zone_presence,
                        available: row.zone_available,
                        distance: row.distance,
                    }),
                ),
            },
    {
        match op {
            RowOp::Insert | RowOp::Update => {
                self.zones.note_region(
                    row.macro_region,
                    row.zone_presence,
                    row.zone_available,
                    row.distance,
                );
            },
            RowOp::Delete => {
                self.zones.note_region_removed(row.macro_region);
            },
        }
    }
}

/// `ids` lists a set of card ids, ascending.
pub open spec fn lists_set(ids: Seq<u32>, set: Set<u64>) -> bool {
    &&& forall|a: int, b: int| 0 <= a < b < ids.len() ==> #[trigger] ids[a] < #[trigger] ids[b]
    &&& forall|k: u64| #[trigger] set.contains(k) <==> k <= u32::MAX && ids.contains(k as u32)
}

/// A set of card ids, in ascending order.
pub open spec fn listing(set: Set<u64>) -> Seq<u32> {
    choose|ids: Seq<u32>| lists_set(ids, set)
}

/// There is one ascending list of a set.
pub proof fn lemma_listing(ids: Seq<u32>, set: Set<u64>)
    requires
        lists_set(ids, set),
    ensures
        listing(set) == ids,
{
    let other = listing(set);
    assert(lists_set(other, set));
    assert forall|x: u32| #[trigger] ids.contains(x) == other.contains(x) by {
        assert(set.contains(x as u64) <==> ids.contains((x as u64) as u32));
        assert(set.contains(x as u64) <==> other.contains((x as u64) as u32));
    }
    lemma_ascending_unique(ids, other);
}

/// Two ascending lists of the same ids are the same list.
pub proof fn lemma_ascending_unique(a: Seq<u32>, b: Seq<u32>)
    requires
        forall|i: int, j: int| 0 <= i < j < a.len() ==> #[trigger] a[i] < #[trigger] a[j],
        forall|i: int, j: int| 0 <= i < j < b.len() ==> #[trigger] b[i] < #[trigger] b[j],
        forall|x: u32| #[trigger] a.contains(x) == b.contains(x),
    ensures
        a == b,
    decreases a.len(),
{
    if a.len() == 0 {
        if b.len() > 0 {
            assert(b.contains(b[0]));
            assert(a.contains(b[0]));
        }
        assert(a =~= b);
    } else {
        assert(a.contains(a.last()));
        assert(b.contains(a.last()));
        let i = b.index_of(a.last());
        assert(b.contains(b.last()));
        assert(a.contains(b.last()));
        let j = a.index_of(b.last());
        assert(a[j] == b.last());
        assert(b[i] == a.last());
        assert(a.last() == b.last());
        let a1 = a.drop_last();
        let b1 = b.drop_last();
        assert forall|x: u32| #[trigger] a1.contains(x) == b1.contains(x) by {
            if a1.contains(x) {
                let k = a1.index_of(x);
                assert(a[k] == x);
                assert(a.contains(x));
                assert(b.contains(x));
                let m = b.index_of(x);
                assert(x < a.last());
                assert(b1[m] == x);
            }
            if b1.contains(x) {
                let k = b1.index_of(x);
                assert(b[k] == x);
                assert(b.contains(x));
                assert(a.contains(x));
                let m = a.index_of(x);
                assert(x < b.last());
                assert(a1[m] == x);
            }
        }
        lemma_ascending_unique(a1, b1);
        assert(a =~= a1.push(a.last()));
        assert(b =~= b1.push(b.last()));
    }
}

/// The keys of a map keyed by card id.
pub fn ids_of<V>(m: &OrdMap<V>) -> (ids: Vec<u32>)
    requires
        m.wf(),
        forall|k: u64| #[trigger] m@.dom().contains(k) ==> k <= u32::MAX,
    ensures
        lists_set(ids@, m@.dom()),
{
    proof {
        m.lemma_ks();
    }
    let n: usize = m.len();
    let mut ids: Vec<u32> = Vec::new();
    let mut i: usize = 0;
    while i < n
        invariant
            m.wf(),
            n == m.ks().len(),
            i <= n,
            ids@.len() == i,
            ascending(m.ks()),
            forall|k: u64| #[trigger] m@.dom().contains(k) <==> m.ks().contains(k),
            forall|k: u64| #[trigger] m@.dom().contains(k) ==> k <= u32::MAX,
            forall|j: int| 0 <= j < i ==> #[trigger] ids@[j] as u64 == m.ks()[j],
        decreases n - i,
    {
        let k: u64 = m.key_at(i);
        assert(m.ks().contains(k));
        assert(m@.dom().contains(k));
        ids.push(k as u32);
        i = i + 1;
    }
    proof {
        assert forall|k: u64| #[trigger] m@.dom().contains(k) <==> k <= u32::MAX && ids@.contains(
            k as u32,
        ) by {
            if m@.dom().contains(k) {
                let j = m.ks().index_of(k);
                assert(m.ks()[j] == k);
                assert(ids@[j] == k as u32);
            }
            if k <= u32::MAX && ids@.contains(k as u32) {
                let j = ids@.index_of(k as u32);
                assert(ids@[j] as u64 == m.ks()[j]);
                assert(m.ks().contains(k));
            }
        }
    }
    ids
}

/// A look at a soul leaves the player souls alone.
proof fn lemma_settled_keeps<'a, C: Codec>(
    b: RealmState<C>,
    a: RealmState<C>,
    known: &Known<'a>,
    id: u32,
)
    requires
        b.settled(a, known, id),
    ensures
        b.player_souls == a.player_souls,
{
}

/// Looks at souls leave the player souls alone.
proof fn lemma_settles_keep<'a, C: Codec>(
    known: &Known<'a>,
    ids: Seq<u32>,
    trace: Seq<RealmState<C>>,
    n: int,
)
    requires
        RealmState::settles(known, ids, trace),
        0 <= n <= ids.len(),
    ensures
        trace[n].player_souls == trace[0].player_souls,
    decreases n,
{
    if n > 0 {
        lemma_settles_keep(known, ids, trace, n - 1);
        assert(trace[(n - 1) + 1].settled(trace[n - 1], known, ids[n - 1]));
        lemma_settled_keeps(trace[n], trace[n - 1], known, ids[n - 1]);
    }
}

/// Following a card never forgets a player soul.
proof fn lemma_followed_keeps<'a, C: Codec>(
    b: RealmState<C>,
    a: RealmState<C>,
    known: &Known<'a>,
    id: u32,
    s: u64,
)
    requires
        b.followed(a, known, id),
        a.player_souls.contains(s),
    ensures
        b.player_souls.contains(s),
{
    if known.is_mine(id) {
        if !a.player_souls.contains(id as u64) {
            let (ids, trace) = choose|ids: Seq<u32>, trace: Seq<RealmState<C>>|
                {
                    &&& is_owned_list(known.world.cards, id, known.now, ids)
                    &&& #[trigger] RealmState::settles(known, ids, trace)
                    &&& trace[0] == a.enlisted(id)
                    &&& trace[ids.len() as int] == b
                };
            lemma_settles_keep(known, ids, trace, ids.len() as int);
        }
    } else {
        lemma_settled_keeps(b, a, known, id);
    }
}

/// Following cards never forgets a player soul.
proof fn lemma_follows_keep<'a, C: Codec>(
    known: &Known<'a>,
    ids: Seq<u32>,
    trace: Seq<RealmState<C>>,
    n: int,
    s: u64,
)
    requires
        RealmState::follows(known, ids, trace),
        0 <= n <= ids.len(),
        trace[0].player_souls.contains(s),
    ensures
        trace[n].player_souls.contains(s),
    decreases n,
{
    if n > 0 {
        lemma_follows_keep(known, ids, trace, n - 1, s);
        assert(trace[(n - 1) + 1].followed(trace[n - 1], known, ids[n - 1]));
        lemma_followed_keeps(trace[n], trace[n - 1], known, ids[n - 1], s);
    }
}

/// Discovery is idempotent: a row that is taken twice, with nothing else in between,
/// subscribes, holds and anchors once.
pub proof fn law_discovery_is_idempotent<'a, C: Codec>(
    c: RealmState<C>,
    b: RealmState<C>,
    a: RealmState<C>,
    known: &Known<'a>,
    id: u32,
)
    requires
        b.discovered(a, known, id),
        c.discovered(b, known, id),
    ensures
        c == b,
{
    if known.is_mine(id) {
        if !a.player_souls.contains(id as u64) {
            let (ids, trace) = choose|ids: Seq<u32>, trace: Seq<RealmState<C>>|
                {
                    &&& is_owned_list(known.world.cards, id, known.now, ids)
                    &&& #[trigger] RealmState::follows(known, ids, trace)
                    &&& trace[0] == a.enlisted(id)
                    &&& trace[ids.len() as int] == b
                };
            lemma_follows_keep(known, ids, trace, ids.len() as int, id as u64);
        }
    } else {
        if known.world.cards.at(id, known.now) is Some {
            let row = known.world.cards.at(id, known.now)->0;
            assert(b.hex_of(row) == a.hex_of(row));
            if a.player_souls.contains(row.owner_id as u64) && a.hex_of(row) is Some {
                let (q, r) = a.hex_of(row)->0;
                assert(b.souls[id as u64] == (q, r));
                assert(b.souls.insert(id as u64, (q, r)) =~= b.souls);
                assert(c.zones == b.zones);
            }
        }
    }
}

/// A container's inventory is held once.
pub proof fn law_stocking_is_idempotent<'a, C: Codec>(
    c: RealmState<C>,
    b: RealmState<C>,
    a: RealmState<C>,
    known: &Known<'a>,
    id: u32,
)
    requires
        b.stocked(a, known, id),
        c.stocked(b, known, id),
    ensures
        c == b,
{
}

/// Whoever acts on a root is a soul of ours.
pub proof fn law_actor_is_ours<C: Codec>(s: RealmState<C>, cards: Cards, root: u32, now: u64)
    requires
        s.actor(cards, root, now) is Some,
    ensures
        s.souls.dom().contains(s.actor(cards, root, now)->0 as u64),
{
    let zone = cards.at(root, now)->0.macro_zone;
    if exists|x: u32| s.first_present(zone, now, x) {
        let x = choose|x: u32| s.first_present(zone, now, x);
        assert(s.first_present(zone, now, x));
    } else {
        lemma_soul_above_is_ours(s, cards, root, now, 32);
    }
}

/// The soul above a card is one of ours.
proof fn lemma_soul_above_is_ours<C: Codec>(
    s: RealmState<C>,
    cards: Cards,
    id: u32,
    now: u64,
    steps: nat,
)
    ensures
        s.soul_above(cards, id, now, steps) matches Some(x) ==> s.souls.dom().contains(x as u64),
    decreases steps,
{
    if steps > 0 && !s.souls.dom().contains(id as u64) && cards.at(id, now) is Some {
        let owner = cards.at(id, now)->0.owner_id;
        if owner != 0 && owner != id {
            lemma_soul_above_is_ours(s, cards, owner, now, (steps - 1) as nat);
        }
    }
}

} // verus!
