//! Local moves: positions are ours until they are committed.
//!
//! A move is applied to the local world and marked dirty. It goes to the server in
//! one batch, before a proposal, or at once where others watch.
use vstd::prelude::*;

use crate::ordmap::OrdMap;
use crate::realm::{ids_of, Known};
use crate::rows::{pack_valid_at, CardRow, Micro, RowOp};
use crate::wire::ClientCall;
use crate::world::{Cards, Position};

verus! {

use crate::history::{current_in, with_version};
use crate::laws::moving::{commits_rows, law_commit_carries_current_places};
use crate::realm::lists_set;
use crate::wire::CallView;

/// Version rows by card and stamp.
pub type Rows = Map<u64, Map<u64, CardRow>>;

/// The row of a card current at `now`.
pub open spec fn row_in(rows: Rows, id: u32, now: u64) -> Option<CardRow> {
    current_in(
        if rows.dom().contains(id as u64) {
            rows[id as u64]
        } else {
            Map::empty()
        },
        now,
    )
}

/// The chain root of a card: the card itself if loose, else the root of its stack.
pub open spec fn root_in(rows: Rows, id: u32, now: u64) -> Option<u32> {
    match row_in(rows, id, now) {
        Some(row) => Some(
            match row.micro {
                Micro::Stacked { root, .. } => root,
                Micro::Loose { .. } => id,
            },
        ),
        None => None,
    }
}

/// The chain root of a card; nothing if the card is not known.
pub fn chain_root(cards: &Cards, card_id: u32, now: u64) -> (root: Option<u32>)
    requires
        cards.wf(),
    ensures
        root == root_in(cards@, card_id, now),
{
    match cards.current(card_id, now) {
        Some(row) => match row.micro {
            Micro::Stacked { root, .. } => Some(root),
            Micro::Loose { .. } => Some(card_id),
        },
        None => None,
    }
}

/// One resolved write of a placement plan.
#[derive(Debug, Clone, Copy, PartialEq, Eq, Structural)]
pub struct Write {
    pub card_id: u32,
    pub to: Position,
}

/// Where a card is to go.
#[derive(Debug, Clone, Copy, PartialEq, Eq, Structural)]
pub enum Placement {
    /// Onto the stack of a card, in a direction.
    Stack { parent_id: u32, direction: u8 },
    /// Loose in a cell of a zone, off its centre by `x` and `y`.
    Loose { surface: u8, macro_zone: u64, q: u8, r: u8, x: i16, y: i16 },
}

/// A placement in one shape for both kinds.
#[derive(Debug, Clone, Copy, PartialEq, Eq, Structural)]
pub struct PlacementArgs {
    pub kind: u8,
    pub parent_id: u32,
    pub direction: u8,
    pub surface: u8,
    pub macro_zone: u64,
    pub q: u8,
    pub r: u8,
    /// Both offsets, as two's complement halves.
    pub xy: u32,
}

/// A number as sixteen bits of two's complement.
pub open spec fn half_word(n: i16) -> int {
    if n < 0 {
        n + 0x1_0000
    } else {
        n as int
    }
}

impl Placement {
    /// The one shape of the placement.
    pub open spec fn flat(self, a: PlacementArgs) -> bool {
        match self {
            Placement::Stack { parent_id, direction } => a == (PlacementArgs {
                kind: 0,
                parent_id,
                direction,
                surface: 0,
                macro_zone: 0,
                q: 0,
                r: 0,
                xy: 0,
            }),
            Placement::Loose { surface, macro_zone, q, r, x, y } => {
                &&& a.xy == half_word(x) * 0x1_0000 + half_word(y)
                &&& a == (PlacementArgs {
                    kind: 1,
                    parent_id: 0,
                    direction: 0,
                    surface,
                    macro_zone,
                    q,
                    r,
                    xy: a.xy,
                })
            },
        }
    }

    pub fn args(&self) -> (a: PlacementArgs)
        ensures
            self.flat(a),
    {
        match *self {
            Placement::Stack { parent_id, direction } => PlacementArgs {
                kind: 0,
                parent_id,
                direction,
                surface: 0,
                macro_zone: 0,
                q: 0,
                r: 0,
                xy: 0,
            },
            Placement::Loose { surface, macro_zone, q, r, x, y } => {
                let hi: u32 = half(x);
                let lo: u32 = half(y);
                assert((hi << 16) | lo == hi * 0x1_0000 + lo) by (bit_vector)
                    requires
                        hi < 0x1_0000,
                        lo < 0x1_0000,
                ;
                PlacementArgs {
                    kind: 1,
                    parent_id: 0,
                    direction: 0,
                    surface,
                    macro_zone,
                    q,
                    r,
                    xy: (hi << 16) | lo,
                }
            },
        }
    }
}

/// A number as sixteen bits of two's complement.
fn half(n: i16) -> (w: u32)
    ensures
        w == half_word(n),
        w < 0x1_0000,
{
    if n < 0 {
        (n as i32 + 0x1_0000) as u32
    } else {
        n as u32
    }
}

/// The sequence number after this one.
pub open spec fn seq_after(seq: u16) -> u16 {
    if seq < u16::MAX {
        (seq + 1) as u16
    } else {
        0
    }
}

/// A stamp.
pub open spec fn stamp(time_ms: u64, seq: u16) -> u64 {
    ((time_ms % 0x1_0000_0000_0000) * 65536 + seq) as u64
}

/// A row moved to a position, under a local stamp.
pub open spec fn moved_row(row: CardRow, to: Position, pmask: u32, now: u64, seq: u16) -> CardRow {
    CardRow { valid_at: stamp(now, seq), ..to.place(row, pmask) }
}

/// What local moves touch.
#[verifier::ext_equal]
pub ghost struct Board {
    pub rows: Rows,
    /// Cards moved locally and not committed.
    pub dirty: Set<u64>,
    /// The next local sequence number.
    pub seq: u16,
    /// Chain roots to match again.
    pub roots: Set<u64>,
    /// The cards moved so far.
    pub moved: Seq<u32>,
}

impl Board {
    /// The board after one write. A card that is not known is passed over.
    pub open spec fn written(self, w: Write, now: u64, pmask: u32) -> Board {
        match row_in(self.rows, w.card_id, now) {
            Some(row) => {
                let after = moved_row(row, w.to, pmask, now, self.seq);
                let rows = with_version(self.rows, w.card_id as u64, after.valid_at, after);
                Board {
                    rows,
                    dirty: self.dirty.insert(w.card_id as u64),
                    seq: seq_after(self.seq),
                    roots: marked(self.roots, root_in(rows, w.card_id, now)),
                    moved: self.moved.push(w.card_id),
                }
            },
            None => self,
        }
    }

    /// The board after a plan.
    pub open spec fn planned(self, plan: Seq<Write>, now: u64, pmask: u32) -> Board
        decreases plan.len(),
    {
        if plan.len() == 0 {
            self
        } else {
            self.planned(plan.drop_last(), now, pmask).written(plan.last(), now, pmask)
        }
    }
}

/// The roots to match again, with one more.
pub open spec fn marked(roots: Set<u64>, root: Option<u32>) -> Set<u64> {
    match root {
        Some(r) => roots.insert(r as u64),
        None => roots,
    }
}

/// A card's place, as it is committed.
pub ghost struct Moved {
    pub card_id: u32,
    pub macro_zone: u64,
    pub micro_location: u32,
    pub stack_state: u8,
}

/// The places of the cards that are known, in order.
pub open spec fn places(rows: Rows, ids: Seq<u32>, now: u64, pmask: u32) -> Seq<Moved>
    decreases ids.len(),
{
    if ids.len() == 0 {
        Seq::empty()
    } else {
        let before = places(rows, ids.drop_last(), now, pmask);
        match row_in(rows, ids.last(), now) {
            Some(row) => before.push(
                Moved {
                    card_id: ids.last(),
                    macro_zone: row.macro_zone,
                    micro_location: row.micro_location,
                    stack_state: (row.flags & pmask) as u8,
                },
            ),
            None => before,
        }
    }
}

/// The batched call that commits these places.
pub open spec fn move_call(moved: Seq<Moved>, caller: u32, now: u64) -> CallView {
    CallView::MoveCards {
        client_time_ms: now,
        caller_player_id: caller,
        card_ids: moved.map_values(|m: Moved| m.card_id),
        macro_zones: moved.map_values(|m: Moved| m.macro_zone),
        micro_locations: moved.map_values(|m: Moved| m.micro_location),
        stack_states: moved.map_values(|m: Moved| m.stack_state),
    }
}

/// The set with a list of ids taken out.
pub open spec fn cleared(dirty: Set<u64>, ids: Seq<u32>) -> Set<u64>
    decreases ids.len(),
{
    if ids.len() == 0 {
        dirty
    } else {
        cleared(dirty, ids.drop_last()).remove(ids.last() as u64)
    }
}

/// A card whose position drives what others see: a soul, or a container.
pub open spec fn carries_anchor<'a>(known: &Known<'a>, id: u32) -> bool {
    known.world.cards.at(id, known.now) matches Some(row) && (row.is_soul || known.is_container(
        row.packed_definition,
    ))
}

/// Whether a card is an anchor carrier.
pub fn is_anchor_carrier<'a>(known: &Known<'a>, id: u32) -> (b: bool)
    requires
        known.wf(),
    ensures
        b == carries_anchor(known, id),
{
    match known.world.cards.current(id, known.now) {
        Some(row) => row.is_soul || known.has_inventory(row.packed_definition),
        None => false,
    }
}

/// What is known of local moves, as values.
#[verifier::ext_equal]
pub ghost struct MovesState {
    /// Cards moved locally and not committed.
    pub dirty: Set<u64>,
    /// The next local sequence number.
    pub seq: u16,
    /// Zones that others watch too, with how many watch.
    pub watched: Map<u64, u32>,
}

impl MovesState {
    /// The card stands where others watch.
    pub open spec fn is_watched(self, rows: Rows, id: u32, now: u64) -> bool {
        row_in(rows, id, now) matches Some(row) && self.watched.dom().contains(row.macro_zone)
            && self.watched[row.macro_zone] > 1
    }

    /// One of the cards must be committed at once.
    pub open spec fn must_sync<'a>(self, known: &Known<'a>, ids: Seq<u32>) -> bool {
        exists|i: int| 0 <= i < ids.len() && self.commits_at_once(known, #[trigger] ids[i])
    }

    /// The card must be committed at once: it carries an anchor, or others watch.
    pub open spec fn commits_at_once<'a>(self, known: &Known<'a>, id: u32) -> bool {
        carries_anchor(known, id) || self.is_watched(known.world.cards@, id, known.now)
    }

    /// How many watch a zone, as last heard; only more than one is kept.
    pub open spec fn watchers(self, zone: u64) -> u32 {
        if self.watched.dom().contains(zone) {
            self.watched[zone]
        } else {
            0
        }
    }

    /// The state after the server told how many watch a zone.
    pub open spec fn heard(self, zone: u64, observers: u32) -> MovesState {
        MovesState {
            watched: if observers <= 1 {
                self.watched.remove(zone)
            } else {
                self.watched.insert(zone, observers)
            },
            ..self
        }
    }

    /// `ids` lists the dirty cards in a zone, ascending.
    pub open spec fn is_dirty_list(self, rows: Rows, zone: u64, now: u64, ids: Seq<u32>) -> bool {
        &&& forall|a: int, b: int| 0 <= a < b < ids.len() ==> #[trigger] ids[a] < #[trigger] ids[b]
        &&& forall|id: u32| #[trigger]
            ids.contains(id) <==> self.dirty.contains(id as u64) && (row_in(rows, id, now) matches Some(
                row,
            ) && row.macro_zone == zone)
    }
}

/// Cards moved and not committed, and the zones that others watch.
pub struct Moves {
    dirty: OrdMap<()>,
    local_seq: u16,
    observers: OrdMap<u32>,
}

impl View for Moves {
    type V = MovesState;

    closed spec fn view(&self) -> MovesState {
        MovesState {
            dirty: self.dirty@.dom(),
            seq: self.local_seq,
            watched: self.observers@,
        }
    }
}

impl Moves {
    pub closed spec fn wf(&self) -> bool {
        &&& self.dirty.wf()
        &&& self.observers.wf()
        &&& forall|k: u64| #[trigger] self.dirty@.dom().contains(k) ==> k <= u32::MAX
    }

    pub fn new() -> (m: Self)
        ensures
            m.wf(),
            m@ == (MovesState { dirty: Set::empty(), seq: 0, watched: Map::empty() }),
    {
        let m = Moves { dirty: OrdMap::new(), local_seq: 0, observers: OrdMap::new() };
        assert(m@.dirty =~= Set::empty());
        m
    }

    /// The dirty cards, ascending.
    pub fn dirty_ids(&self) -> (ids: Vec<u32>)
        requires
            self.wf(),
        ensures
            lists_set(ids@, self@.dirty),
    {
        ids_of(&self.dirty)
    }

    /// Whether a card is dirty.
    pub fn is_dirty(&self, id: u32) -> (b: bool)
        requires
            self.wf(),
        ensures
            b == self@.dirty.contains(id as u64),
    {
        self.dirty.contains_key(id as u64)
    }

    /// How many watch a zone.
    pub fn observers(&self, zone: u64) -> (n: u32)
        requires
            self.wf(),
        ensures
            n == self@.watchers(zone),
    {
        match self.observers.get(zone) {
            Some(n) => *n,
            None => 0,
        }
    }

    /// Mint a local sequence number.
    fn next_local_seq(&mut self) -> (seq: u16)
        requires
            old(self).wf(),
        ensures
            final(self).wf(),
            seq == old(self)@.seq,
            final(self)@ == (MovesState { seq: seq_after(seq), ..old(self)@ }),
    {
        let s: u16 = self.local_seq;
        self.local_seq = if s < 0xFFFF {
            s + 1
        } else {
            0
        };
        s
    }

    /// Apply one write.
    fn write(
        &mut self,
        cards: &mut Cards,
        roots: &mut OrdMap<()>,
        moved: &mut Vec<u32>,
        w: Write,
        now: u64,
        pmask: u32,
    )
        requires
            old(self).wf(),
            old(cards).wf(),
            old(roots).wf(),
            forall|k: u64| #[trigger] old(roots)@.dom().contains(k) ==> k <= u32::MAX,
        ensures
            final(self).wf(),
            final(cards).wf(),
            final(roots).wf(),
            forall|k: u64| #[trigger] final(roots)@.dom().contains(k) ==> k <= u32::MAX,
            final(self)@.watched == old(self)@.watched,
            board(*final(self), *final(cards), *final(roots), *final(moved)) == board(
                *old(self),
                *old(cards),
                *old(roots),
                *old(moved),
            ).written(w, now, pmask),
    {
        let ghost o = board(*self, *cards, *roots, *moved);
        let row: CardRow = match cards.current(w.card_id, now) {
            Some(row) => *row,
            None => {
                return ;
            },
        };
        let seq: u16 = self.next_local_seq();
        let flags: u32 = (row.flags & !pmask) | (w.to.flags & pmask);
        let valid_at: u64 = pack_valid_at(now, seq);
        let after = CardRow {
            valid_at,
            macro_zone: w.to.macro_zone,
            surface: w.to.surface,
            chunk_q: w.to.chunk_q,
            chunk_r: w.to.chunk_r,
            micro_location: w.to.micro_location,
            micro: w.to.micro,
            flags,
            ..row
        };
        assert(after == moved_row(row, w.to, pmask, now, seq));
        cards.apply(RowOp::Update, after);
        self.dirty.insert(w.card_id as u64, ());
        moved.push(w.card_id);
        if let Some(root) = chain_root(cards, w.card_id, now) {
            roots.insert(root as u64, ());
        }
        proof {
            let b = board(*self, *cards, *roots, *moved);
            assert(b.dirty =~= o.dirty.insert(w.card_id as u64));
            assert(b.roots =~= marked(o.roots, root_in(b.rows, w.card_id, now)));
        }
    }

    /// Apply a placement plan to the local world. The moved cards, in order.
    pub fn place(
        &mut self,
        cards: &mut Cards,
        roots: &mut OrdMap<()>,
        plan: &Vec<Write>,
        now: u64,
        pmask: u32,
    ) -> (moved: Vec<u32>)
        requires
            old(self).wf(),
            old(cards).wf(),
            old(roots).wf(),
            forall|k: u64| #[trigger] old(roots)@.dom().contains(k) ==> k <= u32::MAX,
        ensures
            final(self).wf(),
            final(cards).wf(),
            final(roots).wf(),
            forall|k: u64| #[trigger] final(roots)@.dom().contains(k) ==> k <= u32::MAX,
            final(self)@.watched == old(self)@.watched,
            ({
                let b = (Board {
                    rows: old(cards)@,
                    dirty: old(self)@.dirty,
                    seq: old(self)@.seq,
                    roots: old(roots)@.dom(),
                    moved: Seq::empty(),
                }).planned(plan@, now, pmask);
                &&& final(cards)@ == b.rows
                &&& final(self)@.dirty == b.dirty
                &&& final(self)@.seq == b.seq
                &&& final(roots)@.dom() == b.roots
                &&& moved@ == b.moved
            }),
    {
        let mut moved: Vec<u32> = Vec::new();
        let ghost o = board(*self, *cards, *roots, moved);
        let n: usize = plan.len();
        let mut i: usize = 0;
        assert(plan@.take(0) =~= Seq::empty());
        assert(moved@ =~= Seq::empty());
        while i < n
            invariant
                self.wf(),
                cards.wf(),
                roots.wf(),
                forall|k: u64| #[trigger] roots@.dom().contains(k) ==> k <= u32::MAX,
                self@.watched == old(self)@.watched,
                n == plan@.len(),
                i <= n,
                board(*self, *cards, *roots, moved) == o.planned(plan@.take(i as int), now, pmask),
            decreases n - i,
        {
            proof {
                assert(plan@.take(i + 1).drop_last() =~= plan@.take(i as int));
                assert(plan@.take(i + 1).last() == plan@[i as int]);
            }
            self.write(cards, roots, &mut moved, plan[i], now, pmask);
            i = i + 1;
        }
        assert(plan@.take(n as int) =~= plan@);
        moved
    }

    /// Whether a card stands where others watch.
    fn zone_observed_by_others(&self, cards: &Cards, id: u32, now: u64) -> (b: bool)
        requires
            self.wf(),
            cards.wf(),
        ensures
            b == self@.is_watched(cards@, id, now),
    {
        match cards.current(id, now) {
            Some(row) => match self.observers.get(row.macro_zone) {
                Some(n) => *n > 1,
                None => false,
            },
            None => false,
        }
    }

    /// Whether one of the moved cards must be committed at once.
    pub fn syncs_now<'a>(&self, known: &Known<'a>, ids: &Vec<u32>) -> (b: bool)
        requires
            self.wf(),
            known.wf(),
        ensures
            b == self@.must_sync(known, ids@),
    {
        let n: usize = ids.len();
        let mut i: usize = 0;
        while i < n
            invariant
                self.wf(),
                known.wf(),
                n == ids@.len(),
                i <= n,
                forall|j: int| 0 <= j < i ==> !self@.commits_at_once(known, #[trigger] ids@[j]),
            decreases n - i,
        {
            let id: u32 = ids[i];
            if is_anchor_carrier(known, id) || self.zone_observed_by_others(
                &known.world.cards,
                id,
                known.now,
            ) {
                assert(self@.commits_at_once(known, ids@[i as int]));
                return true;
            }
            i = i + 1;
        }
        false
    }

    /// Commit cards: the one batched call with their places as they are, if any of
    /// them is known. The cards are dirty no more.
    pub fn build_move_cards(
        &mut self,
        cards: &Cards,
        ids: &Vec<u32>,
        caller: u32,
        now: u64,
        pmask: u32,
    ) -> (call: Option<ClientCall>)
        requires
            old(self).wf(),
            cards.wf(),
        ensures
            final(self).wf(),
            final(self)@ == (MovesState {
                dirty: cleared(old(self)@.dirty, ids@),
                ..old(self)@
            }),
            call is None <==> places(cards@, ids@, now, pmask).len() == 0,
            call matches Some(c) ==> c@ == move_call(
                places(cards@, ids@, now, pmask),
                caller,
                now,
            ),
            call matches Some(c) ==> commits_rows(c@, cards@, caller, now, pmask),
    {
        let ghost o = *self;
        let n: usize = ids.len();
        let mut card_ids: Vec<u32> = Vec::new();
        let mut macro_zones: Vec<u64> = Vec::new();
        let mut micro_locations: Vec<u32> = Vec::new();
        let mut stack_states: Vec<u8> = Vec::new();
        let ghost mut ps: Seq<Moved> = Seq::empty();
        let mut i: usize = 0;
        assert(ids@.take(0) =~= Seq::empty());
        while i < n
            invariant
                self.wf(),
                cards.wf(),
                n == ids@.len(),
                i <= n,
                self@ == (MovesState { dirty: cleared(o@.dirty, ids@.take(i as int)), ..o@ }),
                ps == places(cards@, ids@.take(i as int), now, pmask),
                card_ids@ == ps.map_values(|m: Moved| m.card_id),
                macro_zones@ == ps.map_values(|m: Moved| m.macro_zone),
                micro_locations@ == ps.map_values(|m: Moved| m.micro_location),
                stack_states@ == ps.map_values(|m: Moved| m.stack_state),
            decreases n - i,
        {
            let id: u32 = ids[i];
            let ghost before = self@;
            proof {
                assert(ids@.take(i + 1).drop_last() =~= ids@.take(i as int));
                assert(ids@.take(i + 1).last() == id);
            }
            if let Some(row) = cards.current(id, now) {
                let stack: u8 = #[verifier::truncate]
                ((row.flags & pmask) as u8);
                card_ids.push(id);
                macro_zones.push(row.macro_zone);
                micro_locations.push(row.micro_location);
                stack_states.push(stack);
                proof {
                    let m = Moved {
                        card_id: id,
                        macro_zone: row.macro_zone,
                        micro_location: row.micro_location,
                        stack_state: stack,
                    };
                    ps = ps.push(m);
                    assert(card_ids@ =~= ps.map_values(|m: Moved| m.card_id));
                    assert(macro_zones@ =~= ps.map_values(|m: Moved| m.macro_zone));
                    assert(micro_locations@ =~= ps.map_values(|m: Moved| m.micro_location));
                    assert(stack_states@ =~= ps.map_values(|m: Moved| m.stack_state));
                }
            }
            self.dirty.remove(id as u64);
            assert(self@.dirty =~= before.dirty.remove(id as u64));
            i = i + 1;
        }
        assert(ids@.take(n as int) =~= ids@);
        if card_ids.len() == 0 {
            return None;
        }
        proof {
            law_commit_carries_current_places(cards@, ids@, caller, now, pmask);
        }
        Some(
            ClientCall::MoveCards {
                client_time_ms: now,
                caller_player_id: caller,
                card_ids,
                macro_zones,
                micro_locations,
                stack_states,
            },
        )
    }

    /// The dirty cards in a zone.
    fn dirty_in(&self, cards: &Cards, zone: u64, now: u64) -> (ids: Vec<u32>)
        requires
            self.wf(),
            cards.wf(),
        ensures
            self@.is_dirty_list(cards@, zone, now, ids@),
    {
        let all = self.dirty_ids();
        let n: usize = all.len();
        let mut ids: Vec<u32> = Vec::new();
        let mut i: usize = 0;
        while i < n
            invariant
                cards.wf(),
                n == all@.len(),
                i <= n,
                lists_set(all@, self@.dirty),
                forall|a: int, b: int|
                    0 <= a < b < ids@.len() ==> #[trigger] ids@[a] < #[trigger] ids@[b],
                forall|a: int, p: int|
                    0 <= a < ids@.len() && i <= p < n ==> #[trigger] ids@[a] < #[trigger] all@[p],
                forall|a: int|
                    0 <= a < ids@.len() ==> self@.dirty.contains(#[trigger] ids@[a] as u64) && (
                    row_in(cards@, ids@[a], now) matches Some(row) && row.macro_zone == zone),
                forall|p: int|
                    0 <= p < i && (row_in(cards@, #[trigger] all@[p], now) matches Some(row)
                        && row.macro_zone == zone) ==> ids@.contains(all@[p]),
            decreases n - i,
        {
            let id: u32 = all[i];
            let ghost before = ids@;
            assert(self@.dirty.contains(id as u64)) by {
                assert(all@.contains(id));
                assert((id as u64) as u32 == id);
            }
            let here: bool = match cards.current(id, now) {
                Some(row) => row.macro_zone == zone,
                None => false,
            };
            if here {
                ids.push(id);
                assert(ids@[before.len() as int] == id);
            }
            proof {
                assert forall|p: int|
                    0 <= p < i + 1 && (row_in(cards@, #[trigger] all@[p], now) matches Some(row)
                        && row.macro_zone == zone) implies ids@.contains(all@[p]) by {
                    if p < i {
                        let a = before.index_of(all@[p]);
                        assert(ids@[a] == before[a]);
                    }
                }
            }
            i = i + 1;
        }
        proof {
            assert forall|id: u32| #[trigger] ids@.contains(id) <==> self@.dirty.contains(id as u64)
                && (row_in(cards@, id, now) matches Some(row) && row.macro_zone == zone) by {
                if ids@.contains(id) {
                    let a = ids@.index_of(id);
                    assert(ids@[a] == id);
                }
                if self@.dirty.contains(id as u64) && (row_in(cards@, id, now) matches Some(row)
                    && row.macro_zone == zone) {
                    let p = all@.index_of((id as u64) as u32);
                    assert(all@[p] == id);
                }
            }
        }
        ids
    }

    /// The server told how many watch a zone. When the first other watcher arrives,
    /// the dirty cards there are to be committed.
    pub fn note_observers(&mut self, cards: &Cards, zone: u64, observers: u32, now: u64) -> (ids:
        Vec<u32>)
        requires
            old(self).wf(),
            cards.wf(),
        ensures
            final(self).wf(),
            final(self)@ == old(self)@.heard(zone, observers),
            if old(self)@.watchers(zone) <= 1 && observers > 1 {
                old(self)@.is_dirty_list(cards@, zone, now, ids@)
            } else {
                ids@ == Seq::<u32>::empty()
            },
    {
        let ghost o = *self;
        let prev: u32 = self.observers(zone);
        if observers <= 1 {
            self.observers.remove(zone);
        } else {
            self.observers.insert(zone, observers);
        }
        if prev <= 1 && observers > 1 {
            self.dirty_in(cards, zone, now)
        } else {
            Vec::new()
        }
    }
}

/// The board that these make up.
spec fn board(moves: Moves, cards: Cards, roots: OrdMap<()>, moved: Vec<u32>) -> Board {
    Board {
        rows: cards@,
        dirty: moves@.dirty,
        seq: moves@.seq,
        roots: roots@.dom(),
        moved: moved@,
    }
}

/// The list holds an id.
spec fn listed(ids: Seq<u32>, k: u64) -> bool {
    exists|i: int| 0 <= i < ids.len() && #[trigger] ids[i] as u64 == k
}

/// A commit takes out the ids it lists, and only those.
proof fn lemma_cleared(dirty: Set<u64>, ids: Seq<u32>, k: u64)
    ensures
        cleared(dirty, ids).contains(k) <==> dirty.contains(k) && !listed(ids, k),
    decreases ids.len(),
{
    if ids.len() > 0 {
        let init = ids.drop_last();
        lemma_cleared(dirty, init, k);
        if listed(init, k) {
            let i = choose|i: int| 0 <= i < init.len() && #[trigger] init[i] as u64 == k;
            assert(ids[i] as u64 == k);
        }
        if listed(ids, k) && ids.last() as u64 != k {
            let i = choose|i: int| 0 <= i < ids.len() && #[trigger] ids[i] as u64 == k;
            assert(init[i] as u64 == k);
        }
        if ids.last() as u64 == k {
            assert(ids[ids.len() - 1] as u64 == k);
        }
    }
}

/// Committing every dirty card leaves none dirty.
pub proof fn law_flush_clears(dirty: Set<u64>, ids: Seq<u32>)
    requires
        lists_set(ids, dirty),
    ensures
        cleared(dirty, ids) == Set::<u64>::empty(),
{
    assert forall|k: u64| !cleared(dirty, ids).contains(k) by {
        lemma_cleared(dirty, ids, k);
        if dirty.contains(k) {
            let i = ids.index_of(k as u32);
            assert(ids[i] as u64 == k);
        }
    }
    assert(cleared(dirty, ids) =~= Set::empty());
}

/// A plan marks dirty what it moved, and nothing else.
pub proof fn law_moves_are_dirty(b: Board, plan: Seq<Write>, now: u64, pmask: u32, k: u64)
    requires
        b.moved.len() == 0,
    ensures
        b.planned(plan, now, pmask).dirty.contains(k) <==> b.dirty.contains(k) || (k <= u32::MAX
            && b.planned(plan, now, pmask).moved.contains(k as u32)),
    decreases plan.len(),
{
    if plan.len() > 0 {
        let w = plan.last();
        let mid = b.planned(plan.drop_last(), now, pmask);
        law_moves_are_dirty(b, plan.drop_last(), now, pmask, k);
        let end = mid.written(w, now, pmask);
        if row_in(mid.rows, w.card_id, now) is Some {
            assert(end.moved == mid.moved.push(w.card_id));
            if k <= u32::MAX && mid.moved.contains(k as u32) {
                let i = mid.moved.index_of(k as u32);
                assert(end.moved[i] == k as u32);
            }
            assert(end.moved[mid.moved.len() as int] == w.card_id);
            if k <= u32::MAX && end.moved.contains(k as u32) && k as u32 != w.card_id {
                let i = end.moved.index_of(k as u32);
                assert(mid.moved[i] == k as u32);
            }
        }
    }
}

/// A move shows in the local world at once: the card's row is the moved one, stamped
/// now, unless a row of the same millisecond is stamped later.
pub proof fn law_move_shows(b: Board, w: Write, now: u64, pmask: u32)
    requires
        now < 0x1_0000_0000_0000,
        row_in(b.rows, w.card_id, now) is Some,
        forall|k: u64|
            b.rows.dom().contains(w.card_id as u64) && #[trigger] b.rows[w.card_id as u64].dom().contains(
                k,
            ) && crate::rows::time_of(k) <= now ==> k <= stamp(now, b.seq),
    ensures
        row_in(b.written(w, now, pmask).rows, w.card_id, now) == Some(
            moved_row(row_in(b.rows, w.card_id, now)->0, w.to, pmask, now, b.seq),
        ),
{
    let row = row_in(b.rows, w.card_id, now)->0;
    let id = w.card_id as u64;
    let after = moved_row(row, w.to, pmask, now, b.seq);
    let rows = b.written(w, now, pmask).rows;
    let s = stamp(now, b.seq);
    if !b.rows.dom().contains(id) {
        crate::history::lemma_no_latest(Map::<u64, CardRow>::empty().dom(), now);
    }
    let hist = b.rows[id];
    assert(rows[id] == hist.insert(s, after));
    assert(crate::rows::time_of(s) == now);
    crate::history::lemma_latest(rows[id].dom(), now, s);
}

} // verus!
