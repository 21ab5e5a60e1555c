//! Version rows: what the server streams about cards, zones, regions and players.
//!
//! A row is stamped by `valid_at = time_ms << 16 | seq`. Bit-packed words are
//! carried next to the fields that were decoded from them, so that the core works
//! on plain values and the wire words stay verbatim.
use vstd::prelude::*;

verus! {

/// The wall-clock millisecond a stamp stands for.
pub open spec fn time_of(valid_at: u64) -> u64 {
    valid_at / 65536
}

/// The wall-clock millisecond a stamp stands for.
pub fn stamp_time_ms(valid_at: u64) -> (t: u64)
    ensures
        t == time_of(valid_at),
{
    assert(valid_at >> 16 == valid_at / 65536) by (bit_vector);
    valid_at >> 16
}

/// A stamp for `time_ms`, told apart from others of the same millisecond by `seq`.
/// Only the low 48 bits of `time_ms` fit.
pub fn pack_valid_at(time_ms: u64, seq: u16) -> (valid_at: u64)
    ensures
        valid_at == (time_ms % 0x1_0000_0000_0000) * 65536 + seq,
        time_ms < 0x1_0000_0000_0000 ==> time_of(valid_at) == time_ms,
{
    let s: u64 = seq as u64;
    assert((time_ms << 16) | s == (time_ms % 0x1_0000_0000_0000) * 65536 + s) by (bit_vector)
        requires
            s < 65536,
    ;
    (time_ms << 16) | s
}

/// Where a card sits: loose in a cell, or a member of a stack.
#[derive(Debug, Clone, Copy, PartialEq, Eq, Structural)]
pub enum Micro {
    Loose { local_q: u8, local_r: u8 },
    Stacked { root: u32, branch: u8, index: u8 },
}

/// What a row event does to its row.
#[derive(Debug, Clone, Copy, PartialEq, Eq, Structural)]
pub enum RowOp {
    Insert,
    Update,
    Delete,
}

/// A card's packed per-instance stock, and what it decodes to.
#[derive(Debug, Clone, Copy, PartialEq, Eq, Structural)]
pub struct Stock {
    pub word: u64,
    /// The first two stock slots.
    pub s0: u8,
    pub s1: u8,
    /// The card is exclusively claimed by an action in flight.
    pub claimed: bool,
}

/// One version of a card.
#[derive(Debug, Clone, Copy, PartialEq, Eq, Structural)]
pub struct CardRow {
    pub valid_at: u64,
    pub card_id: u32,
    /// Packed zone key, and the surface and chunk coordinates packed in it.
    pub macro_zone: u64,
    pub surface: u8,
    pub chunk_q: i16,
    pub chunk_r: i16,
    /// Packed cell or stack root, and the placement it decodes to with `flags`.
    pub micro_location: u32,
    pub micro: Micro,
    pub owner_id: u32,
    pub packed_definition: u16,
    /// The definition is of the soul card type.
    pub is_soul: bool,
    /// Packed flags: placement bits, holds and lifecycle.
    pub flags: u32,
    pub flags_bk: u32,
    /// The server requires this version's position.
    pub pos_need: bool,
    /// An action in flight locks the card where it is.
    pub pos_held: bool,
    /// The card has been destroyed.
    pub dead: bool,
    pub stock: Stock,
}

impl CardRow {
    /// The wall-clock millisecond from which this version holds.
    pub fn time_ms(&self) -> (t: u64)
        ensures
            t == time_of(self.valid_at),
    {
        stamp_time_ms(self.valid_at)
    }

    pub fn micro(&self) -> (m: Micro)
        ensures
            m == self.micro,
    {
        self.micro
    }

    /// The card may not be bound into a new action: dead, or exclusively claimed.
    pub open spec fn blocked(&self) -> bool {
        self.dead || self.stock.claimed
    }

    pub fn bind_blocked(&self) -> (b: bool)
        ensures
            b == self.blocked(),
    {
        self.dead || self.stock.claimed
    }

    pub fn is_dead(&self) -> (b: bool)
        ensures
            b == self.dead,
    {
        self.dead
    }

    /// The same row under another stamp.
    pub fn with_valid_at(self, valid_at: u64) -> (r: CardRow)
        ensures
            r == (CardRow { valid_at, ..self }),
    {
        CardRow { valid_at, ..self }
    }
}

/// One cell of a zone's tile grid. `def_id == 0` is an empty cell.
#[derive(Debug, Clone, Copy, PartialEq, Eq, Structural)]
pub struct TileSlot {
    pub def_id: u16,
    /// The packed definition of the tile (the zone's tile type with `def_id`).
    pub packed: u16,
    pub stock0: u8,
    pub stock1: u8,
}

/// Cells per row of a zone's stored tile grid.
pub const TILE_STRIDE: usize = 8;

/// Cells per side of a zone.
pub const ZONE_SIZE: usize = 7;

/// One version of a zone: its tile grid, row by row, [`TILE_STRIDE`] slots each.
#[derive(Debug)]
pub struct ZoneRow {
    pub valid_at: u64,
    pub zone_id: u32,
    pub macro_zone: u64,
    pub surface: u8,
    pub chunk_q: i16,
    pub chunk_r: i16,
    pub packed_definition: u16,
    pub owner_id: u32,
    pub tiles: Vec<TileSlot>,
}

impl ZoneRow {
    /// The wall-clock millisecond from which this version holds.
    pub fn time_ms(&self) -> (t: u64)
        ensures
            t == time_of(self.valid_at),
    {
        stamp_time_ms(self.valid_at)
    }

    /// The tile of cell `(q, r)`: its slot, unless the cell is empty or outside
    /// the stored grid.
    pub open spec fn tile_spec(&self, q: u8, r: u8) -> Option<TileSlot> {
        let idx = r as int * TILE_STRIDE + q as int;
        if idx < self.tiles@.len() && self.tiles@[idx].def_id != 0 {
            Some(self.tiles@[idx])
        } else {
            None
        }
    }

    pub fn tile(&self, q: u8, r: u8) -> (t: Option<TileSlot>)
        ensures
            t == self.tile_spec(q, r),
    {
        let idx: usize = r as usize * TILE_STRIDE + q as usize;
        if idx < self.tiles.len() && self.tiles[idx].def_id != 0 {
            Some(self.tiles[idx])
        } else {
            None
        }
    }
}

/// A region's bitmask of zones that may exist and zones that do.
#[derive(Debug, Clone, Copy, PartialEq, Eq, Structural)]
pub struct RegionRow {
    pub valid_at: u64,
    pub macro_region: u64,
    pub zone_presence: u64,
    pub zone_available: u64,
    pub distance: u16,
}

} // verus!
