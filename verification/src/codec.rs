//! Zone-key codec: how chunks, zones and regions are packed into integer keys.
//!
//! The client core never looks inside a packed key. It asks a [`Codec`] for the
//! key of a chunk, for the region a zone belongs to, and for the fold between
//! world tiles and chunks. [`FnCodec::new`] builds a codec out of four functions.
use vstd::prelude::*;

verus! {

/// The packing functions the core needs.
pub trait Codec {
    /// The codec can be asked about every input.
    spec fn wf(&self) -> bool;

    /// The packed key of chunk `(q, r)` on `(owner, surface)`.
    spec fn zone_key(&self, owner: u32, surface: u8, q: i16, r: i16) -> u64;

    /// The region that holds `zone`, and the zone's bit inside it.
    spec fn region_and_bit(&self, zone: u64) -> (u64, u8);

    /// The chunk coordinate and the cell inside it of a world tile coordinate.
    spec fn fold(&self, tile: i32) -> (i16, u8);

    /// The world tile coordinate of cell `local` in chunk `chunk`.
    spec fn unfold(&self, chunk: i16, local: u8) -> i32;

    fn pack_macro_zone_full(&self, owner: u32, surface: u8, q: i16, r: i16) -> (zone: u64)
        requires
            self.wf(),
        ensures
            zone == self.zone_key(owner, surface, q, r),
    ;

    fn region_of_zone(&self, zone: u64) -> (region: (u64, u8))
        requires
            self.wf(),
        ensures
            region == self.region_and_bit(zone),
            region.1 < 64,
    ;

    fn zone_local(&self, tile: i32) -> (cell: (i16, u8))
        requires
            self.wf(),
        ensures
            cell == self.fold(tile),
    ;

    fn world_tile(&self, chunk: i16, local: u8) -> (tile: i32)
        requires
            self.wf(),
        ensures
            tile == self.unfold(chunk, local),
    ;
}

/// A [`Codec`] made of four functions.
pub struct FnCodec<P, R, L, W> {
    pub pack: P,
    pub region: R,
    pub local: L,
    pub tile: W,
}

impl<P, R, L, W> FnCodec<P, R, L, W> where
    P: Fn(u32, u8, i16, i16) -> u64,
    R: Fn(u64) -> (u64, u8),
    L: Fn(i32) -> (i16, u8),
    W: Fn(i16, u8) -> i32,
 {
    /// A codec out of functions that can be asked about every input, answer the same
    /// every time, and place a zone within the 64 bits of its region.
    pub fn new(pack: P, region: R, local: L, tile: W) -> (c: Self)
        requires
            forall|a: u32, b: u8, c: i16, d: i16| #[trigger] call_requires(pack, (a, b, c, d)),
            forall|z: u64| #[trigger] call_requires(region, (z,)),
            forall|t: i32| #[trigger] call_requires(local, (t,)),
            forall|c: i16, l: u8| #[trigger] call_requires(tile, (c, l)),
            forall|a: u32, b: u8, c: i16, d: i16, x: u64, y: u64| #[trigger]
                call_ensures(pack, (a, b, c, d), x) && #[trigger] call_ensures(
                    pack,
                    (a, b, c, d),
                    y,
                ) ==> x == y,
            forall|z: u64, x: (u64, u8), y: (u64, u8)| #[trigger]
                call_ensures(region, (z,), x) && #[trigger] call_ensures(region, (z,), y) ==> x
                    == y,
            forall|z: u64, x: (u64, u8)| #[trigger] call_ensures(region, (z,), x) ==> x.1 < 64,
            forall|t: i32, x: (i16, u8), y: (i16, u8)| #[trigger]
                call_ensures(local, (t,), x) && #[trigger] call_ensures(local, (t,), y) ==> x == y,
            forall|c: i16, l: u8, x: i32, y: i32| #[trigger]
                call_ensures(tile, (c, l), x) && #[trigger] call_ensures(tile, (c, l), y) ==> x
                    == y,
        ensures
            c.wf(),
            c == (FnCodec { pack, region, local, tile }),
    {
        FnCodec { pack, region, local, tile }
    }
}

impl<P, R, L, W> Codec for FnCodec<P, R, L, W> where
    P: Fn(u32, u8, i16, i16) -> u64,
    R: Fn(u64) -> (u64, u8),
    L: Fn(i32) -> (i16, u8),
    W: Fn(i16, u8) -> i32,
 {
    open spec fn wf(&self) -> bool {
        &&& forall|a: u32, b: u8, c: i16, d: i16| #[trigger]
            call_requires(self.pack, (a, b, c, d))
        &&& forall|z: u64| #[trigger] call_requires(self.region, (z,))
        &&& forall|t: i32| #[trigger] call_requires(self.local, (t,))
        &&& forall|c: i16, l: u8| #[trigger] call_requires(self.tile, (c, l))
        &&& forall|a: u32, b: u8, c: i16, d: i16, x: u64, y: u64| #[trigger]
            call_ensures(self.pack, (a, b, c, d), x) && #[trigger] call_ensures(
                self.pack,
                (a, b, c, d),
                y,
            ) ==> x == y
        &&& forall|z: u64, x: (u64, u8), y: (u64, u8)| #[trigger]
            call_ensures(self.region, (z,), x) && #[trigger] call_ensures(self.region, (z,), y)
                ==> x == y
        &&& forall|z: u64, x: (u64, u8)| #[trigger]
            call_ensures(self.region, (z,), x) ==> x.1 < 64
        &&& forall|t: i32, x: (i16, u8), y: (i16, u8)| #[trigger]
            call_ensures(self.local, (t,), x) && #[trigger] call_ensures(self.local, (t,), y)
                ==> x == y
        &&& forall|c: i16, l: u8, x: i32, y: i32| #[trigger]
            call_ensures(self.tile, (c, l), x) && #[trigger] call_ensures(self.tile, (c, l), y)
                ==> x == y
    }

    open spec fn zone_key(&self, owner: u32, surface: u8, q: i16, r: i16) -> u64 {
        choose|z: u64| call_ensures(self.pack, (owner, surface, q, r), z)
    }

    open spec fn region_and_bit(&self, zone: u64) -> (u64, u8) {
        choose|x: (u64, u8)| call_ensures(self.region, (zone,), x)
    }

    open spec fn fold(&self, tile: i32) -> (i16, u8) {
        choose|x: (i16, u8)| call_ensures(self.local, (tile,), x)
    }

    open spec fn unfold(&self, chunk: i16, local: u8) -> i32 {
        choose|x: i32| call_ensures(self.tile, (chunk, local), x)
    }

    fn pack_macro_zone_full(&self, owner: u32, surface: u8, q: i16, r: i16) -> (zone: u64) {
        (self.pack)(owner, surface, q, r)
    }

    fn region_of_zone(&self, zone: u64) -> (region: (u64, u8)) {
        (self.region)(zone)
    }

    fn zone_local(&self, tile: i32) -> (cell: (i16, u8)) {
        (self.local)(tile)
    }

    fn world_tile(&self, chunk: i16, local: u8) -> (tile: i32) {
        (self.tile)(chunk, local)
    }
}

} // verus!
