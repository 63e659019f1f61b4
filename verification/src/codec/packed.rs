//! Packed ids and addresses.
//!
//! # `micro_location` of a loose card (u32)
//!
//! | bits  | content                                        |
//! |-------|------------------------------------------------|
//! | 29-31 | cell column `local_q`                          |
//! | 26-28 | cell row `local_r`                             |
//! | 13-25 | within-cell offset `x`, two's complement       |
//! | 0-12  | within-cell offset `y`, two's complement       |
//!
//! # `macro_zone` (u64)
//!
//! | bits  | content                                        |
//! |-------|------------------------------------------------|
//! | 32-63 | owner card of a container, 0 for the world     |
//! | 24-31 | surface                                        |
//! | 12-23 | zone column, two's complement                  |
//! | 0-11  | zone row, two's complement                     |

use vstd::prelude::*;

verus! {

/// Stack directions: the `branch` of a stack member.
pub const STACK_DIR_HEX: u8 = 0;

pub const STACK_DIR_UP: u8 = 1;

pub const STACK_DIR_DOWN: u8 = 2;

/// The `branch` of a member whose place is resolved later.
pub const STACK_STATE_DEFERRED: u8 = 3;

/// Surfaces.
pub const INVENTORY_LAYER: u8 = 1;

pub const WORLD_LAYER: u8 = 64;

/// Definition of a player soul.
pub const PLAYER_SOUL_PACKED: u16 = 0xFFFF;

/// First definition of the range reserved for player souls.
pub const PLAYER_SOUL_FIRST: u16 = 0xFFF0;

/// Number of cell columns and of cell rows in a zone.
pub const CELL_SPAN: u32 = 8;

/// Number of values of a within-cell offset.
pub const OFFSET_SPAN: u32 = 8192;

/// Number of values of a zone column or row.
pub const ZONE_SPAN: u32 = 4096;

/// Whether a definition is in the range reserved for player souls.
pub fn is_player_soul(packed_definition: u16) -> (r: bool)
    ensures
        r == (PLAYER_SOUL_FIRST <= packed_definition <= 0xFFFF),
{
    packed_definition >= PLAYER_SOUL_FIRST
}

/// A signed value read back from its residue modulo `span`.
pub open spec fn signed_residue(raw: int, span: int) -> int {
    if raw >= span / 2 {
        raw - span
    } else {
        raw
    }
}

/// The packed `micro_location` of a loose card.
pub open spec fn micro_loose(local_q: int, local_r: int, x: int, y: int) -> int {
    (local_q % 8) * 0x2000_0000 + (local_r % 8) * 0x400_0000 + (x % 8192) * 0x2000 + y % 8192
}

/// Pack a loose cell and its within-cell offset into a `micro_location`.
/// Columns and rows keep their low three bits, offsets their low thirteen.
pub fn pack_micro_loose(local_q: u8, local_r: u8, x: i16, y: i16) -> (r: u32)
    ensures
        r == micro_loose(local_q as int, local_r as int, x as int, y as int),
{
    let q: u32 = (local_q as u32) % CELL_SPAN;
    let cell_r: u32 = (local_r as u32) % CELL_SPAN;
    let raw_x: u32 = ((x as i32 + 0x8000) as u32) % OFFSET_SPAN;
    let raw_y: u32 = ((y as i32 + 0x8000) as u32) % OFFSET_SPAN;
    assert(raw_x == x as int % 8192);
    assert(raw_y == y as int % 8192);
    q * 0x2000_0000 + cell_r * 0x400_0000 + raw_x * 0x2000 + raw_y
}

/// Unpack a loose `micro_location` into `(local_q, local_r, x, y)`.
pub fn unpack_micro_loose(micro_location: u32) -> (r: (u8, u8, i16, i16))
    ensures
        r.0 == micro_location as int / 0x2000_0000,
        r.1 == micro_location as int / 0x400_0000 % 8,
        r.2 == signed_residue(micro_location as int / 0x2000 % 8192, 8192),
        r.3 == signed_residue(micro_location as int % 8192, 8192),
{
    let q: u8 = (micro_location / 0x2000_0000) as u8;
    let cell_r: u8 = (micro_location / 0x400_0000 % CELL_SPAN) as u8;
    let raw_x: i32 = (micro_location / 0x2000 % OFFSET_SPAN) as i32;
    let raw_y: i32 = (micro_location % OFFSET_SPAN) as i32;
    let x: i16 = if raw_x >= 4096 {
        (raw_x - 8192) as i16
    } else {
        raw_x as i16
    };
    let y: i16 = if raw_y >= 4096 {
        (raw_y - 8192) as i16
    } else {
        raw_y as i16
    };
    (q, cell_r, x, y)
}

/// A cell in `0..8` with offsets in `-4096..4096` survives packing.
pub proof fn law_micro_loose_round_trip(local_q: u8, local_r: u8, x: i16, y: i16)
    requires
        local_q < 8,
        local_r < 8,
        -4096 <= x < 4096,
        -4096 <= y < 4096,
    ensures
        ({
            let m = micro_loose(local_q as int, local_r as int, x as int, y as int);
            &&& 0 <= m <= u32::MAX
            &&& m / 0x2000_0000 == local_q
            &&& m / 0x400_0000 % 8 == local_r
            &&& signed_residue(m / 0x2000 % 8192, 8192) == x
            &&& signed_residue(m % 8192, 8192) == y
        }),
{
    let m = micro_loose(local_q as int, local_r as int, x as int, y as int);
    assert(m / 0x2000 == (local_q % 8) * 0x1_0000 + (local_r % 8) * 0x2000 + x as int % 8192);
    assert(m / 0x400_0000 == (local_q % 8) * 8 + local_r % 8);
}

/// The owner band of a `macro_zone`.
pub open spec fn zone_owner(macro_zone: u64) -> u32 {
    (macro_zone / 0x1_0000_0000) as u32
}

/// The surface band of a `macro_zone`.
pub open spec fn zone_surface(macro_zone: u64) -> u8 {
    (macro_zone / 0x100_0000 % 256) as u8
}

/// The zone row and column bands of a `macro_zone`.
pub open spec fn zone_cell(macro_zone: u64) -> int {
    macro_zone as int % 0x100_0000
}

/// The owner card a `macro_zone` names, 0 for the world.
pub fn owner_of(macro_zone: u64) -> (r: u32)
    ensures
        r == zone_owner(macro_zone),
{
    (macro_zone / 0x1_0000_0000) as u32
}

/// The surface a `macro_zone` lies on.
pub fn surface_of(macro_zone: u64) -> (r: u8)
    ensures
        r == zone_surface(macro_zone),
{
    (macro_zone / 0x100_0000 % 256) as u8
}

/// `macro_zone` with its surface replaced.
pub open spec fn zone_with_surface(macro_zone: u64, surface: u8) -> u64 {
    (zone_owner(macro_zone) * 0x1_0000_0000 + surface * 0x100_0000 + zone_cell(macro_zone)) as u64
}

/// `macro_zone` with its surface replaced.
pub fn with_surface(macro_zone: u64, surface: u8) -> (r: u64)
    ensures
        r == zone_with_surface(macro_zone, surface),
        zone_owner(r) == zone_owner(macro_zone),
        zone_surface(r) == surface,
        zone_cell(r) == zone_cell(macro_zone),
{
    let owner: u64 = macro_zone / 0x1_0000_0000;
    let cell: u64 = macro_zone % 0x100_0000;
    proof {
        lemma_zone_bands(owner as int, surface as int, cell as int);
    }
    owner * 0x1_0000_0000 + (surface as u64) * 0x100_0000 + cell
}

/// `macro_zone` with its owner replaced.
pub fn with_owner(macro_zone: u64, owner: u32) -> (r: u64)
    ensures
        zone_owner(r) == owner,
        zone_surface(r) == zone_surface(macro_zone),
        zone_cell(r) == zone_cell(macro_zone),
        r == owner * 0x1_0000_0000 + macro_zone as int % 0x1_0000_0000,
{
    proof {
        lemma_zone_bands(
            owner as int,
            macro_zone as int / 0x100_0000 % 256,
            macro_zone as int % 0x100_0000,
        );
    }
    (owner as u64) * 0x1_0000_0000 + macro_zone % 0x1_0000_0000
}

/// The `macro_zone` of a full address.
pub open spec fn macro_zone_full(owner: u32, surface: u8, zone_q: int, zone_r: int) -> u64 {
    (owner * 0x1_0000_0000 + surface * 0x100_0000 + (zone_q % 4096) * 0x1000 + zone_r
        % 4096) as u64
}

/// Pack a full address: owner, surface, and the zone column and row (which keep
/// their low twelve bits).
pub fn pack_macro_zone_full(owner: u32, surface: u8, zone_q: i16, zone_r: i16) -> (r: u64)
    ensures
        r == macro_zone_full(owner, surface, zone_q as int, zone_r as int),
        zone_owner(r) == owner,
        zone_surface(r) == surface,
        zone_cell(r) == (zone_q as int % 4096) * 0x1000 + zone_r as int % 4096,
{
    let raw_q: u64 = (((zone_q as i32 + 0x8000) as u32) % ZONE_SPAN) as u64;
    let raw_r: u64 = (((zone_r as i32 + 0x8000) as u32) % ZONE_SPAN) as u64;
    proof {
        assert(raw_q == zone_q as int % 4096);
        assert(raw_r == zone_r as int % 4096);
        lemma_zone_bands(owner as int, surface as int, raw_q * 0x1000 + raw_r);
    }
    (owner as u64) * 0x1_0000_0000 + (surface as u64) * 0x100_0000 + raw_q * 0x1000 + raw_r
}

/// A packed address reads back: its owner, its surface, and the zone column and row
/// in twelve bits each.
pub proof fn law_zone_parts(owner: u32, surface: u8, zone_q: int, zone_r: int)
    ensures
        zone_owner(macro_zone_full(owner, surface, zone_q, zone_r)) == owner,
        zone_surface(macro_zone_full(owner, surface, zone_q, zone_r)) == surface,
        zone_cell(macro_zone_full(owner, surface, zone_q, zone_r)) == (zone_q % 4096) * 0x1000
            + zone_r % 4096,
{
    lemma_zone_bands(owner as int, surface as int, (zone_q % 4096) * 0x1000 + zone_r % 4096);
}

/// Writing a zone's own surface back leaves the zone as it is.
pub proof fn law_surface_write_back(macro_zone: u64)
    ensures
        zone_with_surface(macro_zone, zone_surface(macro_zone)) == macro_zone,
{
}

/// A zone is its owner, its surface, and its column and row, in bands of 32, 8, 12 and 12 bits
/// from the highest down.
pub proof fn law_zone_is_its_bands(
    macro_zone: u64,
    owner: u32,
    surface: u8,
    zone_q: int,
    zone_r: int,
)
    ensures
        macro_zone == zone_owner(macro_zone) * 0x1_0000_0000 + zone_surface(macro_zone) * 0x100_0000
            + zone_cell(macro_zone),
        0 <= zone_cell(macro_zone) < 0x100_0000,
        zone_with_surface(macro_zone, surface) - macro_zone == (surface - zone_surface(macro_zone))
            * 0x100_0000,
        macro_zone_full(owner, surface, zone_q, zone_r) == owner * 0x1_0000_0000 + surface
            * 0x100_0000 + (zone_q % 4096) * 0x1000 + zone_r % 4096,
{
    lemma_zone_bands(owner as int, surface as int, (zone_q % 4096) * 0x1000 + zone_r % 4096);
    lemma_zone_bands(macro_zone as int / 0x1_0000_0000, surface as int, zone_cell(macro_zone));
}

/// The bands of a zone read back from their sum.
pub(crate) proof fn lemma_zone_bands(owner: int, surface: int, cell: int)
    requires
        0 <= owner <= u32::MAX,
        0 <= surface < 256,
        0 <= cell < 0x100_0000,
    ensures
        ({
            let z = owner * 0x1_0000_0000 + surface * 0x100_0000 + cell;
            &&& 0 <= z <= u64::MAX
            &&& z / 0x1_0000_0000 == owner
            &&& z / 0x100_0000 % 256 == surface
            &&& z % 0x100_0000 == cell
        }),
{
    let z = owner * 0x1_0000_0000 + surface * 0x100_0000 + cell;
    assert(z / 0x100_0000 == owner * 256 + surface);
}

/// The numbers that stored rows and clients share: directions, the deferred state, layers, and the
/// definitions of player souls.
pub proof fn law_shared_numbers()
    ensures
        STACK_DIR_HEX == 0,
        STACK_DIR_UP == 1,
        STACK_DIR_DOWN == 2,
        STACK_STATE_DEFERRED == 3,
        INVENTORY_LAYER == 1,
        WORLD_LAYER == 64,
        PLAYER_SOUL_PACKED == 0xFFFF,
        PLAYER_SOUL_FIRST == 0xFFF0,
{
}

} // verus!
