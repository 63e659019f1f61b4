//! Card flag-bit registry: the shared bit layout for the three flag columns on
//! the cards table.
//!
//! - `flags` (u32): the propagating word: gameplay state bits, placement
//!   (`stack` / `index`) and the refcount holds.
//! - `flags_bk` (u8): non-propagating bookkeeping: the dirty / preserve markers.
//! - `stock`: tile-card per-row stock slots (u2 each).
//!
//! This module is the single source of truth for the bit positions. The layout
//! is append-only within a column: a bit is never reused.
//!
//! `stack` (bits 0-3 of `flags`) is 0 for a loose card and nonzero for a stack
//! member, in which case it holds `branch + 1`.

use vstd::prelude::*;
use crate::text::str_eq;

verus! {

// Placement fields of `flags`.
pub const STACK_SHIFT: u8 = 0;
pub const STACK_WIDTH: u8 = 4;
pub const INDEX_SHIFT: u8 = 4;
pub const INDEX_WIDTH: u8 = 4;

// Refcount fields of `flags`.
pub const SLOT_CLAIM_SHIFT: u8 = 8;
pub const SLOT_CLAIM_WIDTH: u8 = 3;
pub const SLOT_BORROW_SHIFT: u8 = 11;
pub const SLOT_BORROW_WIDTH: u8 = 3;
pub const POSITION_HOLD_SHIFT: u8 = 14;
pub const POSITION_HOLD_WIDTH: u8 = 3;
pub const DROP_HOLD_SHIFT: u8 = 17;
pub const DROP_HOLD_WIDTH: u8 = 3;
pub const TOUCH_SHIFT: u8 = 20;
pub const TOUCH_WIDTH: u8 = 2;
pub const SERVER_SHIFT: u8 = 22;
pub const SERVER_WIDTH: u8 = 2;

// State bits of `flags`.
pub const PLAYER_OWNED_BIT: u8 = 24;
pub const SURFACE_LOCKED_BIT: u8 = 25;
pub const DEAD_BIT: u8 = 26;
pub const POS_NEED_BIT: u8 = 27;
pub const POS_WANT_BIT: u8 = 28;
pub const ZONE_BORN_BIT: u8 = 29;

// Bookkeeping bits of `flags_bk`.
pub const POSITION_DIRTY_BIT: u8 = 0;
pub const POSITION_PRESERVE_BIT: u8 = 1;
pub const DATA_DIRTY_BIT: u8 = 2;
pub const DATA_PRESERVE_BIT: u8 = 3;

// Stock slots.
pub const STOCK_0_SHIFT: u8 = 0;
pub const STOCK_0_WIDTH: u8 = 2;
pub const STOCK_1_SHIFT: u8 = 2;
pub const STOCK_1_WIDTH: u8 = 2;

/// Whether bit `i` of `word` is set.
pub open spec fn has_bit(word: u32, i: u8) -> bool {
    word & (1u32 << i) != 0
}

/// A word whose low `width` bits are set (all 32 for a larger width).
pub open spec fn low_bits(width: u8) -> u32 {
    ((((1u64 << width) - 1) as u64) & 0xFFFF_FFFFu64) as u32
}

/// The word with exactly the bits of a field at `shift`, `width` bits wide, set.
pub open spec fn window(shift: u8, width: u8) -> u32 {
    low_bits(width) << shift
}

/// The value a word holds in the field at `shift`, `width` bits wide.
pub open spec fn field_value(word: u32, shift: u8, width: u8) -> u32 {
    (word & window(shift, width)) >> shift
}

/// A multi-bit field within a host integer, described by its lowest bit
/// (`shift`) and bit count (`width`).
#[derive(Debug, Clone, Copy, PartialEq, Eq, Structural)]
pub struct FlagField {
    pub shift: u8,
    pub width: u8,
}

impl FlagField {
    /// Bitmask covering this field's window. `& !mask()` clears the field.
    pub fn mask(self) -> (r: u32)
        requires
            self.shift < 32,
            self.width < 64,
        ensures
            r == window(self.shift, self.width),
            forall|i: u8| i < 32 ==> (#[trigger] has_bit(r, i) <==> self.shift <= i < self.shift
                + self.width),
    {
        let r = self.value_mask() << self.shift;
        proof {
            law_window_bits(self.shift, self.width);
        }
        r
    }

    /// Pack a value into the field's bit positions (truncated to width).
    pub fn pack(self, value: u32) -> (r: u32)
        requires
            self.shift < 32,
            self.width < 64,
        ensures
            r == (value & low_bits(self.width)) << self.shift,
            forall|i: u8|
                i < 32 ==> (#[trigger] has_bit(r, i) <==> self.shift <= i < self.shift + self.width
                    && has_bit(value, (i - self.shift) as u8)),
    {
        let r = (value & self.value_mask()) << self.shift;
        proof {
            let shift = self.shift;
            let width = self.width;
            assert forall|i: u8| i < 32 implies (#[trigger] has_bit(r, i) <==> shift <= i < shift
                + width && has_bit(value, (i - shift) as u8)) by {
                assert((((value & low_bits(width)) << shift) & (1u32 << i) != 0) <==> (shift <= i
                    && i < shift + width && value & (1u32 << ((i - shift) as u8)) != 0))
                    by (bit_vector)
                    requires
                        shift < 32,
                        width < 64,
                        i < 32,
                ;
            }
        }
        r
    }

    /// The largest value the field holds.
    pub(crate) fn value_mask(self) -> (r: u32)
        requires
            self.width < 64,
        ensures
            r == low_bits(self.width),
    {
        let width = self.width;
        assert(1u64 << width >= 1) by (bit_vector)
            requires
                width < 64,
        ;
        (((1u64 << self.width) - 1) & 0xFFFF_FFFF) as u32
    }
}

/// A field's window holds exactly the bits from `shift` up to `shift + width`.
pub proof fn law_window_bits(shift: u8, width: u8)
    requires
        shift < 32,
        width < 64,
    ensures
        forall|i: u8|
            i < 32 ==> (#[trigger] has_bit(window(shift, width), i) <==> shift <= i < shift + width),
{
    assert forall|i: u8| i < 32 implies (#[trigger] has_bit(window(shift, width), i) <==> shift
        <= i < shift + width) by {
        assert(((low_bits(width) << shift) & (1u32 << i) != 0) <==> (shift <= i && i < shift
            + width)) by (bit_vector)
            requires
                shift < 32,
                width < 64,
                i < 32,
        ;
    }
}

/// The declared single-bit flags, by column and name.
pub open spec fn declared_bit(field: Seq<char>, name: Seq<char>) -> Option<u8> {
    if field == "flags"@ {
        if name == "player_owned"@ {
            Some(PLAYER_OWNED_BIT)
        } else if name == "surface_locked"@ {
            Some(SURFACE_LOCKED_BIT)
        } else if name == "dead"@ {
            Some(DEAD_BIT)
        } else if name == "pos_need"@ {
            Some(POS_NEED_BIT)
        } else if name == "pos_want"@ {
            Some(POS_WANT_BIT)
        } else if name == "zone_born"@ {
            Some(ZONE_BORN_BIT)
        } else {
            None
        }
    } else if field == "flags_bk"@ {
        if name == "position_dirty"@ {
            Some(POSITION_DIRTY_BIT)
        } else if name == "position_preserve"@ {
            Some(POSITION_PRESERVE_BIT)
        } else if name == "data_dirty"@ {
            Some(DATA_DIRTY_BIT)
        } else if name == "data_preserve"@ {
            Some(DATA_PRESERVE_BIT)
        } else {
            None
        }
    } else {
        None
    }
}

/// The declared multi-bit fields, by column and name.
pub open spec fn declared_field(field: Seq<char>, name: Seq<char>) -> Option<FlagField> {
    if field == "flags"@ {
        if name == "stack"@ {
            Some(FlagField { shift: STACK_SHIFT, width: STACK_WIDTH })
        } else if name == "index"@ {
            Some(FlagField { shift: INDEX_SHIFT, width: INDEX_WIDTH })
        } else if name == "slot_claim_count"@ {
            Some(FlagField { shift: SLOT_CLAIM_SHIFT, width: SLOT_CLAIM_WIDTH })
        } else if name == "slot_borrow_count"@ {
            Some(FlagField { shift: SLOT_BORROW_SHIFT, width: SLOT_BORROW_WIDTH })
        } else if name == "position_hold_count"@ {
            Some(FlagField { shift: POSITION_HOLD_SHIFT, width: POSITION_HOLD_WIDTH })
        } else if name == "drop_hold_count"@ {
            Some(FlagField { shift: DROP_HOLD_SHIFT, width: DROP_HOLD_WIDTH })
        } else if name == "touch_count"@ {
            Some(FlagField { shift: TOUCH_SHIFT, width: TOUCH_WIDTH })
        } else if name == "server_count"@ {
            Some(FlagField { shift: SERVER_SHIFT, width: SERVER_WIDTH })
        } else {
            None
        }
    } else if field == "stock"@ {
        if name == "stock_0"@ {
            Some(FlagField { shift: STOCK_0_SHIFT, width: STOCK_0_WIDTH })
        } else if name == "stock_1"@ {
            Some(FlagField { shift: STOCK_1_SHIFT, width: STOCK_1_WIDTH })
        } else {
            None
        }
    } else {
        None
    }
}

/// Single-bit flag position for `(field, name)`, or `None`. `field` is one of
/// `"flags"` (the propagating word), `"flags_bk"` (bookkeeping), or `"stock"`.
pub fn flag_bit(field: &str, name: &str) -> (r: Option<u8>)
    ensures
        r == declared_bit(field@, name@),
{
    if str_eq(field, "flags") {
        if str_eq(name, "player_owned") {
            Some(PLAYER_OWNED_BIT)
        } else if str_eq(name, "surface_locked") {
            Some(SURFACE_LOCKED_BIT)
        } else if str_eq(name, "dead") {
            Some(DEAD_BIT)
        } else if str_eq(name, "pos_need") {
            Some(POS_NEED_BIT)
        } else if str_eq(name, "pos_want") {
            Some(POS_WANT_BIT)
        } else if str_eq(name, "zone_born") {
            Some(ZONE_BORN_BIT)
        } else {
            None
        }
    } else if str_eq(field, "flags_bk") {
        if str_eq(name, "position_dirty") {
            Some(POSITION_DIRTY_BIT)
        } else if str_eq(name, "position_preserve") {
            Some(POSITION_PRESERVE_BIT)
        } else if str_eq(name, "data_dirty") {
            Some(DATA_DIRTY_BIT)
        } else if str_eq(name, "data_preserve") {
            Some(DATA_PRESERVE_BIT)
        } else {
            None
        }
    } else {
        None
    }
}

/// Multi-bit field for `(field, name)`, or `None`.
pub fn flag_field(field: &str, name: &str) -> (r: Option<FlagField>)
    ensures
        r == declared_field(field@, name@),
{
    if str_eq(field, "flags") {
        if str_eq(name, "stack") {
            Some(FlagField { shift: STACK_SHIFT, width: STACK_WIDTH })
        } else if str_eq(name, "index") {
            Some(FlagField { shift: INDEX_SHIFT, width: INDEX_WIDTH })
        } else if str_eq(name, "slot_claim_count") {
            Some(FlagField { shift: SLOT_CLAIM_SHIFT, width: SLOT_CLAIM_WIDTH })
        } else if str_eq(name, "slot_borrow_count") {
            Some(FlagField { shift: SLOT_BORROW_SHIFT, width: SLOT_BORROW_WIDTH })
        } else if str_eq(name, "position_hold_count") {
            Some(FlagField { shift: POSITION_HOLD_SHIFT, width: POSITION_HOLD_WIDTH })
        } else if str_eq(name, "drop_hold_count") {
            Some(FlagField { shift: DROP_HOLD_SHIFT, width: DROP_HOLD_WIDTH })
        } else if str_eq(name, "touch_count") {
            Some(FlagField { shift: TOUCH_SHIFT, width: TOUCH_WIDTH })
        } else if str_eq(name, "server_count") {
            Some(FlagField { shift: SERVER_SHIFT, width: SERVER_WIDTH })
        } else {
            None
        }
    } else if str_eq(field, "stock") {
        if str_eq(name, "stock_0") {
            Some(FlagField { shift: STOCK_0_SHIFT, width: STOCK_0_WIDTH })
        } else if str_eq(name, "stock_1") {
            Some(FlagField { shift: STOCK_1_SHIFT, width: STOCK_1_WIDTH })
        } else {
            None
        }
    } else {
        None
    }
}

/// Every declared bit and field lies within a 32-bit word.
pub proof fn law_layout_fits_word(field: Seq<char>, name: Seq<char>)
    ensures
        declared_bit(field, name) matches Some(b) ==> b < 32,
        declared_field(field, name) matches Some(f) ==> 0 < f.width && f.shift + f.width <= 32,
{
}

/// No bit of a column is declared twice: two bits, two fields, or a bit and a
/// field of one column never overlap.
pub proof fn law_layout_never_reuses_a_bit(field: Seq<char>, a: Seq<char>, b: Seq<char>)
    ensures
        a != b ==> (declared_bit(field, a) matches Some(x) ==> declared_bit(field, b) != Some(x)),
        a != b ==> (declared_field(field, a) matches Some(x) ==> (declared_field(
            field,
            b,
        ) matches Some(y) ==> x.shift + x.width <= y.shift || y.shift + y.width <= x.shift)),
        declared_bit(field, a) matches Some(x) ==> (declared_field(field, b) matches Some(y) ==> x
            < y.shift || y.shift + y.width <= x),
{
    assert("flags"@ != "stock"@ && "flags_bk"@ != "stock"@ && "flags"@ != "flags_bk"@) by {
        reveal_strlit("flags");
        reveal_strlit("flags_bk");
        reveal_strlit("stock");
        assert("flags"@[0] != "stock"@[0]);
        assert("flags"@.len() != "flags_bk"@.len());
        assert("stock"@.len() != "flags_bk"@.len());
    }
}

} // verus!
