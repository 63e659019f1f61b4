//! Client-facing introspection over the flag and type registries: the lookups
//! that don't depend on loaded definitions.

use vstd::prelude::*;
use crate::codec::flags::{flag_bit, flag_field};
use crate::dsl::loader::{type_nibble, TYPE_MINI_ZONE, TYPE_TILE, TYPE_TILE_DECORATOR};

verus! {

use crate::codec::flags::{declared_bit, declared_field, field_value, has_bit, law_layout_fits_word};
use crate::dsl::loader::declared_type;
use crate::dsl::lookup_laws::law_slot_is_a_digit;
use vstd::arithmetic::power2::pow2;

/// Single-bit flag position by name, searching `flags` then `flags_bk` (the
/// propagating word takes precedence). `None` for unknown names.
pub fn card_flag_bit(name: &str) -> (r: Option<u8>)
    ensures
        r == match declared_bit("flags"@, name@) {
            Some(bit) => Some(bit),
            None => declared_bit("flags_bk"@, name@),
        },
{
    match flag_bit("flags", name) {
        Some(bit) => Some(bit),
        None => flag_bit("flags_bk", name),
    }
}

/// Whether the named single-bit flag is set in the column that declares it.
pub open spec fn card_flag_set(flags: u32, flags_bk: u32, name: Seq<char>) -> bool {
    match declared_bit("flags"@, name) {
        Some(bit) => has_bit(flags, bit),
        None => match declared_bit("flags_bk"@, name) {
            Some(bit) => has_bit(flags_bk, bit),
            None => false,
        },
    }
}

/// Is the named single-bit flag set, routing to whichever host column declares
/// it (`flags` checked against the propagating word, `flags_bk` against the
/// bookkeeping word)? `false` for unknown names.
pub fn has_card_flag(flags: u32, flags_bk: u32, name: &str) -> (r: bool)
    ensures
        r == card_flag_set(flags, flags_bk, name@),
{
    proof {
        law_layout_fits_word("flags"@, name@);
        law_layout_fits_word("flags_bk"@, name@);
    }
    if let Some(bit) = flag_bit("flags", name) {
        return flags & (1u32 << bit) != 0;
    }
    if let Some(bit) = flag_bit("flags_bk", name) {
        return flags_bk & (1u32 << bit) != 0;
    }
    false
}

/// `(shift, width)` of a named multi-bit field within `field`, or `None`.
pub fn card_flag_field_shape(field: &str, name: &str) -> (r: Option<(u8, u8)>)
    ensures
        r == match declared_field(field@, name@) {
            Some(f) => Some((f.shift, f.width)),
            None => None,
        },
{
    match flag_field(field, name) {
        Some(f) => Some((f.shift, f.width)),
        None => None,
    }
}

/// The value `host` holds in a named field of column `field`.
pub open spec fn declared_value(field: Seq<char>, host: u32, name: Seq<char>) -> Option<u32> {
    match declared_field(field, name) {
        Some(f) => Some(field_value(host, f.shift, f.width)),
        None => None,
    }
}

/// Extract a named multi-bit field's value from `host` (the matching column),
/// within an explicit `field`. `None` if the field isn't declared there.
pub fn card_flag_field_value_in(field: &str, host: u32, name: &str) -> (r: Option<u32>)
    ensures
        r == declared_value(field@, host, name@),
{
    proof {
        law_layout_fits_word(field@, name@);
    }
    match flag_field(field, name) {
        Some(f) => Some((host & f.mask()) >> f.shift),
        None => None,
    }
}

/// Extract a named multi-bit field's value, routing to whichever host declares
/// it (`flags` or `stock`). `None` if unknown.
pub fn card_flag_field_value_any(flags: u32, stock: u32, name: &str) -> (r: Option<u32>)
    ensures
        r == match declared_value("flags"@, flags, name@) {
            Some(v) => Some(v),
            None => declared_value("stock"@, stock, name@),
        },
{
    match card_flag_field_value_in("flags", flags, name) {
        Some(v) => Some(v),
        None => card_flag_field_value_in("stock", stock, name),
    }
}

/// The `card_type` nibble for a type name (e.g. `"tile"` is 7), or `None`.
pub fn card_type_id(name: &str) -> (r: Option<u8>)
    ensures
        r == declared_type(name@),
{
    type_nibble(name)
}

/// Whether a `card_type` nibble renders on the hex world grid (`tile`,
/// `mini_zone`, `tile_decorator`) vs. a rect card.
pub fn is_hex_type(type_id: u8) -> (r: bool)
    ensures
        r == (type_id == 7 || type_id == 8 || type_id == 9),
{
    matches!(type_id, TYPE_TILE | TYPE_MINI_ZONE | TYPE_TILE_DECORATOR)
}

/// No name is declared in both flag columns, so the search order never hides a
/// bookkeeping flag.
pub proof fn law_flag_columns_share_no_name(name: Seq<char>)
    ensures
        declared_bit("flags"@, name) is None || declared_bit("flags_bk"@, name) is None,
{
    reveal_strlit("flags");
    reveal_strlit("flags_bk");
    reveal_strlit("player_owned");
    reveal_strlit("surface_locked");
    reveal_strlit("dead");
    reveal_strlit("pos_need");
    reveal_strlit("pos_want");
    reveal_strlit("zone_born");
    reveal_strlit("position_dirty");
    reveal_strlit("position_preserve");
    reveal_strlit("data_dirty");
    reveal_strlit("data_preserve");
    assert("flags"@.len() != "flags_bk"@.len());
    assert("surface_locked"@[0] != "position_dirty"@[0]);
    assert("surface_locked"@.len() == 14);
    assert("player_owned"@.len() == 12);
    assert("dead"@.len() == 4);
    assert("pos_need"@.len() == 8);
    assert("pos_want"@.len() == 8);
    assert("zone_born"@.len() == 9);
    assert("position_dirty"@.len() == 14);
    assert("position_preserve"@.len() == 17);
    assert("data_dirty"@.len() == 10);
    assert("data_preserve"@.len() == 13);
}

/// A flag is read from the column that declares it; a name that neither declares is not set.
pub proof fn law_flag_is_read_from_its_column(flags: u32, flags_bk: u32, name: Seq<char>)
    ensures
        declared_bit("flags"@, name) matches Some(bit) ==> (card_flag_set(flags, flags_bk, name)
            <==> flags & (1u32 << bit) != 0),
        declared_bit("flags_bk"@, name) matches Some(bit) ==> (card_flag_set(flags, flags_bk, name)
            <==> flags_bk & (1u32 << bit) != 0),
        declared_bit("flags"@, name) is None && declared_bit("flags_bk"@, name) is None
            ==> !card_flag_set(flags, flags_bk, name),
{
    law_flag_columns_share_no_name(name);
}

/// A field is read from its lowest bit up, as many bits as it is wide; an undeclared one is not.
pub proof fn law_field_is_read_from_its_bits(field: Seq<char>, host: u32, name: Seq<char>)
    ensures
        match declared_field(field, name) {
            Some(f) => declared_value(field, host, name) matches Some(v) && v == host as int / (pow2(
                f.shift as nat,
            ) as int) % (pow2(f.width as nat) as int),
            None => declared_value(field, host, name) is None,
        },
{
    law_layout_fits_word(field, name);
    if let Some(f) = declared_field(field, name) {
        law_slot_is_a_digit(host, f.shift, f.width);
    }
}

/// The card types by name, in numbers.
pub proof fn law_types_by_name(name: Seq<char>)
    ensures
        declared_type("requisite"@) == Some(0u8),
        declared_type("tile"@) == Some(7u8),
        declared_type("mini_zone"@) == Some(8u8),
        declared_type("tile_decorator"@) == Some(9u8),
        declared_type(name) is Some ==> name == "requisite"@ || name == "tile"@ || name
            == "mini_zone"@ || name == "tile_decorator"@,
{
    reveal_strlit("requisite");
    reveal_strlit("tile");
    reveal_strlit("mini_zone");
    reveal_strlit("tile_decorator");
    assert("requisite"@[0] != "mini_zone"@[0]);
    assert("requisite"@.len() == 9 && "tile"@.len() == 4 && "mini_zone"@.len() == 9
        && "tile_decorator"@.len() == 14);
}

} // verus!
