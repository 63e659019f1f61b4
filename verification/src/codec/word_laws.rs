//! The flag word in plain numbers: what each field of a word says, digit by digit.

use vstd::prelude::*;
use crate::codec::card_model::{HoldField, Micro};
use crate::codec::flags::{FlagField, DEAD_BIT, POS_NEED_BIT, POS_WANT_BIT};

verus! {

use crate::codec::card_model::{
    applied_location,
    blocked,
    branch_value,
    clamped,
    hold_bits,
    hold_max,
    hold_value,
    hold_written,
    index_value,
    micro_of,
    placement_written,
    stack_value,
    stock_shift,
    stock_value,
};
use crate::codec::flags::{declared_bit, declared_field, field_value, has_bit, window};

/// The placement fields and the refcounts are digits of the word: the stack in the
/// lowest sixteen, the slot in the next, then the claims, borrows, position holds and
/// drop holds in eights, the touches and the server holds in fours.
pub proof fn law_word_digits(flags: u32)
    ensures
        stack_value(flags) == flags as int % 16,
        index_value(flags) == flags as int / 0x10 % 16,
        hold_value(flags, HoldField::SlotClaim) == flags as int / 0x100 % 8,
        hold_value(flags, HoldField::SlotBorrow) == flags as int / 0x800 % 8,
        hold_value(flags, HoldField::PositionHold) == flags as int / 0x4000 % 8,
        hold_value(flags, HoldField::DropHold) == flags as int / 0x2_0000 % 8,
        hold_value(flags, HoldField::Touch) == flags as int / 0x10_0000 % 4,
        hold_value(flags, HoldField::Server) == flags as int / 0x40_0000 % 4,
{
    assert(field_value(flags, 0, 4) == flags % 16 && field_value(flags, 4, 4) == flags / 0x10 % 16
        && field_value(flags, 8, 3) == flags / 0x100 % 8 && field_value(flags, 11, 3) == flags
        / 0x800 % 8 && field_value(flags, 14, 3) == flags / 0x4000 % 8 && field_value(flags, 17, 3)
        == flags / 0x2_0000 % 8 && field_value(flags, 20, 2) == flags / 0x10_0000 % 4
        && field_value(flags, 22, 2) == flags / 0x40_0000 % 4) by (bit_vector);
}

/// The death of a card is bit 26 of its word; the two position bits are the next.
pub proof fn law_word_bits(flags: u32)
    ensures
        has_bit(flags, DEAD_BIT) <==> flags as int / 0x400_0000 % 2 == 1,
        has_bit(flags, POS_NEED_BIT) <==> flags as int / 0x800_0000 % 2 == 1,
        has_bit(flags, POS_WANT_BIT) <==> flags as int / 0x1000_0000 % 2 == 1,
{
    assert((has_bit(flags, 26) <==> flags / 0x400_0000 % 2 == 1) && (has_bit(flags, 27) <==> flags
        / 0x800_0000 % 2 == 1) && (has_bit(flags, 28) <==> flags / 0x1000_0000 % 2 == 1))
        by (bit_vector);
}

/// A card is kept from any new action if and only if it is dead or claimed.
pub proof fn law_blocked_cards(flags: u32)
    ensures
        blocked(flags) <==> flags as int / 0x400_0000 % 2 == 1 || flags as int / 0x100 % 8 > 0,
{
    law_word_digits(flags);
    law_word_bits(flags);
}

/// A row whose stack digit is not 0 is stacked on the card its location names, in the
/// branch one below the digit, at the slot of the next digit. Any other row is loose,
/// at the cell and offsets in its location.
pub proof fn law_place_of_a_row(micro_location: u32, flags: u32)
    ensures
        flags as int % 16 != 0 ==> micro_of(micro_location, flags) == (Micro::Stacked {
            root: micro_location,
            branch: (flags as int % 16 - 1) as u8,
            index: (flags as int / 0x10 % 16) as u8,
        }),
        flags as int % 16 == 0 ==> (micro_of(micro_location, flags) matches Micro::Loose {
            local_q,
            local_r,
            x,
            y,
        } && local_q == micro_location as int / 0x2000_0000 && local_r == micro_location as int
            / 0x400_0000 % 8 && x as int % 8192 == micro_location as int / 0x2000 % 8192 && y as int
            % 8192 == micro_location as int % 8192 && -4096 <= x < 4096 && -4096 <= y < 4096),
        branch_value(flags) == if flags as int % 16 == 0 {
            0
        } else {
            flags as int % 16 - 1
        },
{
    law_word_digits(flags);
}

/// A placement written into a word replaces its two lowest digits, and nothing else: by
/// 0 for a loose place, else by the branch plus one and the slot, each at most 15.
pub proof fn law_word_after_placement(micro: Micro, before: u32, after: u32)
    requires
        placement_written(micro, before, after),
    ensures
        after as int / 0x100 == before as int / 0x100,
        micro is Loose ==> after as int % 0x100 == 0,
        micro matches Micro::Stacked { branch, index, .. } ==> after as int % 16 == (if branch < 14 {
            branch + 1
        } else {
            15
        }) && after as int / 0x10 % 16 == (if index < 15 {
            index as int
        } else {
            15
        }),
{
    law_word_digits(after);
    assert(window(0, 4) | window(4, 4) == 0xFF) by (bit_vector);
    assert(after / 0x100 == before / 0x100) by (bit_vector)
        requires
            after & !0xFFu32 == before & !0xFFu32,
    ;
}

/// The location a placement is written with: the root's id, or the cell and offsets,
/// columns and rows in eights, offsets in 8192s.
pub proof fn law_location_of_a_placement(micro: Micro)
    ensures
        micro matches Micro::Stacked { root, .. } ==> applied_location(micro) == root,
        micro matches Micro::Loose { local_q, local_r, x, y } ==> {
            let m = applied_location(micro) as int;
            &&& m / 0x2000_0000 == local_q as int % 8
            &&& m / 0x400_0000 % 8 == local_r as int % 8
            &&& m / 0x2000 % 8192 == x as int % 8192
            &&& m % 8192 == y as int % 8192
        },
{
    if let Micro::Loose { local_q, local_r, x, y } = micro {
        let m = (local_q as int % 8) * 0x2000_0000 + (local_r as int % 8) * 0x400_0000 + (x as int
            % 8192) * 0x2000 + y as int % 8192;
        assert(0 <= m <= u32::MAX);
        assert(m / 0x2000 == (local_q as int % 8) * 0x1_0000 + (local_r as int % 8) * 0x2000
            + x as int % 8192);
        assert(m / 0x400_0000 == (local_q as int % 8) * 8 + local_r as int % 8);
    }
}

/// One more hold of a kind, in the word's units.
pub open spec fn hold_unit(field: HoldField) -> int {
    match field {
        HoldField::SlotClaim => 0x100,
        HoldField::SlotBorrow => 0x800,
        HoldField::PositionHold => 0x4000,
        HoldField::DropHold => 0x2_0000,
        HoldField::Touch => 0x10_0000,
        HoldField::Server => 0x40_0000,
    }
}

/// A count written into a word changes the word by the difference of the counts, in
/// units of the field. Counts go to 7, touches and server holds to 3.
pub proof fn law_word_after_count(field: HoldField, count: int, before: u32, after: u32)
    requires
        hold_written(field, count, before, after),
    ensures
        after - before == (count - hold_value(before, field)) * hold_unit(field),
        hold_max(field) == if field is Touch || field is Server {
            3int
        } else {
            7
        },
        forall|value: int, max: int|
            0 <= value && 0 <= max <= u32::MAX ==> #[trigger] clamped(value, max) == if value < max {
                value
            } else {
                max
            },
{
    assert(window(8, 3) == 0x700 && window(11, 3) == 0x3800 && window(14, 3) == 0x1C000 && window(
        17,
        3,
    ) == 0xE0000 && window(20, 2) == 0x300000 && window(22, 2) == 0xC00000) by (bit_vector);
    law_word_digits(before);
    law_word_digits(after);
    let bits = hold_bits(field);
    assert(after - before == (after & bits) - (before & bits)) by (bit_vector)
        requires
            after & !bits == before & !bits,
    ;
    assert(forall|w: u32|
        #![trigger w & 0x700]
        #![trigger w & 0x3800]
        #![trigger w & 0x1C000]
        #![trigger w & 0xE0000]
        #![trigger w & 0x300000]
        #![trigger w & 0xC00000]
        w & 0x700 == (w / 0x100 % 8) * 0x100 && w & 0x3800 == (w / 0x800 % 8) * 0x800 && w & 0x1C000
            == (w / 0x4000 % 8) * 0x4000 && w & 0xE0000 == (w / 0x2_0000 % 8) * 0x2_0000 && w
            & 0x300000 == (w / 0x10_0000 % 4) * 0x10_0000 && w & 0xC00000 == (w / 0x40_0000 % 4)
            * 0x40_0000) by (bit_vector);
}

/// The zone-savable stock slots are the two lowest digits of the stock word, in fours;
/// even slots name the first, odd slots the second. Writing one changes the word by the
/// difference, in its units.
pub proof fn law_stock_digits(before: u32, after: u32, slot: usize)
    ensures
        stock_value(before, slot) == if slot % 2 == 0 {
            before as int % 4
        } else {
            before as int / 4 % 4
        },
        after & !window(stock_shift(slot), 2) == before & !window(stock_shift(slot), 2) ==> after
            - before == (stock_value(after, slot) - stock_value(before, slot)) * (if slot % 2 == 0 {
            1int
        } else {
            4
        }),
{
    assert(window(0, 2) == 3 && window(2, 2) == 12 && field_value(before, 0, 2) == before % 4
        && field_value(before, 2, 2) == before / 4 % 4 && field_value(after, 0, 2) == after % 4
        && field_value(after, 2, 2) == after / 4 % 4) by (bit_vector);
    assert((after & !3u32 == before & !3u32 ==> after - before == after % 4 - before % 4) && (after
        & !12u32 == before & !12u32 ==> after - before == (after / 4 % 4) * 4 - (before / 4 % 4)
        * 4)) by (bit_vector);
}

/// The bits that flags have by name: the state of a card from bit 24 of `flags`, the bookkeeping from
/// bit 0 of `flags_bk`.
pub proof fn law_bits_by_name()
    ensures
        declared_bit("flags"@, "player_owned"@) == Some(24u8),
        declared_bit("flags"@, "surface_locked"@) == Some(25u8),
        declared_bit("flags"@, "dead"@) == Some(26u8),
        declared_bit("flags"@, "pos_need"@) == Some(27u8),
        declared_bit("flags"@, "pos_want"@) == Some(28u8),
        declared_bit("flags"@, "zone_born"@) == Some(29u8),
        declared_bit("flags_bk"@, "position_dirty"@) == Some(0u8),
        declared_bit("flags_bk"@, "position_preserve"@) == Some(1u8),
        declared_bit("flags_bk"@, "data_dirty"@) == Some(2u8),
        declared_bit("flags_bk"@, "data_preserve"@) == Some(3u8),
{
    reveal_strlit("flags");
    reveal_strlit("flags_bk");
    reveal_strlit("player_owned");
    reveal_strlit("surface_locked");
    reveal_strlit("dead");
    reveal_strlit("pos_need");
    reveal_strlit("pos_want");
    reveal_strlit("zone_born");
    reveal_strlit("position_dirty");
    reveal_strlit("position_preserve");
    reveal_strlit("data_dirty");
    reveal_strlit("data_preserve");
    assert("flags"@.len() != "flags_bk"@.len());
    assert("pos_need"@[4] != "pos_want"@[4]);
    assert("surface_locked"@.len() == 14 && "player_owned"@.len() == 12 && "dead"@.len() == 4);
    assert("pos_need"@.len() == 8 && "pos_want"@.len() == 8 && "zone_born"@.len() == 9);
    assert("position_dirty"@.len() == 14 && "position_preserve"@.len() == 17);
    assert("data_dirty"@.len() == 10 && "data_preserve"@.len() == 13);
}

/// The fields that flags have by name, with their lowest bit and their width.
pub proof fn law_fields_by_name()
    ensures
        declared_field("flags"@, "stack"@) == Some(FlagField { shift: 0, width: 4 }),
        declared_field("flags"@, "index"@) == Some(FlagField { shift: 4, width: 4 }),
        declared_field("flags"@, "slot_claim_count"@) == Some(FlagField { shift: 8, width: 3 }),
        declared_field("flags"@, "slot_borrow_count"@) == Some(FlagField { shift: 11, width: 3 }),
        declared_field("flags"@, "position_hold_count"@) == Some(FlagField { shift: 14, width: 3 }),
        declared_field("flags"@, "drop_hold_count"@) == Some(FlagField { shift: 17, width: 3 }),
        declared_field("flags"@, "touch_count"@) == Some(FlagField { shift: 20, width: 2 }),
        declared_field("flags"@, "server_count"@) == Some(FlagField { shift: 22, width: 2 }),
        declared_field("stock"@, "stock_0"@) == Some(FlagField { shift: 0, width: 2 }),
        declared_field("stock"@, "stock_1"@) == Some(FlagField { shift: 2, width: 2 }),
{
    reveal_strlit("flags");
    reveal_strlit("stock");
    reveal_strlit("stack");
    reveal_strlit("index");
    reveal_strlit("slot_claim_count");
    reveal_strlit("slot_borrow_count");
    reveal_strlit("position_hold_count");
    reveal_strlit("drop_hold_count");
    reveal_strlit("touch_count");
    reveal_strlit("server_count");
    reveal_strlit("stock_0");
    reveal_strlit("stock_1");
    assert("flags"@[0] != "stock"@[0]);
    assert("stack"@[0] != "index"@[0]);
    assert("stock_0"@[6] != "stock_1"@[6]);
    assert("stack"@.len() == 5 && "index"@.len() == 5);
    assert("slot_claim_count"@.len() == 16 && "slot_borrow_count"@.len() == 17);
    assert("position_hold_count"@.len() == 19 && "drop_hold_count"@.len() == 15);
    assert("touch_count"@.len() == 11 && "server_count"@.len() == 12);
}

/// A name that is none of those has no bit and no field, and no other column has one.
pub proof fn law_no_other_names(field: Seq<char>, name: Seq<char>)
    ensures
        field != "flags"@ && field != "flags_bk"@ ==> declared_bit(field, name) is None,
        field != "flags"@ && field != "stock"@ ==> declared_field(field, name) is None,
        declared_bit(field, name) is Some ==> name == "player_owned"@ || name == "surface_locked"@
            || name == "dead"@ || name == "pos_need"@ || name == "pos_want"@ || name
            == "zone_born"@ || name == "position_dirty"@ || name == "position_preserve"@ || name
            == "data_dirty"@ || name == "data_preserve"@,
        declared_field(field, name) is Some ==> name == "stack"@ || name == "index"@ || name
            == "slot_claim_count"@ || name == "slot_borrow_count"@ || name
            == "position_hold_count"@ || name == "drop_hold_count"@ || name == "touch_count"@
            || name == "server_count"@ || name == "stock_0"@ || name == "stock_1"@,
{
}

} // verus!
