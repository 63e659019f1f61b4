use resonantdust::codec::card_model::{
    bind_blocked, decrement_hold, drop_hold_count, has_active_holds, hold_count, increment_hold, is_dead,
    micro_is_card, placement_mask, pos_need, pos_want, stack_branch, stack_index, state_blocks_demotion,
    state_mask, stock, write_stock, HoldField, Micro, STOCK_ZONE_SAVE_MASK,
};
use resonantdust::codec::flags::{flag_bit, flag_field};
use resonantdust::codec::packed::STACK_STATE_DEFERRED;

fn state_bit(name: &str) -> u32 {
    1u32 << flag_bit("flags", name).unwrap()
}

fn hold_counts_mask() -> u32 {
    let mut mask: u32 = 0;
    for name in [
        "touch_count",
        "slot_claim_count",
        "slot_borrow_count",
        "position_hold_count",
        "drop_hold_count",
        "server_count",
    ] {
        mask |= flag_field("flags", name).unwrap().mask();
    }
    mask
}

const HOLDS: [HoldField; 6] = [
    HoldField::Touch,
    HoldField::SlotClaim,
    HoldField::SlotBorrow,
    HoldField::PositionHold,
    HoldField::DropHold,
    HoldField::Server,
];

#[test]
fn stacked_roundtrip() {
    let m = Micro::Stacked { root: 1028, branch: 1, index: 3 };
    let (ml, f) = m.apply(0);
    assert_eq!(ml, 1028);
    assert!(micro_is_card(f));
    assert_eq!(stack_branch(f), 1);
    assert_eq!(stack_index(f), 3);
    assert_eq!(Micro::of(ml, f), m);
}

#[test]
fn loose_roundtrip() {
    let m = Micro::Loose { local_q: 2, local_r: 5, x: -3, y: 7 };
    let (ml, f) = m.apply(0);
    assert!(!micro_is_card(f));
    assert_eq!(stack_index(f), 0); // index unused when loose
    assert_eq!(Micro::of(ml, f), m);
}

#[test]
fn deferred_branch_roundtrips() {
    let m = Micro::deferred(2048);
    let (ml, f) = m.apply(0);
    assert_eq!(ml, 2048);
    assert!(micro_is_card(f));
    assert_eq!(stack_branch(f), STACK_STATE_DEFERRED);
    assert_eq!(Micro::of(ml, f), m);
}

#[test]
fn apply_preserves_state_and_holds() {
    // A state bit and a hold count survive a placement write.
    let base = state_bit("dead") | increment_hold(0, HoldField::Touch);
    let (_ml, f) = Micro::snap(0, 0).apply(base);
    assert!(is_dead(f));
    assert_eq!(hold_count(f, HoldField::Touch), 1);
}

#[test]
fn stock_roundtrip() {
    let s = write_stock(write_stock(0, 0, 3), 1, 2);
    assert_eq!(stock(s, 0), 3);
    assert_eq!(stock(s, 1), 2);
}

#[test]
fn hold_count_roundtrip() {
    assert_eq!(hold_count(0, HoldField::SlotClaim), 0);
    let f = increment_hold(increment_hold(0, HoldField::SlotClaim), HoldField::SlotClaim);
    assert_eq!(hold_count(f, HoldField::SlotClaim), 2);
    let f = decrement_hold(f, HoldField::SlotClaim);
    assert_eq!(hold_count(f, HoldField::SlotClaim), 1);
    // fields are independent
    let f = increment_hold(f, HoldField::SlotBorrow);
    assert_eq!(hold_count(f, HoldField::SlotBorrow), 1);
    assert_eq!(hold_count(f, HoldField::SlotClaim), 1);
    assert!(has_active_holds(f));
    // decrement floors at zero
    assert_eq!(hold_count(decrement_hold(0, HoldField::SlotClaim), HoldField::SlotClaim), 0);
}

#[test]
fn demotion_predicates() {
    assert!(!has_active_holds(0));
    assert!(!state_blocks_demotion(0));
    let held = increment_hold(0, HoldField::Touch);
    assert!(has_active_holds(held));
    assert!(state_blocks_demotion(state_bit("dead")));
    // holds and placement live outside the demote-blocking mask.
    let (_ml, placed) = Micro::snap(0, 0).apply(0);
    assert!(!state_blocks_demotion(placed));
}

#[test]
fn placement_and_state_masks_disjoint() {
    // Placement (bits 0-7) and state bits (24+) must not overlap.
    assert_eq!(placement_mask() & state_mask(), 0);
    // Refcounts (8-23) must not overlap either.
    assert_eq!(placement_mask() & hold_counts_mask(), 0);
    assert_eq!(state_mask() & hold_counts_mask(), 0);
}

#[test]
fn masks_have_their_exact_values() {
    assert_eq!(placement_mask(), 0xFF);
    assert_eq!(state_mask(), 0x3E00_0000);
    assert_eq!(hold_counts_mask(), 0x00FF_FF00);
    assert_eq!(STOCK_ZONE_SAVE_MASK, 0xF);
}

#[test]
fn apply_writes_the_exact_word() {
    let (ml, f) = Micro::Stacked { root: 9, branch: 2, index: 5 }.apply(0xFFFF_FFFF);
    assert_eq!((ml, f), (9, 0xFFFF_FF53));
    // branch + 1 and index are capped at the four-bit fields.
    let (_, f) = Micro::Stacked { root: 9, branch: 200, index: 77 }.apply(0);
    assert_eq!(f, 0xFF);
    let (ml, f) = Micro::Loose { local_q: 1, local_r: 1, x: 1, y: -1 }.apply(0xFFFF_FFFF);
    assert_eq!((ml, f), (0x2400_0000 + 0x2000 + 0x1FFF, 0xFFFF_FF00));
}

#[test]
fn counts_saturate_at_both_ends() {
    for field in HOLDS {
        let mut f = 0;
        for _ in 0..9 {
            f = increment_hold(f, field);
        }
        let max = match field {
            HoldField::Touch | HoldField::Server => 3,
            _ => 7,
        };
        assert_eq!(hold_count(f, field), max);
        for other in HOLDS {
            if other != field {
                assert_eq!(hold_count(f, other), 0);
            }
        }
        for _ in 0..9 {
            f = decrement_hold(f, field);
        }
        assert_eq!(f, 0);
    }
}

#[test]
fn release_undoes_hold() {
    for field in HOLDS {
        let before = 0x2400_0921;
        assert_eq!(decrement_hold(increment_hold(before, field), field), before);
    }
}

#[test]
fn drop_hold_reads_its_own_field() {
    let f = increment_hold(increment_hold(0, HoldField::DropHold), HoldField::DropHold);
    assert_eq!(drop_hold_count(f), 2);
    assert_eq!(f, 2 << 17);
}

#[test]
fn state_bits_read_separately() {
    assert!(pos_need(state_bit("pos_need")));
    assert!(!pos_need(state_bit("pos_want")));
    assert!(pos_want(state_bit("pos_want")));
    assert!(!pos_want(state_bit("dead")));
    assert!(state_blocks_demotion(state_bit("pos_need")));
    assert!(state_blocks_demotion(state_bit("pos_want")));
    assert!(!state_blocks_demotion(state_bit("zone_born")));
}

#[test]
fn bind_blocked_on_death_or_claim_only() {
    assert!(bind_blocked(state_bit("dead")));
    assert!(bind_blocked(increment_hold(0, HoldField::SlotClaim)));
    assert!(!bind_blocked(increment_hold(0, HoldField::SlotBorrow)));
    assert!(!bind_blocked(0));
}

#[test]
fn stock_write_clamps_and_keeps_other_bits() {
    assert_eq!(write_stock(0xFFFF_FFF0, 0, 200), 0xFFFF_FFF3);
    assert_eq!(write_stock(0xABCD_0003, 1, 1), 0xABCD_0007);
    // slots are picked by parity
    assert_eq!(stock(0b1001, 2), 1);
    assert_eq!(stock(0b1001, 3), 2);
}
