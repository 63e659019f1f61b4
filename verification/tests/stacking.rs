use resonantdust::codec::packed::{STACK_DIR_DOWN, STACK_DIR_HEX, STACK_DIR_UP};
use resonantdust::codec::stacking::{
    default_bits, match_stack, resolve_stack_drop, tile_bits, StackBits, StackResolution, STACK_BOTTOM, STACK_HEX,
    STACK_TOP,
};

#[test]
fn stacking_regular_onto_regular_uses_drop_dir_for_top_bottom() {
    let up = resolve_stack_drop(default_bits(), default_bits(), STACK_DIR_UP).unwrap();
    assert_eq!(up, StackResolution { dragged_is_member: true, stack: STACK_TOP });
    let down = resolve_stack_drop(default_bits(), default_bits(), STACK_DIR_DOWN).unwrap();
    assert_eq!(down, StackResolution { dragged_is_member: true, stack: STACK_BOTTOM });
}

#[test]
fn card_onto_tile_pushes_tile_into_card_hex() {
    // Forward fails (tile hosts nothing); reverse makes the card the root and
    // the tile joins its hex stack (1).
    let r = resolve_stack_drop(default_bits(), tile_bits(), STACK_DIR_UP).unwrap();
    assert_eq!(r, StackResolution { dragged_is_member: false, stack: STACK_HEX });
}

#[test]
fn dragging_tile_onto_card_joins_hex_forward() {
    let r = resolve_stack_drop(tile_bits(), default_bits(), STACK_DIR_UP).unwrap();
    assert_eq!(r, StackResolution { dragged_is_member: true, stack: STACK_HEX });
}

#[test]
fn stacking_two_tiles_cannot_stack() {
    assert_eq!(resolve_stack_drop(tile_bits(), tile_bits(), STACK_DIR_UP), None);
}

#[test]
fn lone_open_branch_ignores_the_drop_direction() {
    let host = StackBits { hosts: 0b1000, joins: 0 };
    let joiner = StackBits { hosts: 0, joins: 0b1100 };
    for dir in [STACK_DIR_HEX, STACK_DIR_UP, STACK_DIR_DOWN] {
        assert_eq!(match_stack(host, joiner, dir), Some(STACK_BOTTOM));
    }
    let all = StackBits { hosts: 0xFF, joins: 0xFF };
    assert_eq!(match_stack(all, all, STACK_DIR_DOWN), Some(STACK_HEX));
}

#[test]
fn loose_and_unknown_stacks_never_match() {
    let odd = StackBits { hosts: 0b1111_0001, joins: 0b1111_0001 };
    assert_eq!(match_stack(odd, odd, STACK_DIR_UP), None);
}
