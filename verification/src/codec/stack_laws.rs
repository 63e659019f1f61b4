//! Which stack a card goes to, told from the digits of the bit-fields.

use vstd::prelude::*;
use crate::codec::stacking::{StackBits, StackResolution};

verus! {

use crate::codec::stacking::{matched_stack, resolved_drop};

/// Whether a bit-field has the bit of a stack, up to stack 3.
pub open spec fn has_stack(word: u8, stack: u8) -> bool {
    if stack == 0 {
        word as int % 2 == 1
    } else if stack == 1 {
        word as int / 2 % 2 == 1
    } else if stack == 2 {
        word as int / 4 % 2 == 1
    } else {
        word as int / 8 % 2 == 1
    }
}

/// The bits of a bit-field are its binary digits.
pub(crate) proof fn lemma_has_stack(word: u8)
    ensures
        word & (1u8 << 0u8) != 0 <==> has_stack(word, 0),
        word & (1u8 << 1u8) != 0 <==> has_stack(word, 1),
        word & (1u8 << 2u8) != 0 <==> has_stack(word, 2),
        word & (1u8 << 3u8) != 0 <==> has_stack(word, 3),
{
    assert((word & (1u8 << 0u8) != 0 <==> word % 2 == 1) && (word & (1u8 << 1u8) != 0 <==> word / 2
        % 2 == 1) && (word & (1u8 << 2u8) != 0 <==> word / 4 % 2 == 1) && (word & (1u8 << 3u8) != 0
        <==> word / 8 % 2 == 1)) by (bit_vector);
}

/// A pair shares a stack where the host's field and the joiner's have its bit. Of hex (1),
/// top (2) and bottom (3) the lowest shared one is taken, but a downward drop (2) that could go to
/// top or bottom goes to the bottom.
pub proof fn law_lowest_shared_stack(host: StackBits, joiner: StackBits, drop_dir: u8)
    ensures
        ({
            let r = matched_stack(host, joiner, drop_dir);
            let hex = has_stack(host.hosts, 1) && has_stack(joiner.joins, 1);
            let top = has_stack(host.hosts, 2) && has_stack(joiner.joins, 2);
            let bottom = has_stack(host.hosts, 3) && has_stack(joiner.joins, 3);
            &&& hex ==> r == Some(1u8)
            &&& !hex && top && (!bottom || drop_dir != 2) ==> r == Some(2u8)
            &&& !hex && bottom && (!top || drop_dir == 2) ==> r == Some(3u8)
            &&& !hex && !top && !bottom ==> r is None
        }),
{
    lemma_has_stack(host.hosts);
    lemma_has_stack(joiner.joins);
}

/// A dragged card that shares a stack with its target, as the joiner, joins it there; only where
/// it does not may the target join the dragged card.
pub proof fn law_dragged_card_joins_first(dragged: StackBits, target: StackBits, drop_dir: u8)
    ensures
        match matched_stack(target, dragged, drop_dir) {
            Some(stack) => resolved_drop(dragged, target, drop_dir) == Some(
                StackResolution { dragged_is_member: true, stack },
            ),
            None => match matched_stack(dragged, target, drop_dir) {
                Some(stack) => resolved_drop(dragged, target, drop_dir) == Some(
                    StackResolution { dragged_is_member: false, stack },
                ),
                None => resolved_drop(dragged, target, drop_dir) is None,
            },
        },
{
}

} // verus!
