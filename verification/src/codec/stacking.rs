//! Stacking eligibility: pure bit math over [`StackBits`], shared by the client
//! (drag / feasibility), the server, and the placement model.
//!
//! Bit-fields are indexed by stack id (the value stored in a card's `stack`
//! nibble): bit `i` = stack `i`, where
//!   - `0` = loose (the root sentinel, never hosted or joined),
//!   - `1` = hex / under-root (where a tile mounts),
//!   - `2` = top, `3` = bottom.
//!
//! `hosts` are the stacks a card sources as a root (slots others attach to),
//! `joins` the stacks it can occupy as a member.
//!
//! Drop `a` onto `b`: try `a` joins `b`, else `b` joins `a`. Lowest stack wins
//! (hex preferred); the drop direction breaks a top/bottom tie. The root is
//! always the host side, which is what makes a card-onto-tile drop push the tile
//! into the card's hex stack.

use vstd::prelude::*;
use crate::codec::packed::STACK_DIR_DOWN;

verus! {

/// Stack ids (the `stack` nibble value; 0 = loose).
pub const STACK_HEX: u8 = 1;

pub const STACK_TOP: u8 = 2;

pub const STACK_BOTTOM: u8 = 3;

/// A card's stacking bit-fields, indexed by stack id (bit `i` = stack `i`).
#[derive(Clone, Copy, Debug, PartialEq, Eq, Structural)]
pub struct StackBits {
    pub hosts: u8,
    pub joins: u8,
}

impl StackBits {
    /// Whether a card sources `stack` as a root.
    pub open spec fn hosting(self, stack: u8) -> bool {
        self.hosts & (1u8 << stack) != 0
    }

    /// Whether a card can occupy `stack` as a member.
    pub open spec fn joining(self, stack: u8) -> bool {
        self.joins & (1u8 << stack) != 0
    }
}

/// Regular card: hosts hex + top + bottom, joins top + bottom. Bit 0 (loose) is
/// never set: a card neither hosts nor joins the loose stack.
pub fn default_bits() -> (r: StackBits)
    ensures
        r == (StackBits { hosts: 0b1110, joins: 0b1100 }),
{
    StackBits { hosts: 0b1110, joins: 0b1100 }
}

/// Tile/event: hosts nothing, joins only the hex stack.
pub fn tile_bits() -> (r: StackBits)
    ensures
        r == (StackBits { hosts: 0b0000, joins: 0b0010 }),
{
    StackBits { hosts: 0b0000, joins: 0b0010 }
}

#[inline]
fn bit(stack: u8) -> (r: u8)
    requires
        stack < 8,
    ensures
        r == 1u8 << stack,
{
    1 << stack
}

/// Whether `joiner` can occupy `stack` on `host`.
pub open spec fn fits(host: StackBits, joiner: StackBits, stack: u8) -> bool {
    host.hosting(stack) && joiner.joining(stack)
}

/// The stack picked among hex, top and bottom, given which of them are open: hex
/// first, then the only open one of top and bottom, then the drop direction.
pub open spec fn picked_stack(hex: bool, top: bool, bottom: bool, drop_dir: u8) -> Option<u8> {
    if hex {
        Some(STACK_HEX)
    } else if top && bottom {
        Some(
            if drop_dir == STACK_DIR_DOWN {
                STACK_BOTTOM
            } else {
                STACK_TOP
            },
        )
    } else if top {
        Some(STACK_TOP)
    } else if bottom {
        Some(STACK_BOTTOM)
    } else {
        None
    }
}

/// The stack `joiner` occupies on `host`.
pub open spec fn matched_stack(host: StackBits, joiner: StackBits, drop_dir: u8) -> Option<u8> {
    picked_stack(
        fits(host, joiner, STACK_HEX),
        fits(host, joiner, STACK_TOP),
        fits(host, joiner, STACK_BOTTOM),
        drop_dir,
    )
}

/// The stack id a `joiner` occupies on a `host`, or `None` if none. Lowest stack
/// wins (hex first); `drop_dir` (`STACK_DIR_UP` / `DOWN`) breaks a top+bottom tie.
pub fn match_stack(host: StackBits, joiner: StackBits, drop_dir: u8) -> (r: Option<u8>)
    ensures
        r == matched_stack(host, joiner, drop_dir),
{
    let m = host.hosts & joiner.joins;
    proof {
        lemma_shared_bits(host.hosts, joiner.joins);
    }
    if m == 0 {
        return None;
    }
    if m & bit(STACK_HEX) != 0 {
        return Some(STACK_HEX);
    }
    let top = m & bit(STACK_TOP) != 0;
    let bottom = m & bit(STACK_BOTTOM) != 0;
    if top && bottom {
        return Some(
            if drop_dir == STACK_DIR_DOWN {
                STACK_BOTTOM
            } else {
                STACK_TOP
            },
        );
    }
    if top {
        return Some(STACK_TOP);
    }
    if bottom {
        return Some(STACK_BOTTOM);
    }
    None
}

/// The outcome of a drop resolution.
#[derive(Clone, Copy, Debug, PartialEq, Eq, Structural)]
pub struct StackResolution {
    /// `true`: the dragged card joins the target (target is root), the normal
    /// card-onto-card stack. `false`: the target joins the dragged card (dragged
    /// is root, target absorbed into its hex stack), the card-onto-tile case.
    pub dragged_is_member: bool,
    /// Stack id the member occupies on the root.
    pub stack: u8,
}

/// The outcome of dropping `dragged` onto `target`.
pub open spec fn resolved_drop(dragged: StackBits, target: StackBits, drop_dir: u8) -> Option<
    StackResolution,
> {
    match matched_stack(target, dragged, drop_dir) {
        Some(stack) => Some(StackResolution { dragged_is_member: true, stack }),
        None => match matched_stack(dragged, target, drop_dir) {
            Some(stack) => Some(StackResolution { dragged_is_member: false, stack }),
            None => None,
        },
    }
}

/// Bidirectional resolve for dropping `dragged` onto `target`. Forward first
/// (dragged joins target), then reverse (target joins dragged). `None` = the two
/// can't stack either way.
pub fn resolve_stack_drop(dragged: StackBits, target: StackBits, drop_dir: u8) -> (r: Option<
    StackResolution,
>)
    ensures
        r == resolved_drop(dragged, target, drop_dir),
{
    if let Some(stack) = match_stack(target, dragged, drop_dir) {
        return Some(StackResolution { dragged_is_member: true, stack });
    }
    if let Some(stack) = match_stack(dragged, target, drop_dir) {
        return Some(StackResolution { dragged_is_member: false, stack });
    }
    None
}

/// The root of a resolved drop hosts the stack and the member joins it; the drop
/// resolves whenever one side fits on the other, and forward has precedence.
pub proof fn law_drop_root_is_host(dragged: StackBits, target: StackBits, drop_dir: u8)
    ensures
        match resolved_drop(dragged, target, drop_dir) {
            Some(res) => {
                &&& STACK_HEX <= res.stack <= STACK_BOTTOM
                &&& res.dragged_is_member ==> fits(target, dragged, res.stack)
                &&& !res.dragged_is_member ==> fits(dragged, target, res.stack) && (forall|s: u8|
                    STACK_HEX <= s <= STACK_BOTTOM ==> !#[trigger] fits(target, dragged, s))
            },
            None => forall|s: u8|
                STACK_HEX <= s <= STACK_BOTTOM ==> !#[trigger] fits(target, dragged, s) && !fits(
                    dragged,
                    target,
                    s,
                ),
        },
{
}

/// The drop direction matters only where top and bottom both fit and hex does not.
pub proof fn law_direction_breaks_ties_only(host: StackBits, joiner: StackBits, a: u8, b: u8)
    ensures
        matched_stack(host, joiner, a) == matched_stack(host, joiner, b) || (!fits(
            host,
            joiner,
            STACK_HEX,
        ) && fits(host, joiner, STACK_TOP) && fits(host, joiner, STACK_BOTTOM)),
        fits(host, joiner, STACK_HEX) ==> matched_stack(host, joiner, a) == Some(STACK_HEX),
{
}

/// A card that hosts nothing is never the root, and two such cards never stack.
pub proof fn law_hosting_nothing_is_never_root(dragged: StackBits, target: StackBits, drop_dir: u8)
    ensures
        target.hosts == 0 ==> (resolved_drop(dragged, target, drop_dir) matches Some(res)
            ==> !res.dragged_is_member),
        dragged.hosts == 0 ==> (resolved_drop(dragged, target, drop_dir) matches Some(res)
            ==> res.dragged_is_member),
        target.hosts == 0 && dragged.hosts == 0 ==> resolved_drop(dragged, target, drop_dir)
            is None,
{
    assert(forall|s: u8| #[trigger] (0u8 & (1u8 << s)) == 0) by (bit_vector);
}

/// A bit of an intersection is a bit of both words.
pub(crate) proof fn lemma_shared_bits(a: u8, b: u8)
    ensures
        forall|s: u8|
            (a & b) & #[trigger] (1u8 << s) != 0 <==> a & (1u8 << s) != 0 && b & (1u8 << s) != 0,
        a & b == 0 ==> forall|s: u8|
            a & #[trigger] (1u8 << s) == 0 || b & (1u8 << s) == 0,
{
    assert(forall|m: u8, k: u8, n: u8|
        #![trigger (m & k) & n]
        n == 0 || n == 1 || n == 2 || n == 4 || n == 8 || n == 16 || n == 32 || n == 64 || n == 128
            ==> ((m & k) & n != 0 <==> m & n != 0 && k & n != 0)) by (bit_vector);
    assert(forall|s: u8|
        #![trigger 1u8 << s]
        1u8 << s == 0 || 1u8 << s == 1 || 1u8 << s == 2 || 1u8 << s == 4 || 1u8 << s == 8 || 1u8
            << s == 16 || 1u8 << s == 32 || 1u8 << s == 64 || 1u8 << s == 128) by (bit_vector);
    assert(forall|n: u8| #[trigger] (0u8 & n) == 0) by (bit_vector);
    assert forall|s: u8| (a & b) & #[trigger] (1u8 << s) != 0 <==> a & (1u8 << s) != 0 && b & (1u8
        << s) != 0 by {
        let n = 1u8 << s;
        assert((a & b) & n != 0 <==> a & n != 0 && b & n != 0);
    }
}

} // verus!
