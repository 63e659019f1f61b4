//! Stacking eligibility by definition: the stacks a card hosts and joins, read from
//! its aspects.
//!
//! Two bit-fields over stack indices (bit `i` = stack `i`: 0 hex/under-root,
//! 1 top, 2 bottom):
//!   - `hosts`: stacks this card sources as a root (slots others attach to)
//!   - `joins`: stacks this card can occupy as a member
//!
//! Drop `a` onto `b`: try `a` joins `b`, else `b` joins `a`. Leftmost stack wins
//! (hex 0 preferred), the drop direction breaks a top/bottom tie. The root is
//! always the host side. This is what makes a card-onto-tile drop push the tile
//! into the card's stack 0 (the tile hosts nothing, joins only 0).
//!
//! Tiles and events set `stack_joins`; cards that declare neither aspect take the
//! regular-card default.

use vstd::prelude::*;
use crate::codec::packed::{STACK_DIR_DOWN, STACK_DIR_HEX, STACK_DIR_UP};
use crate::dsl::defs::aspect_value;
use crate::dsl::loader::Bundle;

verus! {

use crate::codec::stack_laws::{has_stack, lemma_has_stack};
use crate::codec::stacking::lemma_shared_bits;
use crate::dsl::defs::defined_aspect;

/// A card's stacking bit-fields.
#[derive(Clone, Copy, Debug, PartialEq, Eq, Structural)]
pub struct StackBits {
    pub hosts: u8,
    pub joins: u8,
}

impl StackBits {
    /// Whether a card sources `stack` as a root.
    pub open spec fn hosting(self, stack: u8) -> bool {
        self.hosts & (1u8 << stack) != 0
    }

    /// Whether a card can occupy `stack` as a member.
    pub open spec fn joining(self, stack: u8) -> bool {
        self.joins & (1u8 << stack) != 0
    }
}

/// Regular card: hosts the hex slot + top + bottom, joins top/bottom.
pub fn default_bits() -> (r: StackBits)
    ensures
        r == (StackBits { hosts: 0b111, joins: 0b110 }),
{
    StackBits { hosts: 0b111, joins: 0b110 }
}

#[inline]
fn bit(stack: u8) -> (r: u8)
    requires
        stack < 8,
    ensures
        r == 1u8 << stack,
{
    1 << stack
}

/// The bit-fields a definition declares: the low eight bits of its aspects.
pub open spec fn declared_bits<B>(bundle: Bundle<B>, packed: u16) -> StackBits {
    match defined_aspect(bundle, packed, "stack_joins"@) {
        None => StackBits { hosts: 0b111, joins: 0b110 },
        Some(joins) => StackBits {
            hosts: match defined_aspect(bundle, packed, "stack_hosts"@) {
                Some(hosts) => hosts as u8,
                None => 0,
            },
            joins: joins as u8,
        },
    }
}

/// Read a card's stacking bit-fields from its definition. `stack_joins` present
/// marks an explicit config (tiles/events, `{0}`); absent means the regular
/// default. `stack_hosts` defaults to 0 when only joins is set (a tile hosts
/// nothing).
pub fn stack_bits<B>(bundle: &Bundle<B>, packed: u16) -> (r: StackBits)
    ensures
        r == declared_bits(*bundle, packed),
{
    match aspect_value(bundle, packed, "stack_joins") {
        None => default_bits(),
        Some(joins) => {
            let hosts: i64 = match aspect_value(bundle, packed, "stack_hosts") {
                Some(hosts) => hosts,
                None => 0,
            };
            StackBits {
                hosts: #[verifier::truncate] (hosts as u8),
                joins: #[verifier::truncate] (joins as u8),
            }
        },
    }
}

/// Whether `joiner` can occupy `stack` on `host`.
pub open spec fn fits(host: StackBits, joiner: StackBits, stack: u8) -> bool {
    host.hosting(stack) && joiner.joining(stack)
}

/// The stack `joiner` occupies on `host`: hex first, then the only open one of top
/// and bottom, then the drop direction.
pub open spec fn matched_stack(host: StackBits, joiner: StackBits, drop_dir: u8) -> Option<u8> {
    let top = fits(host, joiner, STACK_DIR_UP);
    let bottom = fits(host, joiner, STACK_DIR_DOWN);
    if fits(host, joiner, STACK_DIR_HEX) {
        Some(STACK_DIR_HEX)
    } else if bottom && (!top || drop_dir == STACK_DIR_DOWN) {
        Some(STACK_DIR_DOWN)
    } else if top {
        Some(STACK_DIR_UP)
    } else {
        None
    }
}

/// The stack a `joiner` occupies on a `host`, or `None` if none. Leftmost wins
/// (hex 0 first); `drop_dir` (UP/DOWN) breaks a top+bottom tie.
pub fn match_stack(host: StackBits, joiner: StackBits, drop_dir: u8) -> (r: Option<u8>)
    ensures
        r == matched_stack(host, joiner, drop_dir),
{
    let m = host.hosts & joiner.joins;
    proof {
        lemma_shared_bits(host.hosts, joiner.joins);
    }
    if m == 0 {
        return None;
    }
    if m & bit(STACK_DIR_HEX) != 0 {
        return Some(STACK_DIR_HEX);
    }
    let up = m & bit(STACK_DIR_UP) != 0;
    let down = m & bit(STACK_DIR_DOWN) != 0;
    if up && down {
        return Some(
            if drop_dir == STACK_DIR_DOWN {
                STACK_DIR_DOWN
            } else {
                STACK_DIR_UP
            },
        );
    }
    if up {
        return Some(STACK_DIR_UP);
    }
    if down {
        return Some(STACK_DIR_DOWN);
    }
    None
}

/// The outcome of a drop resolution.
#[derive(Clone, Copy, Debug, PartialEq, Eq, Structural)]
pub struct StackResolution {
    /// `true`: the dragged card joins the target (target is root), the normal
    /// card-onto-card stack. `false`: the target joins the dragged card (dragged is
    /// root, target absorbed into its stack 0), the card-onto-tile case.
    pub dragged_is_member: bool,
    /// Stack index the member occupies on the root (`STACK_DIR_*`).
    pub stack: u8,
}

/// The outcome of dropping `dragged` onto `target`.
pub open spec fn resolved_drop(dragged: StackBits, target: StackBits, drop_dir: u8) -> Option<
    StackResolution,
> {
    match matched_stack(target, dragged, drop_dir) {
        Some(stack) => Some(StackResolution { dragged_is_member: true, stack }),
        None => match matched_stack(dragged, target, drop_dir) {
            Some(stack) => Some(StackResolution { dragged_is_member: false, stack }),
            None => None,
        },
    }
}

/// Bidirectional resolve for dropping `dragged` onto `target`. Forward first
/// (dragged joins target), then reverse (target joins dragged). `None` = the two
/// can't stack either way.
pub fn resolve_stack_drop(dragged: StackBits, target: StackBits, drop_dir: u8) -> (r: Option<
    StackResolution,
>)
    ensures
        r == resolved_drop(dragged, target, drop_dir),
{
    if let Some(stack) = match_stack(target, dragged, drop_dir) {
        return Some(StackResolution { dragged_is_member: true, stack });
    }
    if let Some(stack) = match_stack(dragged, target, drop_dir) {
        return Some(StackResolution { dragged_is_member: false, stack });
    }
    None
}

/// The root of a resolved drop hosts the stack and the member joins it; the drop
/// resolves whenever one side fits on the other, and forward has precedence.
pub proof fn law_drop_root_is_host(dragged: StackBits, target: StackBits, drop_dir: u8)
    ensures
        match resolved_drop(dragged, target, drop_dir) {
            Some(res) => {
                &&& STACK_DIR_HEX <= res.stack <= STACK_DIR_DOWN
                &&& res.dragged_is_member ==> fits(target, dragged, res.stack)
                &&& !res.dragged_is_member ==> fits(dragged, target, res.stack) && (forall|s: u8|
                    s <= STACK_DIR_DOWN ==> !#[trigger] fits(target, dragged, s))
            },
            None => forall|s: u8|
                s <= STACK_DIR_DOWN ==> !#[trigger] fits(target, dragged, s) && !fits(
                    dragged,
                    target,
                    s,
                ),
        },
{
}

/// The drop direction matters only where top and bottom both fit and hex does not;
/// hex wins wherever it fits.
pub proof fn law_direction_breaks_ties_only(host: StackBits, joiner: StackBits, a: u8, b: u8)
    ensures
        matched_stack(host, joiner, a) == matched_stack(host, joiner, b) || (!fits(
            host,
            joiner,
            STACK_DIR_HEX,
        ) && fits(host, joiner, STACK_DIR_UP) && fits(host, joiner, STACK_DIR_DOWN)),
        fits(host, joiner, STACK_DIR_HEX) ==> matched_stack(host, joiner, a) == Some(STACK_DIR_HEX),
{
}

/// A pair shares a stack where the host's field and the joiner's have its bit. Of hex (0),
/// top (1) and bottom (2) the lowest shared one is taken, but a downward drop that could go to
/// top or bottom goes to the bottom.
pub proof fn law_lowest_shared_stack(host: StackBits, joiner: StackBits, drop_dir: u8)
    ensures
        ({
            let r = matched_stack(host, joiner, drop_dir);
            let hex = has_stack(host.hosts, 0) && has_stack(joiner.joins, 0);
            let top = has_stack(host.hosts, 1) && has_stack(joiner.joins, 1);
            let bottom = has_stack(host.hosts, 2) && has_stack(joiner.joins, 2);
            &&& hex ==> r == Some(0u8)
            &&& !hex && top && (!bottom || drop_dir != 2) ==> r == Some(1u8)
            &&& !hex && bottom && (!top || drop_dir == 2) ==> r == Some(2u8)
            &&& !hex && !top && !bottom ==> r is None
        }),
{
    lemma_has_stack(host.hosts);
    lemma_has_stack(joiner.joins);
}

/// A dragged card that shares a stack with its target, as the joiner, joins it there; only where
/// it does not may the target join the dragged card.
pub proof fn law_dragged_card_joins_first(dragged: StackBits, target: StackBits, drop_dir: u8)
    ensures
        match matched_stack(target, dragged, drop_dir) {
            Some(stack) => resolved_drop(dragged, target, drop_dir) == Some(
                StackResolution { dragged_is_member: true, stack },
            ),
            None => match matched_stack(dragged, target, drop_dir) {
                Some(stack) => resolved_drop(dragged, target, drop_dir) == Some(
                    StackResolution { dragged_is_member: false, stack },
                ),
                None => resolved_drop(dragged, target, drop_dir) is None,
            },
        },
{
}

/// A definition without the aspect `stack_joins` has the bits of a regular card: it hosts
/// hex, top and bottom, and joins top and bottom. Any other joins what that aspect says, and hosts
/// what the aspect `stack_hosts` says, or nothing.
pub proof fn law_bits_by_aspect<B>(bundle: Bundle<B>, packed: u16)
    ensures
        ({
            let bits = declared_bits(bundle, packed);
            match defined_aspect(bundle, packed, "stack_joins"@) {
                None => bits.hosts == 7 && bits.joins == 6,
                Some(joins) => {
                    &&& bits.joins == joins as u8
                    &&& 0 <= joins < 256 ==> bits.joins == joins
                    &&& match defined_aspect(bundle, packed, "stack_hosts"@) {
                        Some(hosts) => bits.hosts == hosts as u8 && (0 <= hosts < 256 ==> bits.hosts
                            == hosts),
                        None => bits.hosts == 0,
                    }
                },
            }
        }),
{
}

} // verus!
