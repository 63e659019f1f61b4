//! The words in which placements and bindings are refused.

use vstd::prelude::*;
use crate::state::chain::Write;
use crate::state::recipe_state::BindError;
use crate::state::stack::{Pin, PlaceError, Plan};

verus! {

use crate::state::stack::answers;
use crate::text::decimal_text;

/// A card that cannot be moved is refused by its id: as missing, dead, another player's, or held,
/// and a held card that only travels along as a descendant.
pub proof fn law_words_about_a_moved_card(card: u32, owner: u32, caller: u32)
    ensures
        (PlaceError::NotFound { card }).text() == "place: card "@ + decimal_text(card as nat)
            + " not found"@,
        (PlaceError::Dead { card }).text() == "place: card "@ + decimal_text(card as nat)
            + " is dead"@,
        (PlaceError::ForeignCard { card, owner, caller }).text() == "place: card "@ + decimal_text(
            card as nat,
        ) + " is owned by player "@ + decimal_text(owner as nat) + " (not "@ + decimal_text(
            caller as nat,
        ) + ")"@,
        (PlaceError::Held { card, travels: false, pin: Pin::Claim }).text() == "place: card "@
            + decimal_text(card as nat) + " is exclusively held by an in-flight action"@,
        (PlaceError::Held { card, travels: false, pin: Pin::Borrow }).text() == "place: card "@
            + decimal_text(card as nat) + " is borrow-held by an in-flight action"@,
        (PlaceError::Held { card, travels: false, pin: Pin::Position }).text() == "place: card "@
            + decimal_text(card as nat) + " is position-held by an in-flight action"@,
        (PlaceError::Held { card, travels: true, pin: Pin::Claim }).text()
            == "place: descendant "@ + decimal_text(card as nat)
            + " is exclusively held by an in-flight action"@,
        (PlaceError::Held { card, travels: true, pin: Pin::Borrow }).text()
            == "place: descendant "@ + decimal_text(card as nat)
            + " is borrow-held by an in-flight action"@,
        (PlaceError::Held { card, travels: true, pin: Pin::Position }).text()
            == "place: descendant "@ + decimal_text(card as nat)
            + " is position-held by an in-flight action"@,
{
}

/// A place that cannot be taken is refused by what is in the way: the parent card, the direction, the
/// owner of the chain or container, the bits of the two cards, or the cell.
pub proof fn law_words_about_a_place(
    card: u32,
    parent: u32,
    owner: u32,
    caller: u32,
    zone: u64,
    direction: u8,
    q: u8,
    r: u8,
)
    ensures
        PlaceError::NoParent.text() == "place: Stack placement with parent_id == 0"@,
        (PlaceError::OntoItself { card }).text() == "place: card "@ + decimal_text(card as nat)
            + " can't stack onto itself"@,
        (PlaceError::BadDirection { direction }).text() == "place: invalid direction "@
            + decimal_text(direction as nat) + " (expected UP=1, DOWN=2, HEX=0)"@,
        (PlaceError::ParentNotFound { parent }).text() == "place: parent card "@ + decimal_text(
            parent as nat,
        ) + " not found"@,
        (PlaceError::ParentDead { parent }).text() == "place: parent card "@ + decimal_text(
            parent as nat,
        ) + " is dead"@,
        (PlaceError::ParentDropHeld { parent }).text() == "place: parent card "@ + decimal_text(
            parent as nat,
        ) + " blocks stacking (drop_hold_count > 0)"@,
        (PlaceError::Cycle { card, parent }).text()
            == "place: stacking would form a cycle (source "@ + decimal_text(card as nat)
            + " is the root of parent "@ + decimal_text(parent as nat) + "'s chain)"@,
        (PlaceError::ForeignChain { parent, owner, caller }).text() == "place: parent "@
            + decimal_text(parent as nat) + "'s chain is owned by player "@ + decimal_text(
            owner as nat,
        ) + " (not "@ + decimal_text(caller as nat) + ")"@,
        (PlaceError::NoOpenStack { card, parent }).text() == "place: card "@ + decimal_text(
            card as nat,
        ) + " can't stack onto "@ + decimal_text(parent as nat)
            + " — no stack it joins, and the inverse drop isn't available"@,
        (PlaceError::BadCell { q, r }).text() == "place: cell ("@ + decimal_text(q as nat) + ", "@
            + decimal_text(r as nat) + ") out of range (0..=7 each)"@,
        (PlaceError::ForeignContainer { zone, owner, caller }).text() == "place: container "@
            + decimal_text(zone as nat) + " (owner "@ + decimal_text(owner as nat)
            + ") not owned by caller "@ + decimal_text(caller as nat),
{
}

/// A binding is refused by the id of the card that cannot be bound, and why.
pub proof fn law_words_about_a_bound_card(id: u32)
    ensures
        BindError::RootNotFound(id).text() == "root card "@ + decimal_text(id as nat)
            + " not found"@,
        BindError::NotFound(id).text() == "card "@ + decimal_text(id as nat) + " not found"@,
        BindError::Repeated(id).text() == "card "@ + decimal_text(id as nat)
            + " appears more than once in bindings"@,
        BindError::Dead(id).text() == "card "@ + decimal_text(id as nat) + " unavailable: dead"@,
        BindError::Claimed(id).text() == "card "@ + decimal_text(id as nat)
            + " unavailable: exclusively held by another in-flight action"@,
        BindError::Borrowed(id).text() == "card "@ + decimal_text(id as nat)
            + " is borrow-held by another in-flight action; cannot claim"@,
        BindError::TouchedTooOften(id).text() == "card "@ + decimal_text(id as nat)
            + " has too many concurrent in-flight actions (cap 3)"@,
        BindError::DropHeld(id).text() == "card "@ + decimal_text(id as nat)
            + " blocks stacking (drop_hold_count > 0)"@,
{
}

/// A placement that goes through is answered by its rows in their order, one that does not by the
/// reason in words.
pub proof fn law_answer_for_a_placement(
    r: Result<Plan, String>,
    expected: Result<Seq<Write>, PlaceError>,
)
    ensures
        answers(r, expected) <==> match expected {
            Ok(rows) => r matches Ok(plan) && plan.writes@ == rows,
            Err(e) => r matches Err(text) && text@ == e.text(),
        },
{
}

} // verus!
