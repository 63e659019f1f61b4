//! Stack movement: "put this card at this position", stacked onto a parent (in a
//! branch direction) or loose at an explicit address, validated and resolved over
//! an abstract [`StackStore`], returning a [`Plan`] of row writes the caller
//! applies. No IO.
//!
//! Flat-chain model: a chain is one loose root plus members whose
//! `micro_location` points at the root, each carrying a `branch` and an `index`.
//! Stacking a card makes it (and its own members) members of the target's root.

use vstd::prelude::*;
use crate::codec::card_model::{drop_hold_count, hold_count, is_dead, stack_branch, stack_index, HoldField, Micro};
use crate::codec::packed::{
    owner_of, surface_of, with_surface, STACK_DIR_DOWN, STACK_DIR_HEX, STACK_DIR_UP,
};
use crate::codec::stacking::{match_stack, StackBits, STACK_BOTTOM, STACK_HEX, STACK_TOP};
use crate::state::chain::{chain_root_of, sort_cards, Order, StackStore, Write};
use crate::state::recipe_state::{owning_player, CardView, WORLD_PLAYER_ID};
use crate::state::splice::plan_splice;
use crate::text::decimal;

verus! {

use crate::codec::packed::{zone_owner, zone_surface, zone_with_surface};
use crate::codec::stacking::{matched_stack, picked_stack};
use crate::sequences::{lemma_filter_ends, lemma_filter_next};
use crate::state::chain::in_order;
use crate::state::recipe_state::{behaves_as, responsible_player};
use crate::state::splice::splice;
use crate::text::decimal_text;

/// Where a placement puts the source card.
#[derive(Debug, Clone, Copy, PartialEq, Eq, Structural)]
pub enum Placement {
    /// Stack the source as a member of `parent_id`'s chain in `direction`
    /// (`STACK_DIR_UP` / `DOWN` / `HEX`).
    Stack { parent_id: u32, direction: u8 },
    /// Place the source loose at an explicit address. `q` / `r` are the cell,
    /// `x` / `y` the within-cell offset.
    Loose { surface: u8, macro_zone: u64, q: u8, r: u8, x: i16, y: i16 },
}

/// The full set of writes a placement produces: the source, then its members
/// (re-rooted on a stack move, or just travelling on a loose move).
#[derive(Debug, Clone, PartialEq, Eq)]
pub struct Plan {
    pub writes: Vec<Write>,
}

/// The in-flight hold that pins a card.
#[derive(Clone, Copy, Debug, PartialEq, Eq, Structural)]
pub enum Pin {
    Claim,
    Borrow,
    Position,
}

/// Why a placement is refused.
#[derive(Clone, Copy, Debug, PartialEq, Eq, Structural)]
pub enum PlaceError {
    NotFound { card: u32 },
    Dead { card: u32 },
    ForeignCard { card: u32, owner: u32, caller: u32 },
    /// The source, or a card that travels with it, is held.
    Held { card: u32, travels: bool, pin: Pin },
    NoParent,
    OntoItself { card: u32 },
    BadDirection { direction: u8 },
    ParentNotFound { parent: u32 },
    ParentDead { parent: u32 },
    ParentDropHeld { parent: u32 },
    Cycle { card: u32, parent: u32 },
    ForeignChain { parent: u32, owner: u32, caller: u32 },
    NoOpenStack { card: u32, parent: u32 },
    BadCell { q: u8, r: u8 },
    ForeignContainer { zone: u64, owner: u32, caller: u32 },
}

impl PlaceError {
    /// The reason in words.
    pub open spec fn text(self) -> Seq<char> {
        match self {
            PlaceError::NotFound { card } => "place: card "@ + decimal_text(card as nat)
                + " not found"@,
            PlaceError::Dead { card } => "place: card "@ + decimal_text(card as nat) + " is dead"@,
            PlaceError::ForeignCard { card, owner, caller } => "place: card "@ + decimal_text(
                card as nat,
            ) + " is owned by player "@ + decimal_text(owner as nat) + " (not "@ + decimal_text(
                caller as nat,
            ) + ")"@,
            PlaceError::Held { card, travels, pin } => (if travels {
                "place: descendant "@
            } else {
                "place: card "@
            }) + decimal_text(card as nat) + match pin {
                Pin::Claim => " is exclusively held by an in-flight action"@,
                Pin::Borrow => " is borrow-held by an in-flight action"@,
                Pin::Position => " is position-held by an in-flight action"@,
            },
            PlaceError::NoParent => "place: Stack placement with parent_id == 0"@,
            PlaceError::OntoItself { card } => "place: card "@ + decimal_text(card as nat)
                + " can't stack onto itself"@,
            PlaceError::BadDirection { direction } => "place: invalid direction "@ + decimal_text(
                direction as nat,
            ) + " (expected UP=1, DOWN=2, HEX=0)"@,
            PlaceError::ParentNotFound { parent } => "place: parent card "@ + decimal_text(
                parent as nat,
            ) + " not found"@,
            PlaceError::ParentDead { parent } => "place: parent card "@ + decimal_text(
                parent as nat,
            ) + " is dead"@,
            PlaceError::ParentDropHeld { parent } => "place: parent card "@ + decimal_text(
                parent as nat,
            ) + " blocks stacking (drop_hold_count > 0)"@,
            PlaceError::Cycle { card, parent } => "place: stacking would form a cycle (source "@
                + decimal_text(card as nat) + " is the root of parent "@ + decimal_text(
                parent as nat,
            ) + "'s chain)"@,
            PlaceError::ForeignChain { parent, owner, caller } => "place: parent "@ + decimal_text(
                parent as nat,
            ) + "'s chain is owned by player "@ + decimal_text(owner as nat) + " (not "@
                + decimal_text(caller as nat) + ")"@,
            PlaceError::NoOpenStack { card, parent } => "place: card "@ + decimal_text(card as nat)
                + " can't stack onto "@ + decimal_text(parent as nat)
                + " — no stack it joins, and the inverse drop isn't available"@,
            PlaceError::BadCell { q, r } => "place: cell ("@ + decimal_text(q as nat) + ", "@
                + decimal_text(r as nat) + ") out of range (0..=7 each)"@,
            PlaceError::ForeignContainer { zone, owner, caller } => "place: container "@
                + decimal_text(zone as nat) + " (owner "@ + decimal_text(owner as nat)
                + ") not owned by caller "@ + decimal_text(caller as nat),
        }
    }

    /// The reason in words.
    pub fn message(self) -> (r: String)
        ensures
            r@ == self.text(),
    {
        match self {
            PlaceError::NotFound { card } => one_number("place: card ", card as u64, " not found"),
            PlaceError::Dead { card } => one_number("place: card ", card as u64, " is dead"),
            PlaceError::ForeignCard { card, owner, caller } => {
                let mut r = two_numbers(
                    "place: card ",
                    card as u64,
                    " is owned by player ",
                    owner as u64,
                    " (not ",
                );
                r.append(decimal(caller as u64).as_str());
                r.append(")");
                r
            },
            PlaceError::Held { card, travels, pin } => {
                let head = if travels {
                    "place: descendant "
                } else {
                    "place: card "
                };
                let tail = match pin {
                    Pin::Claim => " is exclusively held by an in-flight action",
                    Pin::Borrow => " is borrow-held by an in-flight action",
                    Pin::Position => " is position-held by an in-flight action",
                };
                one_number(head, card as u64, tail)
            },
            PlaceError::NoParent => "place: Stack placement with parent_id == 0".to_owned(),
            PlaceError::OntoItself { card } => one_number(
                "place: card ",
                card as u64,
                " can't stack onto itself",
            ),
            PlaceError::BadDirection { direction } => one_number(
                "place: invalid direction ",
                direction as u64,
                " (expected UP=1, DOWN=2, HEX=0)",
            ),
            PlaceError::ParentNotFound { parent } => one_number(
                "place: parent card ",
                parent as u64,
                " not found",
            ),
            PlaceError::ParentDead { parent } => one_number(
                "place: parent card ",
                parent as u64,
                " is dead",
            ),
            PlaceError::ParentDropHeld { parent } => one_number(
                "place: parent card ",
                parent as u64,
                " blocks stacking (drop_hold_count > 0)",
            ),
            PlaceError::Cycle { card, parent } => two_numbers(
                "place: stacking would form a cycle (source ",
                card as u64,
                " is the root of parent ",
                parent as u64,
                "'s chain)",
            ),
            PlaceError::ForeignChain { parent, owner, caller } => {
                let mut r = two_numbers(
                    "place: parent ",
                    parent as u64,
                    "'s chain is owned by player ",
                    owner as u64,
                    " (not ",
                );
                r.append(decimal(caller as u64).as_str());
                r.append(")");
                r
            },
            PlaceError::NoOpenStack { card, parent } => two_numbers(
                "place: card ",
                card as u64,
                " can't stack onto ",
                parent as u64,
                " — no stack it joins, and the inverse drop isn't available",
            ),
            PlaceError::BadCell { q, r } => two_numbers(
                "place: cell (",
                q as u64,
                ", ",
                r as u64,
                ") out of range (0..=7 each)",
            ),
            PlaceError::ForeignContainer { zone, owner, caller } => {
                let mut r = two_numbers(
                    "place: container ",
                    zone,
                    " (owner ",
                    owner as u64,
                    ") not owned by caller ",
                );
                r.append(decimal(caller as u64).as_str());
                r
            },
        }
    }
}

fn one_number(head: &str, n: u64, tail: &str) -> (r: String)
    ensures
        r@ == head@ + decimal_text(n as nat) + tail@,
{
    let mut r = head.to_owned();
    r.append(decimal(n).as_str());
    r.append(tail);
    r
}

fn two_numbers(head: &str, n: u64, middle: &str, m: u64, tail: &str) -> (r: String)
    ensures
        r@ == head@ + decimal_text(n as nat) + middle@ + decimal_text(m as nat) + tail@,
{
    let mut r = one_number(head, n, middle);
    r.append(decimal(m).as_str());
    r.append(tail);
    r
}

/// The first in-flight hold (claim, borrow, position) that pins a card, if any.
pub open spec fn held_fault(m: CardView, travels: bool) -> Option<PlaceError> {
    if m.held(HoldField::SlotClaim) {
        Some(PlaceError::Held { card: m.card_id, travels, pin: Pin::Claim })
    } else if m.held(HoldField::SlotBorrow) {
        Some(PlaceError::Held { card: m.card_id, travels, pin: Pin::Borrow })
    } else if m.held(HoldField::PositionHold) {
        Some(PlaceError::Held { card: m.card_id, travels, pin: Pin::Position })
    } else {
        None
    }
}

/// Reject if `view` is held by an in-flight action (claim / borrow / position).
fn held_check(view: &CardView, travels: bool) -> (r: Result<(), PlaceError>)
    ensures
        match held_fault(*view, travels) {
            Some(e) => r == Err::<(), PlaceError>(e),
            None => r is Ok,
        },
{
    if hold_count(view.flags, HoldField::SlotClaim) > 0 {
        return Err(PlaceError::Held { card: view.card_id, travels, pin: Pin::Claim });
    }
    if hold_count(view.flags, HoldField::SlotBorrow) > 0 {
        return Err(PlaceError::Held { card: view.card_id, travels, pin: Pin::Borrow });
    }
    if hold_count(view.flags, HoldField::PositionHold) > 0 {
        return Err(PlaceError::Held { card: view.card_id, travels, pin: Pin::Position });
    }
    Ok(())
}

/// The hold on the first pinned card among those that travel, if any.
pub open spec fn travelers_fault(travelers: Seq<CardView>) -> Option<PlaceError>
    decreases travelers.len(),
{
    if travelers.len() == 0 {
        None
    } else {
        match held_fault(travelers.first(), true) {
            Some(e) => Some(e),
            None => travelers_fault(travelers.drop_first()),
        }
    }
}

fn travelers_check(travelers: &Vec<CardView>) -> (r: Result<(), PlaceError>)
    ensures
        match travelers_fault(travelers@) {
            Some(e) => r == Err::<(), PlaceError>(e),
            None => r is Ok,
        },
{
    let mut i: usize = 0;
    assert(travelers@.skip(0) =~= travelers@);
    while i < travelers.len()
        invariant
            i <= travelers.len(),
            travelers_fault(travelers@) == travelers_fault(travelers@.skip(i as int)),
        decreases travelers.len() - i,
    {
        assert(travelers@.skip(i as int).drop_first() =~= travelers@.skip(i + 1));
        held_check(&travelers[i], true)?;
        i += 1;
    }
    Ok(())
}

/// Whether a member stands outward of slot `index` in `branch`.
pub open spec fn outward(m: CardView, branch: u8, index: u8) -> bool {
    m.branch() == branch && !m.dead() && m.index() > index
}

/// The leading cards of `ordered` that fill slots `slot`, `slot + 1`, .. without a
/// gap and without a position hold.
pub open spec fn unbroken_run(ordered: Seq<CardView>, slot: int) -> Seq<CardView>
    decreases ordered.len(),
{
    if ordered.len() > 0 && ordered.first().index() == slot && !ordered.first().held(
        HoldField::PositionHold,
    ) {
        seq![ordered.first()] + unbroken_run(ordered.drop_first(), slot + 1)
    } else {
        Seq::empty()
    }
}

/// The cards outward of slot `index` in a branch of a chain, by slot.
pub open spec fn outward_cards<S: StackStore>(
    store: &S,
    root: u32,
    branch: u8,
    index: u8,
    now_ms: u64,
) -> Seq<CardView> {
    in_order(
        store.members(root, now_ms).filter(|m: CardView| outward(m, branch, index)),
        Order::Index,
    )
}

/// The cards a drag of `source` off its chain carries along.
pub open spec fn carried<S: StackStore>(store: &S, source: CardView, now_ms: u64) -> Seq<CardView> {
    match source.micro() {
        Micro::Stacked { root, branch, index } => unbroken_run(
            outward_cards(store, root, branch, index, now_ms),
            index + 1,
        ),
        Micro::Loose { .. } => Seq::empty(),
    }
}

/// The drag-carry run for a loose move of stack member `source`: the cards stacked
/// outward from it (same branch, higher index), contiguous from its index + 1,
/// stopping before the first position-held card. That card and everything above it
/// stay on the old root. Empty if `source` is loose. Ascending by index.
fn carried_run<S: StackStore>(store: &S, source: &CardView, now_ms: u64) -> (r: Vec<CardView>)
    ensures
        r@ == carried(store, *source, now_ms),
{
    let mut run: Vec<CardView> = Vec::new();
    match Micro::of(source.micro_location, source.flags) {
        Micro::Stacked { root, branch, index: source_index } => {
            let members = store.members_of(root, now_ms);
            let ghost pred = |m: CardView| outward(m, branch, source_index);
            let mut siblings: Vec<CardView> = Vec::new();
            let mut i: usize = 0;
            proof {
                lemma_filter_ends(members@, pred);
            }
            while i < members.len()
                invariant
                    i <= members.len(),
                    pred == (|m: CardView| outward(m, branch, source_index)),
                    siblings@ == members@.take(i as int).filter(pred),
                decreases members.len() - i,
            {
                let m = members[i];
                proof {
                    lemma_filter_next(members@, pred, i as int);
                }
                if stack_branch(m.flags) == branch && !is_dead(m.flags) && stack_index(m.flags)
                    > source_index {
                    siblings.push(m);
                }
                i += 1;
            }
            let ordered = sort_cards(&siblings, Order::Index);
            let mut expected: u32 = source_index as u32 + 1;
            let mut k: usize = 0;
            assert(ordered@.skip(0) =~= ordered@);
            assert(run@ + unbroken_run(ordered@, expected as int) =~= unbroken_run(
                ordered@,
                expected as int,
            ));
            while k < ordered.len()
                invariant
                    k <= ordered.len(),
                    expected <= 256,
                    carried(store, *source, now_ms) == unbroken_run(ordered@, source_index + 1),
                    run@ + unbroken_run(ordered@.skip(k as int), expected as int) == unbroken_run(
                        ordered@,
                        source_index + 1,
                    ),
                decreases ordered.len() - k,
            {
                let m = ordered[k];
                let ghost rest = ordered@.skip(k as int);
                assert(rest.first() == m);
                assert(rest.drop_first() =~= ordered@.skip(k + 1));
                if stack_index(m.flags) as u32 != expected || hold_count(
                    m.flags,
                    HoldField::PositionHold,
                ) > 0 {
                    // a gap, or a card that can't be carried, ends the run
                    assert(run@ + Seq::<CardView>::empty() =~= run@);
                    return run;
                }
                proof {
                    assert(run@ + (seq![m] + unbroken_run(rest.drop_first(), expected + 1))
                        =~= run@.push(m) + unbroken_run(rest.drop_first(), expected + 1));
                }
                run.push(m);
                expected += 1;
                k += 1;
            }
            assert(run@ + Seq::<CardView>::empty() =~= run@);
        },
        Micro::Loose { .. } => {},
    }
    run
}

/// The member with the highest slot, the last of them where several share it.
pub open spec fn topmost(members: Seq<CardView>) -> Option<CardView>
    decreases members.len(),
{
    if members.len() == 0 {
        None
    } else {
        match topmost(members.drop_last()) {
            None => Some(members.last()),
            Some(best) => if members.last().index() >= best.index() {
                Some(members.last())
            } else {
                Some(best)
            },
        }
    }
}

/// The members a branch of a chain has in a zone.
pub open spec fn branch_in_zone<S: StackStore>(
    store: &S,
    root: u32,
    macro_zone: u64,
    branch: u8,
    now_ms: u64,
) -> Seq<CardView> {
    store.members(root, now_ms).filter(
        |m: CardView| m.macro_zone == macro_zone && m.branch() == branch,
    )
}

/// The next free slot of a branch: one past the highest occupied, at most 15, and
/// 0 in an empty branch.
pub open spec fn next_index<S: StackStore>(
    store: &S,
    root: u32,
    macro_zone: u64,
    branch: u8,
    now_ms: u64,
) -> u8 {
    match topmost(branch_in_zone(store, root, macro_zone, branch, now_ms)) {
        None => 0,
        Some(m) => if m.index() >= 15 {
            15
        } else {
            (m.index() + 1) as u8
        },
    }
}

/// Next free `index` in `(root, direction)` at `macro_zone`: `max occupied + 1`
/// (saturating at 15), or 0 when the branch is empty. Gap-tolerant.
fn next_branch_index<S: StackStore>(
    store: &S,
    root: u32,
    macro_zone: u64,
    direction: u8,
    now_ms: u64,
) -> (r: u8)
    ensures
        r == next_index(store, root, macro_zone, direction, now_ms),
{
    let members = store.members_of(root, now_ms);
    let ghost pred = |m: CardView| m.macro_zone == macro_zone && m.branch() == direction;
    let mut best: Option<CardView> = None;
    let mut i: usize = 0;
    proof {
        lemma_filter_ends(members@, pred);
    }
    while i < members.len()
        invariant
            i <= members.len(),
            pred == (|m: CardView| m.macro_zone == macro_zone && m.branch() == direction),
            best == topmost(members@.take(i as int).filter(pred)),
        decreases members.len() - i,
    {
        let m = members[i];
        proof {
            lemma_filter_next(members@, pred, i as int);
            let before = members@.take(i as int).filter(pred);
            assert(before.push(m).drop_last() =~= before);
        }
        if m.macro_zone == macro_zone && stack_branch(m.flags) == direction {
            best = higher(best, m);
        }
        i += 1;
    }
    match best {
        Some(m) => {
            let index: u8 = stack_index(m.flags);
            if index >= 15 {
                15
            } else {
                index + 1
            }
        },
        None => 0,
    }
}

/// Of the topmost member so far and the next one, the topmost.
fn higher(best: Option<CardView>, m: CardView) -> (r: Option<CardView>)
    ensures
        r == match best {
            None => Some(m),
            Some(b) => if m.index() >= b.index() {
                Some(m)
            } else {
                Some(b)
            },
        },
{
    match best {
        None => Some(m),
        Some(b) => if stack_index(m.flags) >= stack_index(b.flags) {
            Some(m)
        } else {
            Some(b)
        },
    }
}

/// The leaf of a branch in a zone: its topmost live member.
pub open spec fn leaf<S: StackStore>(
    store: &S,
    root: u32,
    macro_zone: u64,
    branch: u8,
    now_ms: u64,
) -> Option<CardView> {
    topmost(
        store.members(root, now_ms).filter(
            |m: CardView| m.macro_zone == macro_zone && m.branch() == branch && !m.dead(),
        ),
    )
}

/// The topmost live member of a branch in a zone.
fn find_leaf<S: StackStore>(store: &S, root: u32, macro_zone: u64, branch: u8, now_ms: u64) -> (r:
    Option<CardView>)
    ensures
        r == leaf(store, root, macro_zone, branch, now_ms),
{
    let members = store.members_of(root, now_ms);
    let ghost pred = |m: CardView|
        m.macro_zone == macro_zone && m.branch() == branch && !m.dead();
    let mut best: Option<CardView> = None;
    let mut i: usize = 0;
    proof {
        lemma_filter_ends(members@, pred);
    }
    while i < members.len()
        invariant
            i <= members.len(),
            pred == (|m: CardView|
                m.macro_zone == macro_zone && m.branch() == branch && !m.dead()),
            best == topmost(members@.take(i as int).filter(pred)),
        decreases members.len() - i,
    {
        let m = members[i];
        proof {
            lemma_filter_next(members@, pred, i as int);
            let before = members@.take(i as int).filter(pred);
            assert(before.push(m).drop_last() =~= before);
        }
        if m.macro_zone == macro_zone && stack_branch(m.flags) == branch && !is_dead(m.flags) {
            best = higher(best, m);
        }
        i += 1;
    }
    best
}

/// Whether `joiner` can extend `stack` on a chain: it joins that stack, and the
/// branch's leaf (the root itself when the branch is empty) hosts it.
pub open spec fn stack_open<S: StackStore>(
    store: &S,
    root_id: u32,
    root_zone: u64,
    root_bits: StackBits,
    joiner: StackBits,
    stack: u8,
    now_ms: u64,
    bits: spec_fn(u16) -> StackBits,
) -> bool {
    &&& joiner.joining(stack)
    &&& (match leaf(store, root_id, root_zone, (stack - 1) as u8, now_ms) {
        Some(m) => bits(m.packed_definition),
        None => root_bits,
    }).hosting(stack)
}

/// The stack and slot `joiner` extends a chain at, if any.
pub open spec fn opened<S: StackStore>(
    store: &S,
    root_id: u32,
    root_zone: u64,
    root_bits: StackBits,
    joiner: StackBits,
    direction: u8,
    now_ms: u64,
    bits: spec_fn(u16) -> StackBits,
) -> Option<(u8, u8)> {
    match picked_stack(
        stack_open(store, root_id, root_zone, root_bits, joiner, STACK_HEX, now_ms, bits),
        stack_open(store, root_id, root_zone, root_bits, joiner, STACK_TOP, now_ms, bits),
        stack_open(store, root_id, root_zone, root_bits, joiner, STACK_BOTTOM, now_ms, bits),
        direction,
    ) {
        Some(stack) => Some(
            (stack, next_index(store, root_id, root_zone, (stack - 1) as u8, now_ms)),
        ),
        None => None,
    }
}

#[inline]
fn stack_bit(stack: u8) -> (r: u8)
    requires
        stack < 8,
    ensures
        r == 1u8 << stack,
{
    1 << stack
}

/// Whether `joiner` can extend `stack` on a chain.
fn is_open<S: StackStore, B: Fn(u16) -> StackBits>(
    store: &S,
    root_id: u32,
    root_zone: u64,
    root_bits: StackBits,
    joiner: StackBits,
    stack: u8,
    now_ms: u64,
    bits: &B,
) -> (r: bool)
    requires
        1 <= stack < 8,
        forall|p: u16| call_requires(*bits, (p,)),
    ensures
        forall|model: spec_fn(u16) -> StackBits| #[trigger]
            behaves_as(*bits, model) ==> r == stack_open(
                store,
                root_id,
                root_zone,
                root_bits,
                joiner,
                stack,
                now_ms,
                model,
            ),
{
    if joiner.joins & stack_bit(stack) == 0 {
        return false;
    }
    let host = match find_leaf(store, root_id, root_zone, stack - 1, now_ms) {
        Some(m) => (*bits)(m.packed_definition),
        None => root_bits,
    };
    host.hosts & stack_bit(stack) != 0
}

/// The lowest stack a `joiner` can extend on `root`'s chain, with the next free
/// index in that branch. A stack is extendable when the joiner joins it and the
/// branch's current leaf (the highest-index live member, or the root itself when
/// the branch is empty) hosts it. Hex wins over top/bottom; a top+bottom tie breaks
/// on `direction`. `None` if no stack is open.
fn open_stack<S: StackStore, B: Fn(u16) -> StackBits>(
    store: &S,
    root_id: u32,
    root_zone: u64,
    root_bits: StackBits,
    joiner: StackBits,
    direction: u8,
    now_ms: u64,
    bits: &B,
) -> (r: Option<(u8, u8)>)
    requires
        forall|p: u16| call_requires(*bits, (p,)),
    ensures
        forall|model: spec_fn(u16) -> StackBits| #[trigger]
            behaves_as(*bits, model) ==> r == opened(
                store,
                root_id,
                root_zone,
                root_bits,
                joiner,
                direction,
                now_ms,
                model,
            ),
        r matches Some(at) ==> STACK_HEX <= at.0 <= STACK_BOTTOM,
{
    let stack: u8 = if is_open(
        store,
        root_id,
        root_zone,
        root_bits,
        joiner,
        STACK_HEX,
        now_ms,
        bits,
    ) {
        STACK_HEX
    } else {
        let top = is_open(store, root_id, root_zone, root_bits, joiner, STACK_TOP, now_ms, bits);
        let bottom = is_open(
            store,
            root_id,
            root_zone,
            root_bits,
            joiner,
            STACK_BOTTOM,
            now_ms,
            bits,
        );
        match (top, bottom) {
            (true, true) => if direction == STACK_DIR_DOWN {
                STACK_BOTTOM
            } else {
                STACK_TOP
            },
            (true, false) => STACK_TOP,
            (false, true) => STACK_BOTTOM,
            (false, false) => {
                return None;
            },
        }
    };
    Some((stack, next_branch_index(store, root_id, root_zone, stack - 1, now_ms)))
}

/// The outcome of resolving a placement.
#[derive(Clone, Copy, Debug, PartialEq, Eq, Structural)]
pub enum Resolved {
    /// Place the source (and what travels with it) at this address: a forward
    /// stack onto a parent, a member-drop, or a loose move.
    Place { surface: u8, macro_zone: u64, micro: Micro },
    /// The drop inverted: the `parent` re-roots onto the (stationary) source. The
    /// source stays the chain root; only the parent is written.
    Invert { parent_id: u32, macro_zone: u64, micro: Micro },
}

/// The player a card counts as owned by: the world where its owner chain breaks.
pub open spec fn owner_or_world<S: StackStore>(store: &S, card_id: u32, now_ms: u64) -> u32 {
    match responsible_player(store, card_id, now_ms) {
        Some(p) => p,
        None => WORLD_PLAYER_ID,
    }
}

fn owner_or_world_of<S: StackStore>(store: &S, card_id: u32, now_ms: u64) -> (r: u32)
    ensures
        r == owner_or_world(store, card_id, now_ms),
{
    match owning_player(store, card_id, now_ms) {
        Some(p) => p,
        None => WORLD_PLAYER_ID,
    }
}

/// What keeps a card from being stacked onto a parent before their bits are
/// looked at, if anything.
pub open spec fn parent_fault<S: StackStore>(
    store: &S,
    source_id: u32,
    parent_id: u32,
    direction: u8,
    caller: u32,
    now_ms: u64,
) -> Option<PlaceError> {
    if parent_id == 0 {
        Some(PlaceError::NoParent)
    } else if parent_id == source_id {
        Some(PlaceError::OntoItself { card: source_id })
    } else if direction != STACK_DIR_UP && direction != STACK_DIR_DOWN && direction
        != STACK_DIR_HEX {
        Some(PlaceError::BadDirection { direction })
    } else {
        match store.card(parent_id, now_ms) {
            None => Some(PlaceError::ParentNotFound { parent: parent_id }),
            Some(parent) => {
                let owner = owner_or_world(store, parent.chain_root(), now_ms);
                if parent.dead() {
                    Some(PlaceError::ParentDead { parent: parent_id })
                } else if parent.held(HoldField::DropHold) {
                    Some(PlaceError::ParentDropHeld { parent: parent_id })
                } else if parent.chain_root() == source_id {
                    Some(PlaceError::Cycle { card: source_id, parent: parent_id })
                } else if owner != WORLD_PLAYER_ID && owner != caller {
                    Some(PlaceError::ForeignChain { parent: parent_id, owner, caller })
                } else {
                    None
                }
            },
        }
    }
}

/// Where dropping `source` onto `parent` leads, once nothing else forbids it.
pub open spec fn dropped<S: StackStore>(
    store: &S,
    source_id: u32,
    source: CardView,
    parent_id: u32,
    parent: CardView,
    direction: u8,
    now_ms: u64,
    bits: spec_fn(u16) -> StackBits,
) -> Option<Resolved> {
    let source_bits = bits(source.packed_definition);
    let parent_bits = bits(parent.packed_definition);
    let parent_root = parent.chain_root();
    if parent_root == parent_id {
        match opened(
            store,
            parent_id,
            parent.macro_zone,
            parent_bits,
            source_bits,
            direction,
            now_ms,
            bits,
        ) {
            Some((stack, index)) => Some(
                Resolved::Place {
                    surface: zone_surface(parent.macro_zone),
                    macro_zone: parent.macro_zone,
                    micro: Micro::Stacked { root: parent_id, branch: (stack - 1) as u8, index },
                },
            ),
            None => if store.members(parent_id, now_ms).len() == 0 && source.chain_root()
                == source_id {
                match opened(
                    store,
                    source_id,
                    source.macro_zone,
                    source_bits,
                    parent_bits,
                    direction,
                    now_ms,
                    bits,
                ) {
                    Some((stack, index)) => Some(
                        Resolved::Invert {
                            parent_id,
                            macro_zone: source.macro_zone,
                            micro: Micro::Stacked {
                                root: source_id,
                                branch: (stack - 1) as u8,
                                index,
                            },
                        },
                    ),
                    None => None,
                }
            } else {
                None
            },
        }
    } else {
        match matched_stack(parent_bits, source_bits, direction) {
            Some(stack) => Some(
                Resolved::Place {
                    surface: zone_surface(parent.macro_zone),
                    macro_zone: parent.macro_zone,
                    micro: Micro::Stacked {
                        root: parent_root,
                        branch: (stack - 1) as u8,
                        index: next_index(
                            store,
                            parent_root,
                            parent.macro_zone,
                            (stack - 1) as u8,
                            now_ms,
                        ),
                    },
                },
            ),
            None => None,
        }
    }
}

/// The outcome of a stack placement.
pub open spec fn stack_resolution<S: StackStore>(
    store: &S,
    source_id: u32,
    source: CardView,
    parent_id: u32,
    direction: u8,
    caller: u32,
    now_ms: u64,
    bits: spec_fn(u16) -> StackBits,
) -> Result<Resolved, PlaceError> {
    match parent_fault(store, source_id, parent_id, direction, caller, now_ms) {
        Some(e) => Err(e),
        None => match dropped(
            store,
            source_id,
            source,
            parent_id,
            store.card(parent_id, now_ms)->0,
            direction,
            now_ms,
            bits,
        ) {
            Some(resolved) => Ok(resolved),
            None => Err(PlaceError::NoOpenStack { card: source_id, parent: parent_id }),
        },
    }
}

/// Resolve a [`Placement::Stack`] drop of `source` onto `parent`. Three outcomes:
///
/// * forward: the source joins the parent's chain. When `parent` is a chain root,
///   the source extends the lowest branch whose leaf hosts it. When `parent` is a
///   member, the drop targets that card directly, on its own host bits.
/// * invert: forward found nothing, but the parent is a lone root whose join the
///   source can host: the parent re-roots onto the source. Disallowed when the
///   parent is a member or carries members, and when the source is a member.
/// * reject: neither direction stacks.
fn resolve_stack<S: StackStore, B: Fn(u16) -> StackBits>(
    store: &S,
    source_id: u32,
    source: &CardView,
    parent_id: u32,
    direction: u8,
    caller_player_id: u32,
    now_ms: u64,
    bits: &B,
) -> (r: Result<Resolved, PlaceError>)
    requires
        forall|p: u16| call_requires(*bits, (p,)),
    ensures
        forall|model: spec_fn(u16) -> StackBits| #[trigger]
            behaves_as(*bits, model) ==> r == stack_resolution(
                store,
                source_id,
                *source,
                parent_id,
                direction,
                caller_player_id,
                now_ms,
                model,
            ),
        parent_fault(store, source_id, parent_id, direction, caller_player_id, now_ms) matches Some(
            e,
        ) ==> r == Err::<Resolved, PlaceError>(e),
{
    if parent_id == 0 {
        return Err(PlaceError::NoParent);
    }
    if parent_id == source_id {
        return Err(PlaceError::OntoItself { card: source_id });
    }
    if !matches!(direction, STACK_DIR_UP | STACK_DIR_DOWN | STACK_DIR_HEX) {
        return Err(PlaceError::BadDirection { direction });
    }
    let parent = match store.card_at(parent_id, now_ms) {
        Some(parent) => parent,
        None => {
            return Err(PlaceError::ParentNotFound { parent: parent_id });
        },
    };
    if is_dead(parent.flags) {
        return Err(PlaceError::ParentDead { parent: parent_id });
    }
    if drop_hold_count(parent.flags) > 0 {
        return Err(PlaceError::ParentDropHeld { parent: parent_id });
    }
    let parent_root: u32 = chain_root_of(&parent);
    if parent_root == source_id {
        return Err(PlaceError::Cycle { card: source_id, parent: parent_id });
    }
    let owner: u32 = owner_or_world_of(store, parent_root, now_ms);
    if owner != WORLD_PLAYER_ID && owner != caller_player_id {
        return Err(
            PlaceError::ForeignChain { parent: parent_id, owner, caller: caller_player_id },
        );
    }
    let source_bits = (*bits)(source.packed_definition);
    let parent_bits = (*bits)(parent.packed_definition);
    if parent_root == parent_id {
        // Parent is a root: leaf-aware branch scan over its chain.
        if let Some((stack, index)) = open_stack(
            store,
            parent_id,
            parent.macro_zone,
            parent_bits,
            source_bits,
            direction,
            now_ms,
            bits,
        ) {
            return Ok(
                Resolved::Place {
                    surface: surface_of(parent.macro_zone),
                    macro_zone: parent.macro_zone,
                    micro: Micro::Stacked { root: parent_id, branch: stack - 1, index },
                },
            );
        }
        // Invert: the parent (a lone root) re-roots onto the source, which must
        // itself be a root to become the combined chain's root.
        if store.members_of(parent_id, now_ms).len() == 0 && chain_root_of(source) == source_id {
            if let Some((stack, index)) = open_stack(
                store,
                source_id,
                source.macro_zone,
                source_bits,
                parent_bits,
                direction,
                now_ms,
                bits,
            ) {
                return Ok(
                    Resolved::Invert {
                        parent_id,
                        macro_zone: source.macro_zone,
                        micro: Micro::Stacked { root: source_id, branch: stack - 1, index },
                    },
                );
            }
        }
    } else if let Some(stack) = match_stack(parent_bits, source_bits, direction) {
        // Parent is a member: target that card directly; append at the next index
        // of that branch on the chain root. No invert.
        let branch: u8 = stack - 1;
        let index: u8 = next_branch_index(store, parent_root, parent.macro_zone, branch, now_ms);
        return Ok(
            Resolved::Place {
                surface: surface_of(parent.macro_zone),
                macro_zone: parent.macro_zone,
                micro: Micro::Stacked { root: parent_root, branch, index },
            },
        );
    }
    Err(PlaceError::NoOpenStack { card: source_id, parent: parent_id })
}

/// The outcome of a loose placement: the cell must be in range, and a container
/// (a zone whose owner band names a card) must be the caller's.
pub open spec fn loose_resolution<S: StackStore>(
    store: &S,
    caller: u32,
    surface: u8,
    macro_zone: u64,
    q: u8,
    r: u8,
    x: i16,
    y: i16,
    now_ms: u64,
) -> Result<Resolved, PlaceError> {
    let owner = zone_owner(macro_zone);
    if q >= 8 || r >= 8 {
        Err(PlaceError::BadCell { q, r })
    } else if owner != 0 && owner_or_world(store, owner, now_ms) != caller {
        Err(PlaceError::ForeignContainer { zone: macro_zone, owner, caller })
    } else {
        Ok(
            Resolved::Place {
                surface,
                macro_zone,
                micro: Micro::Loose { local_q: q, local_r: r, x, y },
            },
        )
    }
}

/// Resolve a [`Placement::Loose`]. A container target must be owned by the caller;
/// the world (owner 0) is open. The `(x, y)` offset rides through.
fn resolve_loose<S: StackStore>(
    store: &S,
    caller_player_id: u32,
    surface: u8,
    macro_zone: u64,
    q: u8,
    r: u8,
    x: i16,
    y: i16,
    now_ms: u64,
) -> (res: Result<Resolved, PlaceError>)
    ensures
        res == loose_resolution(
            store,
            caller_player_id,
            surface,
            macro_zone,
            q,
            r,
            x,
            y,
            now_ms,
        ),
{
    if q >= 8 || r >= 8 {
        return Err(PlaceError::BadCell { q, r });
    }
    let owner: u32 = owner_of(macro_zone);
    if owner != 0 && owner_or_world_of(store, owner, now_ms) != caller_player_id {
        return Err(
            PlaceError::ForeignContainer { zone: macro_zone, owner, caller: caller_player_id },
        );
    }
    Ok(
        Resolved::Place {
            surface,
            macro_zone,
            micro: Micro::Loose { local_q: q, local_r: r, x, y },
        },
    )
}

/// Whether a placement drags a stack member off its chain, together with the cards
/// outward from it.
pub open spec fn drags_off(source: CardView, placement: Placement) -> bool {
    source.micro() is Stacked && placement is Loose
}

/// The cards that travel with the source: the outward run on a drag off its chain,
/// else the source's own members.
pub open spec fn travelers<S: StackStore>(
    store: &S,
    card_id: u32,
    source: CardView,
    placement: Placement,
    now_ms: u64,
) -> Seq<CardView> {
    if drags_off(source, placement) {
        carried(store, source, now_ms)
    } else {
        store.members(card_id, now_ms)
    }
}

/// The row that puts the `slot`-th card of a carried run onto its new root.
pub open spec fn carried_write(m: CardView, root: u32, macro_zone: u64, slot: int) -> Write {
    Write {
        card_id: m.card_id,
        macro_zone,
        micro: Micro::Stacked { root, branch: m.branch(), index: slot as u8 },
    }
}

/// The row of a member that travels with its root: it follows the root into a
/// stack, keeping its branch and index, or keeps its place on a loose root.
pub open spec fn followed_write(m: CardView, macro_zone: u64, to: Micro) -> Write {
    Write {
        card_id: m.card_id,
        macro_zone,
        micro: match to {
            Micro::Stacked { root: new_root, .. } => match m.micro() {
                Micro::Stacked { branch, index, .. } => Micro::Stacked {
                    root: new_root,
                    branch,
                    index,
                },
                Micro::Loose { .. } => m.micro(),
            },
            Micro::Loose { .. } => m.micro(),
        },
    }
}

/// The rows of the cards that travel with `card_id` to its new place.
pub open spec fn travel_writes(
    cards: Seq<CardView>,
    carrying: bool,
    card_id: u32,
    macro_zone: u64,
    to: Micro,
) -> Seq<Write> {
    Seq::new(
        cards.len(),
        |k: int|
            if carrying {
                carried_write(cards[k], card_id, macro_zone, k)
            } else {
                followed_write(cards[k], macro_zone, to)
            },
    )
}

/// The ids of the source and of the cards it drags off their chain.
pub open spec fn departed(card_id: u32, cards: Seq<CardView>) -> Seq<u32> {
    seq![card_id] + cards.map_values(|m: CardView| m.card_id)
}

/// What keeps a card from being moved at all, if anything.
pub open spec fn source_fault<S: StackStore>(
    store: &S,
    card_id: u32,
    placement: Placement,
    caller: u32,
    now_ms: u64,
) -> Option<PlaceError> {
    match store.card(card_id, now_ms) {
        None => Some(PlaceError::NotFound { card: card_id }),
        Some(source) => {
            let owner = owner_or_world(store, card_id, now_ms);
            if source.dead() {
                Some(PlaceError::Dead { card: card_id })
            } else if owner != caller {
                Some(PlaceError::ForeignCard { card: card_id, owner, caller })
            } else {
                match held_fault(source, false) {
                    Some(e) => Some(e),
                    None => travelers_fault(travelers(store, card_id, source, placement, now_ms)),
                }
            }
        },
    }
}

/// The outcome of resolving a placement.
pub open spec fn resolution<S: StackStore>(
    store: &S,
    card_id: u32,
    source: CardView,
    placement: Placement,
    caller: u32,
    now_ms: u64,
    bits: spec_fn(u16) -> StackBits,
) -> Result<Resolved, PlaceError> {
    match placement {
        Placement::Stack { parent_id, direction } => stack_resolution(
            store,
            card_id,
            source,
            parent_id,
            direction,
            caller,
            now_ms,
            bits,
        ),
        Placement::Loose { surface, macro_zone, q, r, x, y } => loose_resolution(
            store,
            caller,
            surface,
            macro_zone,
            q,
            r,
            x,
            y,
            now_ms,
        ),
    }
}

/// The rows a resolved placement writes.
pub open spec fn resolved_writes<S: StackStore>(
    store: &S,
    card_id: u32,
    source: CardView,
    placement: Placement,
    resolved: Resolved,
    now_ms: u64,
) -> Seq<Write> {
    let carrying = drags_off(source, placement);
    let cards = travelers(store, card_id, source, placement, now_ms);
    let moved = match resolved {
        Resolved::Place { surface, macro_zone, micro } => {
            let zone = zone_with_surface(macro_zone, surface);
            seq![Write { card_id, macro_zone: zone, micro }] + travel_writes(
                cards,
                carrying,
                card_id,
                zone,
                micro,
            )
        },
        Resolved::Invert { parent_id, macro_zone, micro } => seq![
            Write { card_id: parent_id, macro_zone, micro },
        ],
    };
    if carrying {
        moved + splice(store, departed(card_id, cards), now_ms)
    } else {
        moved
    }
}

/// The rows a placement writes, or why it is refused.
pub open spec fn placed<S: StackStore>(
    store: &S,
    card_id: u32,
    placement: Placement,
    caller: u32,
    now_ms: u64,
    bits: spec_fn(u16) -> StackBits,
) -> Result<Seq<Write>, PlaceError> {
    match source_fault(store, card_id, placement, caller, now_ms) {
        Some(e) => Err(e),
        None => {
            let source = store.card(card_id, now_ms)->0;
            match resolution(store, card_id, source, placement, caller, now_ms, bits) {
                Err(e) => Err(e),
                Ok(resolved) => Ok(
                    resolved_writes(store, card_id, source, placement, resolved, now_ms),
                ),
            }
        },
    }
}

/// Whether a call's result is a given plan or refusal.
pub open spec fn answers(r: Result<Plan, String>, expected: Result<Seq<Write>, PlaceError>) -> bool {
    match expected {
        Ok(writes) => r matches Ok(plan) && plan.writes@ == writes,
        Err(e) => r matches Err(text) && text@ == e.text(),
    }
}

/// Validate + resolve a placement of `card_id` by `caller_player_id`, returning the
/// [`Plan`] to apply, or an `Err` describing why it's rejected. Pure over `store`;
/// the caller does the actual row writes.
///
/// `bits` resolves a card's stacking bit-fields from its `packed_definition`.
pub fn plan_place<S: StackStore, B: Fn(u16) -> StackBits>(
    store: &S,
    card_id: u32,
    placement: Placement,
    caller_player_id: u32,
    now_ms: u64,
    bits: &B,
) -> (r: Result<Plan, String>)
    requires
        forall|p: u16| call_requires(*bits, (p,)),
    ensures
        forall|model: spec_fn(u16) -> StackBits|
            #![trigger behaves_as(*bits, model)]
            #![trigger placed(store, card_id, placement, caller_player_id, now_ms, model)]
            behaves_as(*bits, model) || placement is Loose ==> answers(
                r,
                placed(store, card_id, placement, caller_player_id, now_ms, model),
            ),
        source_fault(store, card_id, placement, caller_player_id, now_ms) matches Some(e) ==> (
        r matches Err(text) && text@ == e.text()),
        placement matches Placement::Stack { parent_id, direction } ==> source_fault(
            store,
            card_id,
            placement,
            caller_player_id,
            now_ms,
        ) is None ==> (parent_fault(
            store,
            card_id,
            parent_id,
            direction,
            caller_player_id,
            now_ms,
        ) matches Some(e) ==> (r matches Err(text) && text@ == e.text())),
{
    match plan_writes(store, card_id, placement, caller_player_id, now_ms, bits) {
        Ok(writes) => Ok(Plan { writes }),
        Err(e) => Err(e.message()),
    }
}

/// The rows a placement writes, or why it is refused.
fn plan_writes<S: StackStore, B: Fn(u16) -> StackBits>(
    store: &S,
    card_id: u32,
    placement: Placement,
    caller_player_id: u32,
    now_ms: u64,
    bits: &B,
) -> (r: Result<Vec<Write>, PlaceError>)
    requires
        forall|p: u16| call_requires(*bits, (p,)),
    ensures
        forall|model: spec_fn(u16) -> StackBits|
            #![trigger behaves_as(*bits, model)]
            #![trigger placed(store, card_id, placement, caller_player_id, now_ms, model)]
            behaves_as(*bits, model) || placement is Loose ==> match placed(
                store,
                card_id,
                placement,
                caller_player_id,
                now_ms,
                model,
            ) {
                Ok(writes) => r matches Ok(w) && w@ == writes,
                Err(e) => r matches Err(f) && f == e,
            },
        source_fault(store, card_id, placement, caller_player_id, now_ms) matches Some(e) ==> (
        r matches Err(f) && f == e),
        placement matches Placement::Stack { parent_id, direction } ==> source_fault(
            store,
            card_id,
            placement,
            caller_player_id,
            now_ms,
        ) is None ==> (parent_fault(
            store,
            card_id,
            parent_id,
            direction,
            caller_player_id,
            now_ms,
        ) matches Some(e) ==> (r matches Err(f) && f == e)),
{
    // source eligibility
    let source = match store.card_at(card_id, now_ms) {
        Some(source) => source,
        None => {
            return Err(PlaceError::NotFound { card: card_id });
        },
    };
    if is_dead(source.flags) {
        return Err(PlaceError::Dead { card: card_id });
    }
    let owner: u32 = owner_or_world_of(store, card_id, now_ms);
    if owner != caller_player_id {
        return Err(PlaceError::ForeignCard { card: card_id, owner, caller: caller_player_id });
    }
    held_check(&source, false)?;

    // A loose move of a stack member drag-carries the outward run; any other move
    // carries the source's own sub-members.
    let carrying = matches!(
        Micro::of(source.micro_location, source.flags),
        Micro::Stacked { .. }
    ) && matches!(placement, Placement::Loose { .. });
    let cards = if carrying {
        carried_run(store, &source, now_ms)
    } else {
        store.members_of(card_id, now_ms)
    };
    travelers_check(&cards)?;

    // resolve the destination
    let resolved = match placement {
        Placement::Stack { parent_id, direction } => resolve_stack(
            store,
            card_id,
            &source,
            parent_id,
            direction,
            caller_player_id,
            now_ms,
            bits,
        )?,
        Placement::Loose { surface, macro_zone, q, r, x, y } => resolve_loose(
            store,
            caller_player_id,
            surface,
            macro_zone,
            q,
            r,
            x,
            y,
            now_ms,
        )?,
    };

    // build the write plan
    let mut writes = match resolved {
        Resolved::Place { surface, macro_zone, micro } => move_writes(
            &cards,
            carrying,
            card_id,
            with_surface(macro_zone, surface),
            micro,
        ),
        Resolved::Invert { parent_id, macro_zone, micro } => {
            let mut w: Vec<Write> = Vec::new();
            w.push(Write { card_id: parent_id, macro_zone, micro });
            assert(w@ =~= seq![Write { card_id: parent_id, macro_zone, micro }]);
            w
        },
    };

    // After a drag-carry, the chain the run left closes its gap.
    if carrying {
        let moved = departed_ids(card_id, &cards);
        let mut closing = plan_splice(store, moved.as_slice(), now_ms);
        writes.append(&mut closing);
    }
    Ok(writes)
}

/// The rows of the source and of the cards that travel with it.
fn move_writes(
    cards: &Vec<CardView>,
    carrying: bool,
    card_id: u32,
    macro_zone: u64,
    to: Micro,
) -> (r: Vec<Write>)
    ensures
        r@ == seq![Write { card_id, macro_zone, micro: to }] + travel_writes(
            cards@,
            carrying,
            card_id,
            macro_zone,
            to,
        ),
{
    let mut writes: Vec<Write> = Vec::new();
    writes.push(Write { card_id, macro_zone, micro: to });
    let mut k: usize = 0;
    while k < cards.len()
        invariant
            k <= cards.len(),
            writes.len() == k + 1,
            writes@[0] == (Write { card_id, macro_zone, micro: to }),
            forall|j: int|
                0 <= j < k ==> #[trigger] writes@[j + 1] == travel_writes(
                    cards@,
                    carrying,
                    card_id,
                    macro_zone,
                    to,
                )[j],
        decreases cards.len() - k,
    {
        let m = cards[k];
        let micro = if carrying {
            // The run re-roots onto the source, re-indexed contiguous from 0.
            let index: u8 = #[verifier::truncate] (k as u8);
            Micro::Stacked { root: card_id, branch: stack_branch(m.flags), index }
        } else {
            let own = Micro::of(m.micro_location, m.flags);
            match to {
                Micro::Stacked { root: new_root, .. } => match own {
                    Micro::Stacked { branch, index, .. } => Micro::Stacked {
                        root: new_root,
                        branch,
                        index,
                    },
                    Micro::Loose { .. } => own,
                },
                Micro::Loose { .. } => own,
            }
        };
        writes.push(Write { card_id: m.card_id, macro_zone, micro });
        k += 1;
    }
    proof {
        let expected = seq![Write { card_id, macro_zone, micro: to }] + travel_writes(
            cards@,
            carrying,
            card_id,
            macro_zone,
            to,
        );
        assert forall|j: int| 0 <= j < writes@.len() implies writes@[j] == expected[j] by {
            if j > 0 {
                assert(writes@[(j - 1) + 1] == expected[j]);
            }
        }
        assert(writes@ =~= expected);
    }
    writes
}

/// The ids of the source and of the cards it drags off their chain.
fn departed_ids(card_id: u32, cards: &Vec<CardView>) -> (r: Vec<u32>)
    ensures
        r@ == departed(card_id, cards@),
{
    let mut ids: Vec<u32> = Vec::new();
    ids.push(card_id);
    let mut k: usize = 0;
    while k < cards.len()
        invariant
            k <= cards.len(),
            ids@ =~= departed(card_id, cards@.take(k as int)),
        decreases cards.len() - k,
    {
        ids.push(cards[k].card_id);
        k += 1;
    }
    assert(cards@.take(cards@.len() as int) =~= cards@);
    ids
}

} // verus!
