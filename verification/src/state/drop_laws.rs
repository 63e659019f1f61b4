//! Where a placement puts its cards, told from the rows and the stacking bits alone.

use vstd::prelude::*;
use crate::codec::card_model::{HoldField, Micro};
use crate::codec::stacking::StackBits;
use crate::state::chain::{StackStore, Write};
use crate::state::recipe_state::CardView;
use crate::state::stack::{Pin, PlaceError, Placement};

verus! {

use crate::codec::packed::{
    law_surface_write_back,
    lemma_zone_bands,
    zone_surface,
    zone_with_surface,
};
use crate::codec::stack_laws::{has_stack, lemma_has_stack};
use crate::codec::word_laws::{law_place_of_a_row, law_word_digits};
use crate::state::rank_laws::{lemma_digits, row_dead, row_root, slot_no, stack_no};
use crate::state::recipe_state::responsible_player;
use crate::state::stack::{
    branch_in_zone,
    leaf,
    next_index,
    parent_fault,
    placed,
    source_fault,
    stack_open,
    topmost,
    travel_writes,
    travelers,
    travelers_fault,
};

/// The claims on a card.
pub open spec fn claims(c: CardView) -> int {
    c.flags as int / 0x100 % 8
}

/// The borrows of a card.
pub open spec fn borrows(c: CardView) -> int {
    c.flags as int / 0x800 % 8
}

/// The position holds on a card.
pub open spec fn position_holds(c: CardView) -> int {
    c.flags as int / 0x4000 % 8
}

/// The drop holds on a card.
pub open spec fn drop_holds(c: CardView) -> int {
    c.flags as int / 0x2_0000 % 8
}

/// Whether an in-flight action keeps a card where it is.
pub open spec fn kept_in_place(c: CardView) -> bool {
    claims(c) > 0 || borrows(c) > 0 || position_holds(c) > 0
}

/// The side of the root that a row is on: its branch, 0 when loose.
pub open spec fn side_no(c: CardView) -> int {
    if stack_no(c) == 0 {
        0
    } else {
        stack_no(c) - 1
    }
}

/// The player a card counts as owned by: the world where no player is responsible.
pub open spec fn counted_owner<S: StackStore>(store: &S, card_id: u32, now_ms: u64) -> u32 {
    match responsible_player(store, card_id, now_ms) {
        Some(player) => player,
        None => 0,
    }
}

pub(crate) proof fn lemma_counts(c: CardView)
    ensures
        c.held(HoldField::SlotClaim) <==> claims(c) > 0,
        c.held(HoldField::SlotBorrow) <==> borrows(c) > 0,
        c.held(HoldField::PositionHold) <==> position_holds(c) > 0,
        c.held(HoldField::DropHold) <==> drop_holds(c) > 0,
{
    law_word_digits(c.flags);
}

/// What keeps a card in place, the first of claim, borrow and position hold.
pub open spec fn pin_of(c: CardView) -> Pin {
    if claims(c) > 0 {
        Pin::Claim
    } else if borrows(c) > 0 {
        Pin::Borrow
    } else {
        Pin::Position
    }
}

/// A card that does not exist, is dead, is not the caller's or is kept in place is not
/// moved, and the first of these reasons is given. No more is a card moved if one that
/// would travel with it is kept in place: the first such card is named.
pub proof fn law_refused_sources<S: StackStore>(
    store: &S,
    card_id: u32,
    placement: Placement,
    caller: u32,
    now_ms: u64,
    bits: spec_fn(u16) -> StackBits,
    i: int,
)
    ensures
        ({
            let r = placed(store, card_id, placement, caller, now_ms, bits);
            let owner = counted_owner(store, card_id, now_ms);
            match store.card(card_id, now_ms) {
                None => r == Err::<Seq<Write>, _>(PlaceError::NotFound { card: card_id }),
                Some(source) => {
                    let cards = travelers(store, card_id, source, placement, now_ms);
                    let free = !row_dead(source) && owner == caller && !kept_in_place(source);
                    &&& row_dead(source) ==> r == Err::<Seq<Write>, _>(
                        PlaceError::Dead { card: card_id },
                    )
                    &&& !row_dead(source) && owner != caller ==> r == Err::<Seq<Write>, _>(
                        PlaceError::ForeignCard { card: card_id, owner, caller },
                    )
                    &&& !row_dead(source) && owner == caller && kept_in_place(source) ==> r == Err::<
                        Seq<Write>,
                        _,
                    >(
                        PlaceError::Held {
                            card: source.card_id,
                            travels: false,
                            pin: pin_of(source),
                        },
                    )
                    &&& free && 0 <= i < cards.len() && kept_in_place(cards[i]) && (forall|j: int|
                        0 <= j < i ==> !kept_in_place(#[trigger] cards[j])) ==> r == Err::<
                        Seq<Write>,
                        _,
                    >(
                        PlaceError::Held {
                            card: cards[i].card_id,
                            travels: true,
                            pin: pin_of(cards[i]),
                        },
                    )
                    &&& stack_no(source) == 0 || placement is Stack ==> cards == store.members(
                        card_id,
                        now_ms,
                    )
                },
            }
        }),
{
    if let Some(source) = store.card(card_id, now_ms) {
        let cards = travelers(store, card_id, source, placement, now_ms);
        lemma_digits(source);
        lemma_counts(source);
        if 0 <= i < cards.len() {
            lemma_first_pinned(cards, i);
        }
    }
}

/// The first card kept in place is the one that a group is refused for; a group of
/// which none is kept in place may travel.
proof fn lemma_first_pinned(cards: Seq<CardView>, i: int)
    ensures
        0 <= i < cards.len() && kept_in_place(cards[i]) && (forall|j: int|
            0 <= j < i ==> !kept_in_place(#[trigger] cards[j])) ==> travelers_fault(cards) == Some(
            PlaceError::Held { card: cards[i].card_id, travels: true, pin: pin_of(cards[i]) },
        ),
        (forall|j: int| 0 <= j < cards.len() ==> !kept_in_place(#[trigger] cards[j]))
            ==> travelers_fault(cards) is None,
    decreases cards.len(),
{
    if cards.len() > 0 {
        lemma_counts(cards.first());
        let rest = cards.drop_first();
        lemma_first_pinned(rest, i - 1);
        assert(cards[0] == cards.first());
        assert forall|j: int| 0 <= j < rest.len() implies #[trigger] rest[j] == cards[j + 1] by {}
        if 0 < i < cards.len() && kept_in_place(cards[i]) && (forall|j: int|
            0 <= j < i ==> !kept_in_place(#[trigger] cards[j])) {
            assert(!kept_in_place(cards[0]));
            assert(rest[i - 1] == cards[i]);
            assert forall|j: int| 0 <= j < i - 1 implies !kept_in_place(#[trigger] rest[j]) by {
                assert(rest[j] == cards[j + 1]);
            }
        }
        if forall|j: int| 0 <= j < cards.len() ==> !kept_in_place(#[trigger] cards[j]) {
            assert(!kept_in_place(cards[0]));
            assert forall|j: int| 0 <= j < rest.len() implies !kept_in_place(#[trigger] rest[j]) by {
                assert(rest[j] == cards[j + 1]);
            }
        }
    }
}

/// Whether a card may be moved by the caller, together with others.
pub open spec fn may_move<S: StackStore>(
    store: &S,
    card_id: u32,
    source: CardView,
    cards: Seq<CardView>,
    caller: u32,
    now_ms: u64,
) -> bool {
    &&& store.card(card_id, now_ms) == Some(source)
    &&& !row_dead(source)
    &&& counted_owner(store, card_id, now_ms) == caller
    &&& !kept_in_place(source)
    &&& forall|j: int| 0 <= j < cards.len() ==> !kept_in_place(#[trigger] cards[j])
}

proof fn lemma_may_move<S: StackStore>(
    store: &S,
    card_id: u32,
    source: CardView,
    placement: Placement,
    caller: u32,
    now_ms: u64,
)
    requires
        may_move(
            store,
            card_id,
            source,
            travelers(store, card_id, source, placement, now_ms),
            caller,
            now_ms,
        ),
    ensures
        source_fault(store, card_id, placement, caller, now_ms) is None,
{
    lemma_digits(source);
    lemma_counts(source);
    lemma_first_pinned(travelers(store, card_id, source, placement, now_ms), 0);
}

/// A drop onto nothing, onto the card itself, in no known direction, onto a card that
/// does not exist, is dead, is closed to drops or is stacked on the card that is dropped,
/// or onto a chain of another player is refused, and the first of these reasons is given.
pub proof fn law_refused_parents<S: StackStore>(
    store: &S,
    card_id: u32,
    source: CardView,
    parent_id: u32,
    direction: u8,
    caller: u32,
    now_ms: u64,
    bits: spec_fn(u16) -> StackBits,
)
    requires
        may_move(store, card_id, source, store.members(card_id, now_ms), caller, now_ms),
    ensures
        ({
            let r = placed(
                store,
                card_id,
                Placement::Stack { parent_id, direction },
                caller,
                now_ms,
                bits,
            );
            if parent_id == 0 {
                r == Err::<Seq<Write>, _>(PlaceError::NoParent)
            } else if parent_id == card_id {
                r == Err::<Seq<Write>, _>(PlaceError::OntoItself { card: card_id })
            } else if direction > 2 {
                r == Err::<Seq<Write>, _>(PlaceError::BadDirection { direction })
            } else {
                match store.card(parent_id, now_ms) {
                    None => r == Err::<Seq<Write>, _>(
                        PlaceError::ParentNotFound { parent: parent_id },
                    ),
                    Some(parent) => {
                        let owner = counted_owner(store, row_root(parent), now_ms);
                        if row_dead(parent) {
                            r == Err::<Seq<Write>, _>(PlaceError::ParentDead { parent: parent_id })
                        } else if drop_holds(parent) > 0 {
                            r == Err::<Seq<Write>, _>(
                                PlaceError::ParentDropHeld { parent: parent_id },
                            )
                        } else if row_root(parent) == card_id {
                            r == Err::<Seq<Write>, _>(
                                PlaceError::Cycle { card: card_id, parent: parent_id },
                            )
                        } else if owner != 0 && owner != caller {
                            r == Err::<Seq<Write>, _>(
                                PlaceError::ForeignChain { parent: parent_id, owner, caller },
                            )
                        } else {
                            r matches Err(e) ==> e == (PlaceError::NoOpenStack {
                                card: card_id,
                                parent: parent_id,
                            })
                        }
                    },
                }
            }
        }),
{
    let placement = Placement::Stack { parent_id, direction };
    lemma_may_move(store, card_id, source, placement, caller, now_ms);
    if let Some(parent) = store.card(parent_id, now_ms) {
        lemma_digits(parent);
        lemma_counts(parent);
    }
}

/// Whether a card may be dropped onto a parent, as far as their bits do not decide.
pub open spec fn may_land<S: StackStore>(
    store: &S,
    card_id: u32,
    parent_id: u32,
    parent: CardView,
    direction: u8,
    caller: u32,
    now_ms: u64,
) -> bool {
    &&& parent_id != 0 && parent_id != card_id && direction <= 2
    &&& store.card(parent_id, now_ms) == Some(parent)
    &&& !row_dead(parent) && drop_holds(parent) == 0
    &&& row_root(parent) != card_id
    &&& counted_owner(store, row_root(parent), now_ms) == 0 || counted_owner(
        store,
        row_root(parent),
        now_ms,
    ) == caller
}

proof fn lemma_may_land<S: StackStore>(
    store: &S,
    card_id: u32,
    parent_id: u32,
    parent: CardView,
    direction: u8,
    caller: u32,
    now_ms: u64,
)
    requires
        may_land(store, card_id, parent_id, parent, direction, caller, now_ms),
    ensures
        parent_fault(store, card_id, parent_id, direction, caller, now_ms) is None,
{
    lemma_digits(parent);
    lemma_counts(parent);
}

/// The stacks a card hosts and joins, by the digits of its bit-fields.
proof fn lemma_stacks_of(bits: StackBits)
    ensures
        bits.hosting(1) == has_stack(bits.hosts, 1),
        bits.hosting(2) == has_stack(bits.hosts, 2),
        bits.hosting(3) == has_stack(bits.hosts, 3),
        bits.joining(1) == has_stack(bits.joins, 1),
        bits.joining(2) == has_stack(bits.joins, 2),
        bits.joining(3) == has_stack(bits.joins, 3),
{
    lemma_has_stack(bits.hosts);
    lemma_has_stack(bits.joins);
}

/// Whether a row is on a side of its root, in a zone.
pub open spec fn stands(c: CardView, zone: u64, side: int) -> bool {
    c.macro_zone == zone && side_no(c) == side
}

/// Whether member `i` of a root is the outermost live one on a side in a zone: no live
/// one there has a higher slot, nor the same slot later in the list.
pub open spec fn outermost<S: StackStore>(
    store: &S,
    root: u32,
    zone: u64,
    side: int,
    now_ms: u64,
    i: int,
) -> bool {
    let members = store.members(root, now_ms);
    &&& 0 <= i < members.len() && stands(members[i], zone, side) && !row_dead(members[i])
    &&& forall|j: int|
        0 <= j < members.len() && stands(#[trigger] members[j], zone, side) && !row_dead(members[j])
            ==> slot_no(members[j]) < slot_no(members[i]) || (slot_no(members[j]) == slot_no(
            members[i],
        ) && j <= i)
}

/// Whether a root has no live member on a side in a zone.
pub open spec fn side_is_bare<S: StackStore>(
    store: &S,
    root: u32,
    zone: u64,
    side: int,
    now_ms: u64,
) -> bool {
    forall|j: int|
        0 <= j < store.members(root, now_ms).len() && stands(
            #[trigger] store.members(root, now_ms)[j],
            zone,
            side,
        ) ==> row_dead(store.members(root, now_ms)[j])
}

/// Whether a chain takes a joiner on a stack: the joiner joins the stack, and the
/// outermost live card of that side, or the root if the side is bare, hosts it.
pub open spec fn takes<S: StackStore>(
    store: &S,
    root: u32,
    zone: u64,
    root_bits: StackBits,
    joiner: StackBits,
    stack: u8,
    now_ms: u64,
    bits: spec_fn(u16) -> StackBits,
) -> bool {
    &&& has_stack(joiner.joins, stack)
    &&& side_is_bare(store, root, zone, stack - 1, now_ms) ==> has_stack(root_bits.hosts, stack)
    &&& forall|i: int| #[trigger]
        outermost(store, root, zone, stack - 1, now_ms, i) ==> has_stack(
            bits(store.members(root, now_ms)[i].packed_definition).hosts,
            stack,
        )
}

/// The topmost of some members of a list is the last of those with the highest slot.
proof fn lemma_topmost_place(
    members: Seq<CardView>,
    pred: spec_fn(CardView) -> bool,
) -> (i: int)
    ensures
        topmost(members.filter(pred)) is None <==> forall|j: int|
            0 <= j < members.len() ==> !pred(#[trigger] members[j]),
        topmost(members.filter(pred)) matches Some(top) ==> {
            &&& 0 <= i < members.len() && members[i] == top && pred(top)
            &&& forall|j: int|
                0 <= j < members.len() && pred(#[trigger] members[j]) ==> slot_no(members[j])
                    < slot_no(top) || (slot_no(members[j]) == slot_no(top) && j <= i)
        },
    decreases members.len(),
{
    reveal(Seq::filter);
    if members.len() == 0 {
        0
    } else {
        let front = members.drop_last();
        let last = members.last();
        let k = lemma_topmost_place(front, pred);
        let n = members.len() - 1;
        let before = front.filter(pred);
        assert forall|j: int| 0 <= j < n implies #[trigger] front[j] == members[j] by {}
        assert(members[n] == last);
        lemma_digits(last);
        if topmost(before) is Some {
            lemma_digits(topmost(before)->0);
        }
        if pred(last) {
            assert(before.push(last).drop_last() =~= before);
            assert(before.push(last).last() == last);
            assert(members.filter(pred) =~= before.push(last));
        } else {
            assert(members.filter(pred) =~= before);
        }
        if topmost(before) is None {
            assert forall|j: int| 0 <= j < n implies !pred(#[trigger] members[j]) by {
                assert(front[j] == members[j]);
            }
        } else {
            let top = topmost(before)->0;
            assert(pred(members[k]));
            assert forall|j: int| 0 <= j < n && pred(#[trigger] members[j]) implies slot_no(
                members[j],
            ) < slot_no(top) || (slot_no(members[j]) == slot_no(top) && j <= k) by {
                assert(front[j] == members[j]);
            }
        }
        if pred(last) && (topmost(before) is None || last.index() >= (topmost(before)->0).index()) {
            n
        } else {
            k
        }
    }
}

/// A stack is open just where the chain takes the joiner on it.
proof fn lemma_open_is_taken<S: StackStore>(
    store: &S,
    root: u32,
    zone: u64,
    root_bits: StackBits,
    joiner: StackBits,
    stack: u8,
    now_ms: u64,
    bits: spec_fn(u16) -> StackBits,
)
    requires
        1 <= stack <= 3,
    ensures
        stack_open(store, root, zone, root_bits, joiner, stack, now_ms, bits) == takes(
            store,
            root,
            zone,
            root_bits,
            joiner,
            stack,
            now_ms,
            bits,
        ),
{
    let members = store.members(root, now_ms);
    let side = (stack - 1) as u8;
    let pred = |m: CardView| m.macro_zone == zone && m.branch() == side && !m.dead();
    let k = lemma_topmost_place(members, pred);
    lemma_stacks_of(joiner);
    lemma_stacks_of(root_bits);
    assert forall|c: CardView| #[trigger] pred(c) == (stands(c, zone, stack - 1) && !row_dead(c)) by {
        lemma_digits(c);
    }
    match leaf(store, root, zone, side, now_ms) {
        None => {
            assert(side_is_bare(store, root, zone, stack - 1, now_ms)) by {
                assert forall|j: int|
                    0 <= j < members.len() && stands(
                        #[trigger] store.members(root, now_ms)[j],
                        zone,
                        stack - 1,
                    ) implies row_dead(store.members(root, now_ms)[j]) by {
                    assert(!pred(members[j]));
                }
            }
            assert forall|i: int| !#[trigger] outermost(
                store,
                root,
                zone,
                stack - 1,
                now_ms,
                i,
            ) by {
                if 0 <= i < members.len() {
                    assert(!pred(members[i]));
                }
            }
        },
        Some(top) => {
            lemma_stacks_of(bits(top.packed_definition));
            assert(pred(members[k]));
            assert(outermost(store, root, zone, stack - 1, now_ms, k)) by {
                assert forall|j: int|
                    0 <= j < members.len() && stands(#[trigger] members[j], zone, stack - 1)
                        && !row_dead(members[j]) implies slot_no(members[j]) < slot_no(members[k])
                    || (slot_no(members[j]) == slot_no(members[k]) && j <= k) by {
                    assert(pred(members[j]));
                }
            }
            assert(!side_is_bare(store, root, zone, stack - 1, now_ms)) by {
                assert(stands(store.members(root, now_ms)[k], zone, stack - 1));
            }
            assert forall|i: int| #[trigger]
                outermost(store, root, zone, stack - 1, now_ms, i) implies i == k by {
                assert(stands(members[i], zone, stack - 1));
                assert(stands(members[k], zone, stack - 1));
            }
        },
    }
}

/// Whether a slot is the next of a side in a zone: 0 where nothing stands, else one past
/// the highest slot taken, 15 at most.
pub open spec fn next_slot<S: StackStore>(
    store: &S,
    root: u32,
    zone: u64,
    side: int,
    slot: u8,
    now_ms: u64,
) -> bool {
    let members = store.members(root, now_ms);
    ||| slot == 0 && forall|j: int|
        0 <= j < members.len() ==> !stands(#[trigger] members[j], zone, side)
    ||| exists|i: int|
        0 <= i < members.len() && stands(#[trigger] members[i], zone, side) && (forall|j: int|
            0 <= j < members.len() && stands(#[trigger] members[j], zone, side) ==> slot_no(
                members[j],
            ) <= slot_no(members[i])) && slot == (if slot_no(members[i]) < 15 {
            slot_no(members[i]) + 1
        } else {
            15
        })
}

proof fn lemma_next_slot<S: StackStore>(store: &S, root: u32, zone: u64, side: u8, now_ms: u64)
    ensures
        next_slot(
            store,
            root,
            zone,
            side as int,
            next_index(store, root, zone, side, now_ms),
            now_ms,
        ),
{
    let members = store.members(root, now_ms);
    let pred = |m: CardView| m.macro_zone == zone && m.branch() == side;
    let k = lemma_topmost_place(members, pred);
    assert forall|c: CardView| #[trigger] pred(c) == stands(c, zone, side as int) by {
        lemma_digits(c);
    }
    match topmost(branch_in_zone(store, root, zone, side, now_ms)) {
        None => {
            assert forall|j: int| 0 <= j < members.len() implies !stands(
                #[trigger] members[j],
                zone,
                side as int,
            ) by {
                assert(!pred(members[j]));
            }
        },
        Some(top) => {
            lemma_digits(top);
            assert(pred(members[k]));
            assert(stands(members[k], zone, side as int));
            assert forall|j: int|
                0 <= j < members.len() && stands(
                    #[trigger] members[j],
                    zone,
                    side as int,
                ) implies slot_no(members[j]) <= slot_no(members[k]) by {
                assert(pred(members[j]));
            }
        },
    }
}

/// The side that is chosen among those that are open: hex first, then the only one of top
/// and bottom, then the bottom for a drop downwards and the top for any other.
pub open spec fn chosen_side(hex: bool, top: bool, bottom: bool, direction: u8) -> int {
    if hex {
        0
    } else if bottom && (!top || direction == 2) {
        2
    } else {
        1
    }
}

/// Whether the rows put a card and its members on a side of a root: the card at the next
/// slot, its members on the sides and at the slots they had, all in one zone.
pub open spec fn rows_join<S: StackStore>(
    store: &S,
    card_id: u32,
    root: u32,
    zone: u64,
    side: int,
    rows: Seq<Write>,
    now_ms: u64,
) -> bool {
    let members = store.members(card_id, now_ms);
    &&& rows.len() == 1 + members.len()
    &&& rows[0].card_id == card_id && rows[0].macro_zone == zone
    &&& rows[0].micro matches Micro::Stacked { root: to, branch, index } && to == root && branch
        == side && next_slot(store, root, zone, side, index, now_ms)
    &&& forall|k: int|
        0 <= k < members.len() && stack_no(members[k]) != 0 ==> #[trigger] rows[k + 1] == (Write {
            card_id: members[k].card_id,
            macro_zone: zone,
            micro: Micro::Stacked {
                root,
                branch: (stack_no(members[k]) - 1) as u8,
                index: slot_no(members[k]) as u8,
            },
        })
}

proof fn lemma_rows_join<S: StackStore>(
    store: &S,
    card_id: u32,
    root: u32,
    zone: u64,
    side: u8,
    now_ms: u64,
)
    ensures
        ({
            let micro = Micro::Stacked {
                root,
                branch: side,
                index: next_index(store, root, zone, side, now_ms),
            };
            let z = zone_with_surface(zone, zone_surface(zone));
            rows_join(
                store,
                card_id,
                root,
                zone,
                side as int,
                seq![Write { card_id, macro_zone: z, micro }] + travel_writes(
                    store.members(card_id, now_ms),
                    false,
                    card_id,
                    z,
                    micro,
                ),
                now_ms,
            )
        }),
{
    law_surface_write_back(zone);
    lemma_next_slot(store, root, zone, side, now_ms);
    let members = store.members(card_id, now_ms);
    assert forall|k: int|
        0 <= k < members.len() && (#[trigger] members[k]).micro() is Stacked implies members[k].micro()
        == (Micro::Stacked {
        root: members[k].micro_location,
        branch: (stack_no(members[k]) - 1) as u8,
        index: slot_no(members[k]) as u8,
    }) by {
        lemma_digits(members[k]);
        law_place_of_a_row(members[k].micro_location, members[k].flags);
    }
    assert forall|k: int| 0 <= k < members.len() implies ((#[trigger] members[k]).micro()
        is Stacked <==> stack_no(members[k]) != 0) by {
        lemma_digits(members[k]);
    }
}

/// A drop onto the root of a chain joins the chain on the side chosen among those on
/// which the chain takes the card. Where it takes it on none, the drop turns around: a
/// root without members joins the dropped card, if that is a root whose chain takes it.
/// Else the drop is refused.
pub proof fn law_drop_onto_a_root<S: StackStore>(
    store: &S,
    card_id: u32,
    source: CardView,
    parent_id: u32,
    parent: CardView,
    direction: u8,
    caller: u32,
    now_ms: u64,
    bits: spec_fn(u16) -> StackBits,
)
    requires
        may_move(store, card_id, source, store.members(card_id, now_ms), caller, now_ms),
        may_land(store, card_id, parent_id, parent, direction, caller, now_ms),
        row_root(parent) == parent_id,
    ensures
        ({
            let r = placed(
                store,
                card_id,
                Placement::Stack { parent_id, direction },
                caller,
                now_ms,
                bits,
            );
            let dragged = bits(source.packed_definition);
            let target = bits(parent.packed_definition);
            let zone = parent.macro_zone;
            let home = source.macro_zone;
            let hex = takes(store, parent_id, zone, target, dragged, 1, now_ms, bits);
            let top = takes(store, parent_id, zone, target, dragged, 2, now_ms, bits);
            let bottom = takes(store, parent_id, zone, target, dragged, 3, now_ms, bits);
            let back_hex = takes(store, card_id, home, dragged, target, 1, now_ms, bits);
            let back_top = takes(store, card_id, home, dragged, target, 2, now_ms, bits);
            let back_bottom = takes(store, card_id, home, dragged, target, 3, now_ms, bits);
            if hex || top || bottom {
                r matches Ok(rows) && rows_join(
                    store,
                    card_id,
                    parent_id,
                    zone,
                    chosen_side(hex, top, bottom, direction),
                    rows,
                    now_ms,
                )
            } else if store.members(parent_id, now_ms).len() == 0 && row_root(source) == card_id && (
            back_hex || back_top || back_bottom) {
                r matches Ok(rows) && rows.len() == 1 && rows[0].card_id == parent_id
                    && rows[0].macro_zone == home && (rows[0].micro matches Micro::Stacked {
                    root,
                    branch,
                    index,
                } && root == card_id && branch == chosen_side(
                    back_hex,
                    back_top,
                    back_bottom,
                    direction,
                ) && next_slot(store, card_id, home, branch as int, index, now_ms))
            } else {
                r == Err::<Seq<Write>, _>(
                    PlaceError::NoOpenStack { card: card_id, parent: parent_id },
                )
            }
        }),
{
    let placement = Placement::Stack { parent_id, direction };
    let dragged = bits(source.packed_definition);
    let target = bits(parent.packed_definition);
    let zone = parent.macro_zone;
    let home = source.macro_zone;
    lemma_may_move(store, card_id, source, placement, caller, now_ms);
    lemma_may_land(store, card_id, parent_id, parent, direction, caller, now_ms);
    lemma_digits(parent);
    lemma_digits(source);
    lemma_open_is_taken(store, parent_id, zone, target, dragged, 1, now_ms, bits);
    lemma_open_is_taken(store, parent_id, zone, target, dragged, 2, now_ms, bits);
    lemma_open_is_taken(store, parent_id, zone, target, dragged, 3, now_ms, bits);
    lemma_open_is_taken(store, card_id, home, dragged, target, 1, now_ms, bits);
    lemma_open_is_taken(store, card_id, home, dragged, target, 2, now_ms, bits);
    lemma_open_is_taken(store, card_id, home, dragged, target, 3, now_ms, bits);
    lemma_rows_join(store, card_id, parent_id, zone, 0, now_ms);
    lemma_rows_join(store, card_id, parent_id, zone, 1, now_ms);
    lemma_rows_join(store, card_id, parent_id, zone, 2, now_ms);
    lemma_next_slot(store, card_id, home, 0, now_ms);
    lemma_next_slot(store, card_id, home, 1, now_ms);
    lemma_next_slot(store, card_id, home, 2, now_ms);
}

/// A drop onto a member of a chain joins the chain on the side chosen among those that
/// the member itself hosts and the card joins, whatever stands there. Where there is none,
/// the drop is refused.
pub proof fn law_drop_onto_a_member<S: StackStore>(
    store: &S,
    card_id: u32,
    source: CardView,
    parent_id: u32,
    parent: CardView,
    direction: u8,
    caller: u32,
    now_ms: u64,
    bits: spec_fn(u16) -> StackBits,
)
    requires
        may_move(store, card_id, source, store.members(card_id, now_ms), caller, now_ms),
        may_land(store, card_id, parent_id, parent, direction, caller, now_ms),
        row_root(parent) != parent_id,
    ensures
        ({
            let r = placed(
                store,
                card_id,
                Placement::Stack { parent_id, direction },
                caller,
                now_ms,
                bits,
            );
            let joins = bits(source.packed_definition).joins;
            let hosts = bits(parent.packed_definition).hosts;
            let hex = has_stack(hosts, 1) && has_stack(joins, 1);
            let top = has_stack(hosts, 2) && has_stack(joins, 2);
            let bottom = has_stack(hosts, 3) && has_stack(joins, 3);
            if hex || top || bottom {
                r matches Ok(rows) && rows_join(
                    store,
                    card_id,
                    row_root(parent),
                    parent.macro_zone,
                    chosen_side(hex, top, bottom, direction),
                    rows,
                    now_ms,
                )
            } else {
                r == Err::<Seq<Write>, _>(
                    PlaceError::NoOpenStack { card: card_id, parent: parent_id },
                )
            }
        }),
{
    let placement = Placement::Stack { parent_id, direction };
    let root = row_root(parent);
    let zone = parent.macro_zone;
    lemma_may_move(store, card_id, source, placement, caller, now_ms);
    lemma_may_land(store, card_id, parent_id, parent, direction, caller, now_ms);
    lemma_digits(parent);
    lemma_stacks_of(bits(source.packed_definition));
    lemma_stacks_of(bits(parent.packed_definition));
    lemma_rows_join(store, card_id, root, zone, 0, now_ms);
    lemma_rows_join(store, card_id, root, zone, 1, now_ms);
    lemma_rows_join(store, card_id, root, zone, 2, now_ms);
}

/// Whether a zone is another with its surface replaced: the owner above the surface and
/// the cell below it stay.
pub open spec fn resurfaced(before: u64, surface: u8, after: u64) -> bool {
    &&& after as int / 0x1_0000_0000 == before as int / 0x1_0000_0000
    &&& after as int / 0x100_0000 % 256 == surface
    &&& after as int % 0x100_0000 == before as int % 0x100_0000
}

proof fn lemma_resurfaced(zone: u64, surface: u8)
    ensures
        resurfaced(zone, surface, zone_with_surface(zone, surface)),
{
    lemma_zone_bands(
        zone as int / 0x1_0000_0000,
        surface as int,
        zone as int % 0x100_0000,
    );
}

/// A loose place is refused for a cell out of range, and for a container (a zone whose
/// highest half names a card) that is not the caller's. Nothing else is refused.
pub proof fn law_refused_loose_places<S: StackStore>(
    store: &S,
    card_id: u32,
    source: CardView,
    surface: u8,
    macro_zone: u64,
    q: u8,
    r: u8,
    x: i16,
    y: i16,
    caller: u32,
    now_ms: u64,
    bits: spec_fn(u16) -> StackBits,
)
    requires
        ({
            let placement = Placement::Loose { surface, macro_zone, q, r, x, y };
            may_move(
                store,
                card_id,
                source,
                travelers(store, card_id, source, placement, now_ms),
                caller,
                now_ms,
            )
        }),
    ensures
        ({
            let placement = Placement::Loose { surface, macro_zone, q, r, x, y };
            let owner = (macro_zone as int / 0x1_0000_0000) as u32;
            let result = placed(store, card_id, placement, caller, now_ms, bits);
            if q > 7 || r > 7 {
                result == Err::<Seq<Write>, _>(PlaceError::BadCell { q, r })
            } else if owner != 0 && counted_owner(store, owner, now_ms) != caller {
                result == Err::<Seq<Write>, _>(
                    PlaceError::ForeignContainer { zone: macro_zone, owner, caller },
                )
            } else {
                result matches Ok(rows) && rows.len() > 0 && rows[0].card_id == card_id
                    && resurfaced(macro_zone, surface, rows[0].macro_zone) && rows[0].micro
                    == Micro::Loose { local_q: q, local_r: r, x, y }
            }
        }),
{
    let placement = Placement::Loose { surface, macro_zone, q, r, x, y };
    lemma_may_move(store, card_id, source, placement, caller, now_ms);
    lemma_resurfaced(macro_zone, surface);
}

/// A loose card that goes to a loose place takes its members along, and they keep their
/// places on it: one row for each, in the card's new zone, and no other.
pub proof fn law_loose_cards_take_their_members<S: StackStore>(
    store: &S,
    card_id: u32,
    source: CardView,
    placement: Placement,
    caller: u32,
    now_ms: u64,
    bits: spec_fn(u16) -> StackBits,
)
    requires
        store.card(card_id, now_ms) == Some(source),
        stack_no(source) == 0,
        placement is Loose,
    ensures
        placed(store, card_id, placement, caller, now_ms, bits) matches Ok(rows) ==> {
            let members = store.members(card_id, now_ms);
            &&& rows.len() == 1 + members.len()
            &&& forall|k: int|
                0 <= k < members.len() ==> (#[trigger] rows[k + 1]).card_id == members[k].card_id
                    && rows[k + 1].macro_zone == rows[0].macro_zone && rows[k + 1].micro
                    == members[k].micro()
        },
{
    lemma_digits(source);
}

} // verus!
