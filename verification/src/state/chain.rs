//! Chains: one loose root plus the members whose `micro_location` points at it,
//! each carrying a `branch` and an `index`.

use vstd::prelude::*;
use crate::codec::card_model::{stack_index, HoldField, Micro};
use crate::state::recipe_state::{CardStore, CardView};

verus! {

use crate::codec::card_model::{branch_value, hold_value, index_value, micro_of};
use crate::codec::flags::{has_bit, DEAD_BIT};
use crate::codec::word_laws::{law_place_of_a_row, law_word_digits};
use crate::sequences::lemma_filter_push;

impl CardView {
    /// The placement of the row.
    pub open spec fn micro(self) -> Micro {
        micro_of(self.micro_location, self.flags)
    }

    /// The branch of the row, 0 when loose.
    pub open spec fn branch(self) -> u8 {
        branch_value(self.flags)
    }

    /// The slot of the row within its branch.
    pub open spec fn index(self) -> u8 {
        index_value(self.flags) as u8
    }

    /// Whether the card is dead.
    pub open spec fn dead(self) -> bool {
        has_bit(self.flags, DEAD_BIT)
    }

    /// Whether the card carries a hold of a kind.
    pub open spec fn held(self, field: HoldField) -> bool {
        hold_value(self.flags, field) > 0
    }

    /// The root of the card's chain: its root card if it is a stack member, else
    /// itself.
    pub open spec fn chain_root(self) -> u32 {
        match self.micro() {
            Micro::Stacked { root, .. } => root,
            Micro::Loose { .. } => self.card_id,
        }
    }
}

/// The reads stack movement needs beyond [`CardStore`]: the members of a chain
/// root (cards whose `micro_location` is the root and that are stack members).
/// Reading one chain at one time twice gives the same members in the same order.
pub trait StackStore: CardStore {
    /// The members of a chain root as of `now_ms`. An implementor that says nothing
    /// else stands for an empty store.
    open spec fn members(&self, root_id: u32, now_ms: u64) -> Seq<CardView> {
        Seq::empty()
    }

    /// The members of a chain root as of `now_ms`.
    fn members_of(&self, root_id: u32, now_ms: u64) -> (r: Vec<CardView>)
        ensures
            r@ == self.members(root_id, now_ms),
    ;
}

/// One row a plan writes: the card's new `(macro_zone, micro)`. The owner is never
/// part of a placement: ownership is independent of position.
#[derive(Debug, Clone, Copy, PartialEq, Eq, Structural)]
pub struct Write {
    pub card_id: u32,
    pub macro_zone: u64,
    pub micro: Micro,
}

/// The chain root of `view`: `micro_location` if it's a stack member, else itself.
pub fn chain_root_of(view: &CardView) -> (r: u32)
    ensures
        r == view.chain_root(),
{
    match Micro::of(view.micro_location, view.flags) {
        Micro::Stacked { root, .. } => root,
        Micro::Loose { .. } => view.card_id,
    }
}

/// How the members of a branch are ordered.
#[derive(Clone, Copy)]
pub enum Order {
    /// By slot.
    Index,
    /// By slot, then by card.
    IndexThenCard,
}

impl Order {
    /// The number members are ordered by.
    pub open spec fn key(self, m: CardView) -> int {
        match self {
            Order::Index => m.index() as int,
            Order::IndexThenCard => m.index() * 0x1_0000_0000 + m.card_id,
        }
    }

    fn key_of(self, m: &CardView) -> (r: u64)
        ensures
            r == self.key(*m),
    {
        let index: u64 = stack_index(m.flags) as u64;
        match self {
            Order::Index => index,
            Order::IndexThenCard => index * 0x1_0000_0000 + m.card_id as u64,
        }
    }
}

/// `s` with `m` put behind every card that is not after it.
pub open spec fn insert_in_order(s: Seq<CardView>, m: CardView, order: Order) -> Seq<CardView>
    decreases s.len(),
{
    if s.len() == 0 || order.key(s.last()) <= order.key(m) {
        s.push(m)
    } else {
        insert_in_order(s.drop_last(), m, order).push(s.last())
    }
}

/// The cards of `s` in order; equal ones keep the order they had.
pub open spec fn in_order(s: Seq<CardView>, order: Order) -> Seq<CardView>
    decreases s.len(),
{
    if s.len() == 0 {
        s
    } else {
        insert_in_order(in_order(s.drop_last(), order), s.last(), order)
    }
}

/// Inserting at the place behind the last card not after `m`.
proof fn lemma_insert_place(s: Seq<CardView>, m: CardView, order: Order, place: int)
    requires
        0 <= place <= s.len(),
        forall|i: int| place <= i < s.len() ==> order.key(#[trigger] s[i]) > order.key(m),
        place > 0 ==> order.key(s[place - 1]) <= order.key(m),
    ensures
        insert_in_order(s, m, order) == s.insert(place, m),
    decreases s.len(),
{
    if place == s.len() {
        assert(s.insert(place, m) =~= s.push(m));
    } else {
        assert(s[s.len() - 1] == s.last());
        lemma_insert_place(s.drop_last(), m, order, place);
        assert(s.drop_last().insert(place, m).push(s.last()) =~= s.insert(place, m));
    }
}

/// Sort cards; equal ones keep the order they have.
pub fn sort_cards(cards: &Vec<CardView>, order: Order) -> (r: Vec<CardView>)
    ensures
        r@ == in_order(cards@, order),
{
    let mut r: Vec<CardView> = Vec::new();
    let mut i: usize = 0;
    assert(cards@.take(0) =~= Seq::<CardView>::empty());
    while i < cards.len()
        invariant
            i <= cards.len(),
            r@ == in_order(cards@.take(i as int), order),
            r.len() <= i,
        decreases cards.len() - i,
    {
        let m = cards[i];
        let key: u64 = order.key_of(&m);
        let mut place: usize = r.len();
        while place > 0 && order.key_of(&r[place - 1]) > key
            invariant
                place <= r.len(),
                key == order.key(m),
                forall|j: int| place <= j < r.len() ==> order.key(#[trigger] r@[j]) > key,
            decreases place,
        {
            place -= 1;
        }
        proof {
            lemma_insert_place(r@, m, order, place as int);
            assert(cards@.take(i + 1).drop_last() =~= cards@.take(i as int));
        }
        r.insert(place, m);
        i += 1;
    }
    assert(cards@.take(cards@.len() as int) =~= cards@);
    r
}

/// Whether cards stand in order.
pub open spec fn ordered(s: Seq<CardView>, order: Order) -> bool {
    forall|i: int, j: int| 0 <= i < j < s.len() ==> order.key(s[i]) <= order.key(s[j])
}

/// Sorting puts the cards in order and neither drops, adds nor changes one.
pub proof fn law_in_order(s: Seq<CardView>, order: Order)
    ensures
        ordered(in_order(s, order), order),
        in_order(s, order).to_multiset() == s.to_multiset(),
        in_order(s, order).len() == s.len(),
    decreases s.len(),
{
    broadcast use vstd::seq_lib::group_to_multiset_ensures;

    if s.len() > 0 {
        law_in_order(s.drop_last(), order);
        lemma_insert_in_order(in_order(s.drop_last(), order), s.last(), order);
        assert(s.drop_last().push(s.last()) =~= s);
    }
}

proof fn lemma_insert_in_order(s: Seq<CardView>, m: CardView, order: Order)
    requires
        ordered(s, order),
    ensures
        ordered(insert_in_order(s, m, order), order),
        insert_in_order(s, m, order).to_multiset() == s.to_multiset().insert(m),
        insert_in_order(s, m, order).len() == s.len() + 1,
        forall|i: int|
            0 <= i < s.len() + 1 ==> #[trigger] insert_in_order(s, m, order)[i] == m || s.contains(
                insert_in_order(s, m, order)[i],
            ),
    decreases s.len(),
{
    broadcast use vstd::seq_lib::group_to_multiset_ensures;

    if s.len() == 0 || order.key(s.last()) <= order.key(m) {
        let r = s.push(m);
        assert forall|i: int| 0 <= i < s.len() + 1 implies #[trigger] r[i] == m || s.contains(
            r[i],
        ) by {
            if i < s.len() {
                assert(r[i] == s[i]);
            }
        }
        assert forall|i: int, j: int| 0 <= i < j < r.len() implies order.key(r[i]) <= order.key(
            r[j],
        ) by {
            if j == s.len() {
                assert(order.key(s[i]) <= order.key(s[s.len() - 1]));
            }
        }
    } else {
        let front = s.drop_last();
        let inner = insert_in_order(front, m, order);
        lemma_insert_in_order(front, m, order);
        let r = inner.push(s.last());
        assert(front.push(s.last()) =~= s);
        assert forall|i: int| 0 <= i < s.len() + 1 implies #[trigger] r[i] == m || s.contains(
            r[i],
        ) by {
            if i < inner.len() {
                assert(r[i] == inner[i]);
                if inner[i] != m {
                    let k = choose|k: int| 0 <= k < front.len() && front[k] == inner[i];
                    assert(s[k] == inner[i]);
                }
            } else {
                assert(s[s.len() - 1] == r[i]);
            }
        }
        assert forall|i: int, j: int| 0 <= i < j < r.len() implies order.key(r[i]) <= order.key(
            r[j],
        ) by {
            if j == inner.len() {
                assert(r[i] == inner[i]);
                if inner[i] != m {
                    let k = choose|k: int| 0 <= k < front.len() && front[k] == inner[i];
                    assert(s[k] == inner[i]);
                    assert(order.key(s[k]) <= order.key(s[s.len() - 1]));
                }
            } else {
                assert(r[i] == inner[i] && r[j] == inner[j]);
            }
        }
    }
}

/// Sorting keeps exactly the cards there are.
pub proof fn lemma_in_order_contains(s: Seq<CardView>, order: Order)
    ensures
        forall|m: CardView| #[trigger] in_order(s, order).contains(m) <==> s.contains(m),
{
    broadcast use vstd::seq_lib::group_to_multiset_ensures;

    law_in_order(s, order);
    let sorted = in_order(s, order);
    assert forall|m: CardView| #[trigger] sorted.contains(m) <==> s.contains(m) by {
        assert(sorted.contains(m) <==> sorted.to_multiset().count(m) > 0);
        assert(s.contains(m) <==> s.to_multiset().count(m) > 0);
    }
}

/// Sorted cards stand by slot, and those of one slot by card id where the order asks for it.
pub proof fn law_sorted_by_slot_then_card(s: Seq<CardView>, order: Order, i: int, j: int)
    requires
        0 <= i < j < s.len(),
    ensures
        ({
            let a = in_order(s, order)[i];
            let b = in_order(s, order)[j];
            let slot_a = a.flags as int / 0x10 % 16;
            let slot_b = b.flags as int / 0x10 % 16;
            slot_a < slot_b || (slot_a == slot_b && (order is IndexThenCard ==> a.card_id
                <= b.card_id))
        }),
{
    law_in_order(s, order);
    let a = in_order(s, order)[i];
    let b = in_order(s, order)[j];
    law_word_digits(a.flags);
    law_word_digits(b.flags);
    assert(order.key(a) <= order.key(b));
}

/// Whether a card has a slot.
pub open spec fn at_slot(slot: int) -> spec_fn(CardView) -> bool {
    |m: CardView| m.flags as int / 0x10 % 16 == slot
}

/// Sorting by slot leaves the cards of one slot in the order they had.
pub proof fn law_sorting_by_slot_is_stable(s: Seq<CardView>, slot: int)
    ensures
        in_order(s, Order::Index).filter(at_slot(slot)) == s.filter(at_slot(slot)),
    decreases s.len(),
{
    if s.len() > 0 {
        let front = s.drop_last();
        law_sorting_by_slot_is_stable(front, slot);
        law_in_order(front, Order::Index);
        lemma_insert_keeps_slots(in_order(front, Order::Index), s.last(), slot);
        lemma_filter_push(in_order(front, Order::Index), at_slot(slot), s.last());
        lemma_filter_push(front, at_slot(slot), s.last());
        assert(front.push(s.last()) =~= s);
    }
}

proof fn lemma_insert_keeps_slots(s: Seq<CardView>, m: CardView, slot: int)
    requires
        ordered(s, Order::Index),
    ensures
        insert_in_order(s, m, Order::Index).filter(at_slot(slot)) == s.push(m).filter(at_slot(slot)),
    decreases s.len(),
{
    let pred = at_slot(slot);
    if s.len() > 0 && Order::Index.key(s.last()) > Order::Index.key(m) {
        let front = s.drop_last();
        let last = s.last();
        assert(ordered(front, Order::Index));
        lemma_insert_keeps_slots(front, m, slot);
        law_word_digits(last.flags);
        law_word_digits(m.flags);
        assert(front.push(last) =~= s);
        lemma_filter_push(insert_in_order(front, m, Order::Index), pred, last);
        lemma_filter_push(front, pred, m);
        lemma_filter_push(front, pred, last);
        lemma_filter_push(s, pred, m);
    }
}

/// The root of a card's chain is the card its location names where its stack digit is not 0,
/// else the card itself.
pub proof fn law_chain_root_by_the_row(c: CardView)
    ensures
        c.flags as int % 16 != 0 ==> c.chain_root() == c.micro_location,
        c.flags as int % 16 == 0 ==> c.chain_root() == c.card_id,
{
    law_place_of_a_row(c.micro_location, c.flags);
}

} // verus!
