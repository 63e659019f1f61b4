//! Where the cards of a spliced chain end up, told from the rows alone: each survivor
//! at the slot that counts the survivors before it, and the first of them in the place
//! of a lost root.

use vstd::prelude::*;
use crate::codec::card_model::Micro;
use crate::codec::packed::{STACK_DIR_HEX, STACK_DIR_UP};
use crate::state::chain::{Order, StackStore, Write};
use crate::state::recipe_state::CardView;
use crate::state::splice::{Anchor, BRANCH_COUNT};

verus! {

use crate::codec::card_model::law_placement_fields_bounded;
use crate::codec::word_laws::{law_place_of_a_row, law_word_bits, law_word_digits};
use crate::sequences::{
    lemma_filter_agrees,
    lemma_filter_contains,
    lemma_filter_prefix,
    lemma_filter_push,
    lemma_filter_twice,
};
use crate::state::chain::{in_order, insert_in_order, law_in_order};
use crate::state::row_laws::{
    consistent,
    distinct_cards,
    has_card,
    lemma_chain_in_splice,
    lemma_distinct,
    lemma_distinct_branch,
    lemma_distinct_filter,
    lemma_row_of_chain,
    law_splice_writes_each_card_once,
};
use crate::state::splice::{
    affected_roots,
    branch_members,
    collapsed,
    in_place,
    slot_write,
    splice,
    spliced_chain,
    succession_key,
    successor,
    survives,
    survivors,
};
use crate::state::splice_laws::{
    law_affected_roots,
    law_collapse_leaves_no_gap,
    law_collapse_writes_only_what_moves,
    law_heir_comes_first,
    law_splice_writes_survivors,
    lemma_branch_members,
};

/// The stack digit of a row: 0 for a loose card, else its branch plus one.
pub open spec fn stack_no(c: CardView) -> int {
    c.flags as int % 16
}

/// The slot digit of a row.
pub open spec fn slot_no(c: CardView) -> int {
    c.flags as int / 0x10 % 16
}

/// Whether a row says that its card is dead.
pub open spec fn row_dead(c: CardView) -> bool {
    c.flags as int / 0x400_0000 % 2 == 1
}

/// The card at the root of a row's chain.
pub open spec fn row_root(c: CardView) -> u32 {
    if stack_no(c) == 0 {
        c.card_id
    } else {
        c.micro_location
    }
}

/// Whether a card is neither lost nor dead.
pub open spec fn left_over(c: CardView, destroyed: Seq<u32>) -> bool {
    !destroyed.contains(c.card_id) && !row_dead(c)
}

/// Whether `a` comes before `b` in their branch: by slot, then by card.
pub open spec fn comes_before(a: CardView, b: CardView) -> bool {
    slot_no(a) < slot_no(b) || (slot_no(a) == slot_no(b) && a.card_id < b.card_id)
}

/// Whether a row is that of a survivor of the branch of `m`, other than `but`, which
/// comes before `m`.
pub open spec fn is_ahead(c: CardView, m: CardView, destroyed: Seq<u32>, but: u32) -> bool {
    left_over(c, destroyed) && c.card_id != but && stack_no(c) == stack_no(m) && comes_before(c, m)
}

/// How many survivors of the branch of `m`, other than `but`, come before `m`.
pub open spec fn ahead<S: StackStore>(
    store: &S,
    root_id: u32,
    m: CardView,
    destroyed: Seq<u32>,
    but: u32,
    now_ms: u64,
) -> nat {
    store.members(root_id, now_ms).filter(|c: CardView| is_ahead(c, m, destroyed, but)).len()
}

/// The digits of a row are what its placement says.
pub(crate) proof fn lemma_digits(c: CardView)
    ensures
        c.index() == slot_no(c),
        c.dead() == row_dead(c),
        c.chain_root() == row_root(c),
        c.branch() == if stack_no(c) == 0 {
            0
        } else {
            stack_no(c) - 1
        },
        c.micro() is Stacked <==> stack_no(c) != 0,
{
    law_place_of_a_row(c.micro_location, c.flags);
    law_word_digits(c.flags);
    law_word_bits(c.flags);
}

/// Inserting a card adds it to what a filter counts.
proof fn lemma_insert_count(
    cards: Seq<CardView>,
    m: CardView,
    order: Order,
    pred: spec_fn(CardView) -> bool,
)
    ensures
        insert_in_order(cards, m, order).filter(pred).len() == cards.filter(pred).len() + (if pred(
            m,
        ) {
            1int
        } else {
            0
        }),
    decreases cards.len(),
{
    if cards.len() == 0 || order.key(cards.last()) <= order.key(m) {
        lemma_filter_push(cards, pred, m);
    } else {
        let front = cards.drop_last();
        lemma_insert_count(front, m, order, pred);
        lemma_filter_push(insert_in_order(front, m, order), pred, cards.last());
        lemma_filter_push(front, pred, cards.last());
        assert(front.push(cards.last()) =~= cards);
    }
}

/// Sorting does not change what a filter counts.
proof fn lemma_in_order_count(
    cards: Seq<CardView>,
    order: Order,
    pred: spec_fn(CardView) -> bool,
)
    ensures
        in_order(cards, order).filter(pred).len() == cards.filter(pred).len(),
    decreases cards.len(),
{
    if cards.len() > 0 {
        let front = cards.drop_last();
        lemma_in_order_count(front, order, pred);
        lemma_insert_count(in_order(front, order), cards.last(), order, pred);
        lemma_filter_push(front, pred, cards.last());
        assert(front.push(cards.last()) =~= cards);
    }
}

/// In the sorted members of a branch, the position of a member counts the members
/// before it.
proof fn lemma_position_counts(members: Seq<CardView>, branch: u8, slot: int)
    requires
        distinct_cards(members),
        0 <= slot < branch_members(members, branch).len(),
    ensures
        slot == members.filter(
            |c: CardView|
                c.branch() == branch && comes_before(c, branch_members(members, branch)[slot]),
        ).len(),
{
    let ms = branch_members(members, branch);
    let m = ms[slot];
    let side = |c: CardView| c.branch() == branch;
    let first = |c: CardView| comes_before(c, m);
    let both = |c: CardView| c.branch() == branch && comes_before(c, m);
    let order = Order::IndexThenCard;
    let own = members.filter(side);
    lemma_distinct_branch(members, branch);
    law_in_order(own, order);
    assert forall|i: int| 0 <= i < ms.len() implies #[trigger] first(ms[i]) == (i < slot) by {
        lemma_digits(ms[i]);
        lemma_digits(m);
        if i < slot {
            assert(order.key(ms[i]) <= order.key(ms[slot]));
            assert(ms[i].card_id != ms[slot].card_id);
        } else if slot < i {
            assert(order.key(ms[slot]) <= order.key(ms[i]));
            assert(ms[slot].card_id != ms[i].card_id);
        }
    }
    lemma_filter_prefix(ms, first, slot);
    lemma_in_order_count(own, order, first);
    lemma_filter_twice(members, side, first);
    lemma_filter_agrees(members, |c: CardView| side(c) && first(c), both);
}

/// The position of a survivor of a chain in its branch counts the survivors before it.
proof fn lemma_survivor_position<S: StackStore>(
    store: &S,
    root_id: u32,
    rest: Seq<CardView>,
    destroyed: Seq<u32>,
    but: u32,
    m: CardView,
    now_ms: u64,
) -> (slot: int)
    requires
        consistent(store, now_ms),
        rest == store.members(root_id, now_ms).filter(
            |c: CardView| survives(c, destroyed) && c.card_id != but,
        ),
        rest.contains(m),
    ensures
        0 <= slot < branch_members(rest, m.branch()).len(),
        branch_members(rest, m.branch())[slot] == m,
        slot == ahead(store, root_id, m, destroyed, but, now_ms),
{
    let all = store.members(root_id, now_ms);
    let kept = |c: CardView| survives(c, destroyed) && c.card_id != but;
    let branch = m.branch();
    assert(distinct_cards(store.members(root_id, now_ms)));
    lemma_distinct_filter(all, kept);
    lemma_filter_contains(all, kept);
    lemma_branch_members(rest, branch);
    let ms = branch_members(rest, branch);
    assert(ms.contains(m));
    let slot = choose|slot: int| 0 <= slot < ms.len() && ms[slot] == m;
    lemma_position_counts(rest, branch, slot);
    let q = |c: CardView| c.branch() == branch && comes_before(c, ms[slot]);
    let direct = |c: CardView| is_ahead(c, m, destroyed, but);
    lemma_filter_twice(all, kept, q);
    let joint = |c: CardView| kept(c) && q(c);
    let j = choose|j: int| 0 <= j < all.len() && all[j] == m;
    assert(store.members(root_id, now_ms)[j].micro() is Stacked);
    lemma_digits(m);
    assert forall|i: int| 0 <= i < all.len() implies joint(#[trigger] all[i]) == direct(all[i]) by {
        let c = store.members(root_id, now_ms)[i];
        assert(c.micro() is Stacked);
        lemma_digits(c);
    }
    lemma_filter_agrees(all, joint, direct);
    slot
}

/// Whether a chain lost one of its cards.
pub open spec fn lost_a_card<S: StackStore>(
    store: &S,
    root_id: u32,
    destroyed: Seq<u32>,
    now_ms: u64,
) -> bool {
    exists|k: int|
        0 <= k < destroyed.len() && (store.card(#[trigger] destroyed[k], now_ms) matches Some(c)
            && row_root(c) == root_id)
}

proof fn lemma_lost_is_affected<S: StackStore>(
    store: &S,
    root_id: u32,
    destroyed: Seq<u32>,
    now_ms: u64,
)
    ensures
        lost_a_card(store, root_id, destroyed, now_ms) <==> affected_roots(
            store,
            destroyed,
            now_ms,
        ).contains(root_id),
{
    law_affected_roots(store, destroyed, now_ms);
    assert forall|c: CardView| #[trigger] c.chain_root() == row_root(c) by {
        lemma_digits(c);
    }
    if lost_a_card(store, root_id, destroyed, now_ms) {
        let k = choose|k: int|
            0 <= k < destroyed.len() && (store.card(#[trigger] destroyed[k], now_ms) matches Some(c)
                && row_root(c) == root_id);
        let c = store.card(destroyed[k], now_ms)->0;
        assert(c.chain_root() == root_id);
    }
    if affected_roots(store, destroyed, now_ms).contains(root_id) {
        let k = choose|k: int|
            0 <= k < destroyed.len() && (store.card(#[trigger] destroyed[k], now_ms) matches Some(c)
                && c.chain_root() == root_id);
        let c = store.card(destroyed[k], now_ms)->0;
        assert(row_root(c) == root_id);
    }
}

/// A survivor of a chain whose root is not lost goes to the slot that counts the
/// survivors before it in its branch, on the same root. It gets a row, one that says so
/// and leaves it in the root's zone, if and only if it is not there already.
pub proof fn law_survivors_close_ranks<S: StackStore>(
    store: &S,
    destroyed: Seq<u32>,
    now_ms: u64,
    root_id: u32,
    m: CardView,
    w: Write,
)
    requires
        consistent(store, now_ms),
        lost_a_card(store, root_id, destroyed, now_ms),
        store.card(root_id, now_ms) is Some,
        !destroyed.contains(root_id),
        store.members(root_id, now_ms).contains(m),
        left_over(m, destroyed),
        w.card_id == m.card_id,
    ensures
        ({
            let slot = ahead(store, root_id, m, destroyed, root_id, now_ms) as u8;
            splice(store, destroyed, now_ms).contains(w) <==> slot_no(m) != slot && w == (Write {
                card_id: m.card_id,
                macro_zone: (store.card(root_id, now_ms)->0).macro_zone,
                micro: Micro::Stacked {
                    root: root_id,
                    branch: (stack_no(m) - 1) as u8,
                    index: slot,
                },
            })
        }),
{
    let root = store.card(root_id, now_ms)->0;
    let rows = splice(store, destroyed, now_ms);
    let all = store.members(root_id, now_ms);
    let left = survivors(store, root_id, destroyed, now_ms);
    let alive = |c: CardView| survives(c, destroyed);
    let kept = |c: CardView| survives(c, destroyed) && c.card_id != root_id;
    let anchor = Anchor { root: root_id, zone: root.macro_zone, promoted: false };
    lemma_lost_is_affected(store, root_id, destroyed, now_ms);
    lemma_digits(m);
    assert forall|i: int| 0 <= i < all.len() implies alive(#[trigger] all[i]) == kept(all[i]) by {
        assert(store.members(root_id, now_ms)[i].card_id != root_id);
    }
    lemma_filter_agrees(all, alive, kept);
    lemma_filter_contains(all, alive);
    lemma_distinct_filter(all, alive);
    assert(left.contains(m));
    let slot = lemma_survivor_position(store, root_id, left, destroyed, root_id, m, now_ms);
    let j = choose|j: int| 0 <= j < all.len() && all[j] == m;
    assert(store.members(root_id, now_ms)[j].chain_root() == root_id);
    assert(m.micro() is Stacked);
    law_placement_fields_bounded(m.flags);
    let meant = slot_write(m, m.branch(), slot, anchor);
    assert(in_place(m, slot, anchor) <==> slot_no(m) == slot as u8);
    if !in_place(m, slot, anchor) {
        law_collapse_leaves_no_gap(left, anchor, m.branch(), slot);
        lemma_chain_in_splice(store, destroyed, now_ms, root_id, meant);
    }
    if rows.contains(w) {
        assert(has_card(left, w.card_id));
        lemma_row_of_chain(store, destroyed, now_ms, root_id, w);
        law_collapse_writes_only_what_moves(left, anchor, w);
        let (c, k) = choose|c: CardView, k: int|
            left.contains(c) && 0 <= k < branch_members(left, c.branch()).len() && branch_members(
                left,
                c.branch(),
            )[k] == c && !in_place(c, k, anchor) && w == #[trigger] slot_write(
                c,
                c.branch(),
                k,
                anchor,
            );
        lemma_distinct(left, c, m);
        lemma_distinct_branch(left, m.branch());
        let ms = branch_members(left, m.branch());
        if k < slot {
            assert(ms[k].card_id != ms[slot].card_id);
        } else if slot < k {
            assert(ms[slot].card_id != ms[k].card_id);
        }
    }
}

/// The rank of a row's branch: up first, then hex, then any other.
pub open spec fn side_rank(c: CardView) -> int {
    if stack_no(c) == STACK_DIR_UP + 1 {
        0
    } else if stack_no(c) == STACK_DIR_HEX + 1 {
        1
    } else {
        2
    }
}

/// Whether `a` is before `b` in line for a lost root: by the rank of their branches, then
/// by slot, then by card.
pub open spec fn in_line_before(a: CardView, b: CardView) -> bool {
    ||| side_rank(a) < side_rank(b)
    ||| side_rank(a) == side_rank(b) && slot_no(a) < slot_no(b)
    ||| side_rank(a) == side_rank(b) && slot_no(a) == slot_no(b) && a.card_id <= b.card_id
}

/// Whether a survivor of a chain is in line before all of them.
pub open spec fn first_in_line<S: StackStore>(
    store: &S,
    root_id: u32,
    heir: CardView,
    destroyed: Seq<u32>,
    now_ms: u64,
) -> bool {
    &&& store.members(root_id, now_ms).contains(heir)
    &&& left_over(heir, destroyed)
    &&& forall|m: CardView| #[trigger]
        store.members(root_id, now_ms).contains(m) && left_over(m, destroyed) ==> in_line_before(
            heir,
            m,
        )
}

/// The heir that the splice promotes is the survivor first in line.
proof fn lemma_heir<S: StackStore>(
    store: &S,
    root_id: u32,
    heir: CardView,
    destroyed: Seq<u32>,
    now_ms: u64,
)
    requires
        consistent(store, now_ms),
        first_in_line(store, root_id, heir, destroyed, now_ms),
    ensures
        survivors(store, root_id, destroyed, now_ms).len() > 0,
        successor(survivors(store, root_id, destroyed, now_ms)) == heir,
{
    let all = store.members(root_id, now_ms);
    let left = survivors(store, root_id, destroyed, now_ms);
    let alive = |c: CardView| survives(c, destroyed);
    lemma_filter_contains(all, alive);
    lemma_distinct_filter(all, alive);
    lemma_digits(heir);
    assert(left.contains(heir));
    law_heir_comes_first(left);
    let got = successor(left);
    assert(left.contains(got));
    lemma_digits(got);
    assert(all.contains(got));
    let i = choose|i: int| 0 <= i < left.len() && left[i] == heir;
    assert(succession_key(got) <= succession_key(left[i]));
    let a = choose|a: int| 0 <= a < all.len() && all[a] == heir;
    let b = choose|b: int| 0 <= b < all.len() && all[b] == got;
    assert(store.members(root_id, now_ms)[a].micro() is Stacked);
    assert(store.members(root_id, now_ms)[b].micro() is Stacked);
    assert(in_line_before(heir, got));
    assert(heir.card_id == got.card_id);
    lemma_distinct(left, heir, got);
}

/// Where a root is lost, the survivor first in line gets one row: it takes the root's
/// place in the root's zone.
pub proof fn law_first_in_line_takes_the_place<S: StackStore>(
    store: &S,
    destroyed: Seq<u32>,
    now_ms: u64,
    root_id: u32,
    heir: CardView,
    w: Write,
)
    requires
        consistent(store, now_ms),
        lost_a_card(store, root_id, destroyed, now_ms),
        destroyed.contains(root_id),
        store.card(root_id, now_ms) is Some,
        first_in_line(store, root_id, heir, destroyed, now_ms),
        w.card_id == heir.card_id,
    ensures
        splice(store, destroyed, now_ms).contains(w) <==> w == (Write {
            card_id: heir.card_id,
            macro_zone: (store.card(root_id, now_ms)->0).macro_zone,
            micro: (store.card(root_id, now_ms)->0).micro(),
        }),
{
    let root = store.card(root_id, now_ms)->0;
    let rows = splice(store, destroyed, now_ms);
    let left = survivors(store, root_id, destroyed, now_ms);
    lemma_lost_is_affected(store, root_id, destroyed, now_ms);
    lemma_heir(store, root_id, heir, destroyed, now_ms);
    let rest = left.filter(|m: CardView| m.card_id != heir.card_id);
    let anchor = Anchor { root: heir.card_id, zone: root.macro_zone, promoted: true };
    let first = Write { card_id: heir.card_id, macro_zone: root.macro_zone, micro: root.micro() };
    let chain = spliced_chain(store, root_id, destroyed, now_ms);
    assert(chain =~= seq![first] + collapsed(rest, anchor, BRANCH_COUNT as nat));
    assert(chain[0] == first);
    lemma_chain_in_splice(store, destroyed, now_ms, root_id, first);
    if rows.contains(w) {
        law_splice_writes_each_card_once(store, destroyed, now_ms);
        let i = choose|i: int| 0 <= i < rows.len() && rows[i] == w;
        let j = choose|j: int| 0 <= j < rows.len() && rows[j] == first;
        if i < j {
            assert(rows[i].card_id != rows[j].card_id);
        } else if j < i {
            assert(rows[j].card_id != rows[i].card_id);
        }
    }
}

/// Where a root is lost, every other survivor gets one row: it goes onto the survivor
/// first in line, in its branch, at the slot that counts the others before it, in the
/// root's zone.
pub proof fn law_others_follow_the_first_in_line<S: StackStore>(
    store: &S,
    destroyed: Seq<u32>,
    now_ms: u64,
    root_id: u32,
    heir: CardView,
    m: CardView,
    w: Write,
)
    requires
        consistent(store, now_ms),
        lost_a_card(store, root_id, destroyed, now_ms),
        destroyed.contains(root_id),
        store.card(root_id, now_ms) is Some,
        first_in_line(store, root_id, heir, destroyed, now_ms),
        store.members(root_id, now_ms).contains(m),
        left_over(m, destroyed),
        m.card_id != heir.card_id,
        w.card_id == m.card_id,
    ensures
        splice(store, destroyed, now_ms).contains(w) <==> w == (Write {
            card_id: m.card_id,
            macro_zone: (store.card(root_id, now_ms)->0).macro_zone,
            micro: Micro::Stacked {
                root: heir.card_id,
                branch: (stack_no(m) - 1) as u8,
                index: ahead(store, root_id, m, destroyed, heir.card_id, now_ms) as u8,
            },
        }),
{
    let root = store.card(root_id, now_ms)->0;
    let rows = splice(store, destroyed, now_ms);
    let all = store.members(root_id, now_ms);
    let left = survivors(store, root_id, destroyed, now_ms);
    let alive = |c: CardView| survives(c, destroyed);
    let other = |c: CardView| c.card_id != heir.card_id;
    let kept = |c: CardView| survives(c, destroyed) && c.card_id != heir.card_id;
    lemma_lost_is_affected(store, root_id, destroyed, now_ms);
    lemma_heir(store, root_id, heir, destroyed, now_ms);
    lemma_digits(m);
    let rest = left.filter(other);
    lemma_filter_twice(all, alive, other);
    lemma_filter_agrees(all, |c: CardView| alive(c) && other(c), kept);
    lemma_filter_contains(all, kept);
    assert(rest == all.filter(kept));
    assert(rest.contains(m));
    let slot = lemma_survivor_position(store, root_id, rest, destroyed, heir.card_id, m, now_ms);
    let anchor = Anchor { root: heir.card_id, zone: root.macro_zone, promoted: true };
    let first = Write { card_id: heir.card_id, macro_zone: root.macro_zone, micro: root.micro() };
    let tail = collapsed(rest, anchor, BRANCH_COUNT as nat);
    let chain = spliced_chain(store, root_id, destroyed, now_ms);
    let meant = slot_write(m, m.branch(), slot, anchor);
    let j = choose|j: int| 0 <= j < all.len() && all[j] == m;
    assert(store.members(root_id, now_ms)[j].micro() is Stacked);
    law_placement_fields_bounded(m.flags);
    assert(chain =~= seq![first] + tail);
    law_collapse_leaves_no_gap(rest, anchor, m.branch(), slot);
    let k = choose|k: int| 0 <= k < tail.len() && tail[k] == meant;
    assert(chain[k + 1] == meant);
    lemma_chain_in_splice(store, destroyed, now_ms, root_id, meant);
    if rows.contains(w) {
        law_splice_writes_each_card_once(store, destroyed, now_ms);
        let a = choose|a: int| 0 <= a < rows.len() && rows[a] == w;
        let b = choose|b: int| 0 <= b < rows.len() && rows[b] == meant;
        if a < b {
            assert(rows[a].card_id != rows[b].card_id);
        } else if b < a {
            assert(rows[b].card_id != rows[a].card_id);
        }
    }
}

/// A lost loose root is the root of a chain that lost a card: its own.
pub proof fn law_lost_root_is_a_loss<S: StackStore>(
    store: &S,
    destroyed: Seq<u32>,
    now_ms: u64,
    root_id: u32,
)
    requires
        consistent(store, now_ms),
        destroyed.contains(root_id),
        store.card(root_id, now_ms) matches Some(root) && stack_no(root) == 0,
    ensures
        lost_a_card(store, root_id, destroyed, now_ms),
{
    let root = store.card(root_id, now_ms)->0;
    assert(root.card_id == root_id);
    let k = choose|k: int| 0 <= k < destroyed.len() && destroyed[k] == root_id;
    assert(store.card(destroyed[k], now_ms) == Some(root));
}

/// Where a chain has a survivor, one of them is first in line.
pub proof fn law_some_survivor_is_first_in_line<S: StackStore>(
    store: &S,
    root_id: u32,
    m: CardView,
    destroyed: Seq<u32>,
    now_ms: u64,
)
    requires
        consistent(store, now_ms),
        store.members(root_id, now_ms).contains(m),
        left_over(m, destroyed),
    ensures
        exists|heir: CardView| first_in_line(store, root_id, heir, destroyed, now_ms),
{
    let all = store.members(root_id, now_ms);
    let left = survivors(store, root_id, destroyed, now_ms);
    let alive = |c: CardView| survives(c, destroyed);
    lemma_filter_contains(all, alive);
    lemma_digits(m);
    assert(left.contains(m));
    law_heir_comes_first(left);
    let heir = successor(left);
    lemma_digits(heir);
    assert(left.contains(heir));
    let a = choose|a: int| 0 <= a < all.len() && all[a] == heir;
    assert(store.members(root_id, now_ms)[a].micro() is Stacked);
    assert forall|c: CardView| #[trigger]
        store.members(root_id, now_ms).contains(c) && left_over(c, destroyed) implies in_line_before(
        heir,
        c,
    ) by {
        lemma_digits(c);
        assert(left.contains(c));
        let i = choose|i: int| 0 <= i < left.len() && left[i] == c;
        assert(succession_key(heir) <= succession_key(left[i]));
        let b = choose|b: int| 0 <= b < all.len() && all[b] == c;
        assert(store.members(root_id, now_ms)[b].micro() is Stacked);
    }
    assert(first_in_line(store, root_id, heir, destroyed, now_ms));
}

/// A splice writes no other cards: every row is for a survivor of a chain that lost a
/// card and whose root is in the store.
pub proof fn law_splice_touches_no_other_card<S: StackStore>(
    store: &S,
    destroyed: Seq<u32>,
    now_ms: u64,
    w: Write,
)
    requires
        consistent(store, now_ms),
        splice(store, destroyed, now_ms).contains(w),
    ensures
        exists|root_id: u32, m: CardView|
            (#[trigger] store.members(root_id, now_ms)).contains(m) && #[trigger] left_over(
                m,
                destroyed,
            ) && m.card_id == w.card_id && lost_a_card(store, root_id, destroyed, now_ms)
                && store.card(root_id, now_ms) is Some,
{
    law_splice_writes_survivors(store, destroyed, now_ms, w);
    let (root_id, m) = choose|root_id: u32, m: CardView|
        affected_roots(store, destroyed, now_ms).contains(root_id) && (#[trigger] store.members(
            root_id,
            now_ms,
        )).contains(m) && #[trigger] survives(m, destroyed) && m.card_id == w.card_id;
    lemma_lost_is_affected(store, root_id, destroyed, now_ms);
    lemma_digits(m);
    lemma_filter_contains(
        store.members(root_id, now_ms),
        |c: CardView| survives(c, destroyed),
    );
    assert(survivors(store, root_id, destroyed, now_ms).contains(m));
    assert(has_card(survivors(store, root_id, destroyed, now_ms), w.card_id));
    lemma_row_of_chain(store, destroyed, now_ms, root_id, w);
    assert(left_over(m, destroyed));
}

} // verus!
