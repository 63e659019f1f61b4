//! In which order a splice lists its rows.

use vstd::prelude::*;
use crate::codec::card_model::Micro;
use crate::state::chain::{StackStore, Write};
use crate::state::recipe_state::CardView;
use crate::state::splice::{Anchor, BRANCH_COUNT};

verus! {

use crate::sequences::lemma_filter_contains;
use crate::state::chain::{law_chain_root_by_the_row, law_in_order, Order};
use crate::state::rank_laws::row_root;
use crate::state::row_laws::{consistent, lemma_chain_once};
use crate::state::splice::{
    affected_roots,
    branch_members,
    collapsed,
    numbering,
    splice,
    spliced,
    spliced_chain,
    successor,
    survives,
    survivors,
};
use crate::state::splice_laws::law_affected_roots;

/// Whether a row of a chain is listed before another: it is the row of the root that the other goes
/// to, or it goes to the same root on a lower side, or on the same side at a lower slot.
pub open spec fn listed_before(a: Write, b: Write) -> bool {
    b.micro matches Micro::Stacked { root, branch, index } && (a.card_id == root || (
    a.micro matches Micro::Stacked { root: other, branch: side, index: slot } && other == root && (
    side < branch || (side == branch && slot < index))))
}

/// Whether a row goes to a root, on a side below `sides`, at a slot below `slots`.
spec fn goes_to(w: Write, root: u32, sides: int, slots: int) -> bool {
    w.micro matches Micro::Stacked { root: to, branch, index } && to == root && branch < sides
        && index < slots
}

proof fn lemma_numbering_order(ms: Seq<CardView>, branch: u8, anchor: Anchor)
    requires
        ms.len() <= 256,
    ensures
        ({
            let rows = numbering(ms, branch, anchor);
            &&& forall|i: int|
                0 <= i < rows.len() ==> goes_to(
                    #[trigger] rows[i],
                    anchor.root,
                    branch + 1,
                    ms.len() as int,
                ) && rows[i].micro->branch == branch
            &&& forall|i: int, j: int|
                0 <= i < j < rows.len() ==> listed_before(#[trigger] rows[i], #[trigger] rows[j])
        }),
    decreases ms.len(),
{
    if ms.len() > 0 {
        lemma_numbering_order(ms.drop_last(), branch, anchor);
    }
}

proof fn lemma_collapsed_order(members: Seq<CardView>, anchor: Anchor, count: nat)
    requires
        members.len() <= 256,
        count <= 255,
    ensures
        ({
            let rows = collapsed(members, anchor, count);
            &&& forall|i: int|
                0 <= i < rows.len() ==> goes_to(
                    #[trigger] rows[i],
                    anchor.root,
                    count as int,
                    256,
                )
            &&& forall|i: int, j: int|
                0 <= i < j < rows.len() ==> listed_before(#[trigger] rows[i], #[trigger] rows[j])
        }),
    decreases count,
{
    if count > 0 {
        let branch = (count - 1) as u8;
        let before = collapsed(members, anchor, (count - 1) as nat);
        let pred = |m: CardView| m.branch() == branch;
        lemma_collapsed_order(members, anchor, (count - 1) as nat);
        members.lemma_filter_len(pred);
        law_in_order(members.filter(pred), Order::IndexThenCard);
        let own = numbering(branch_members(members, branch), branch, anchor);
        lemma_numbering_order(branch_members(members, branch), branch, anchor);
        let rows = before + own;
        assert forall|i: int| 0 <= i < rows.len() implies goes_to(
            #[trigger] rows[i],
            anchor.root,
            count as int,
            256,
        ) by {
            if i < before.len() {
                assert(rows[i] == before[i]);
            } else {
                assert(rows[i] == own[i - before.len()]);
            }
        }
        assert forall|i: int, j: int| 0 <= i < j < rows.len() implies listed_before(
            #[trigger] rows[i],
            #[trigger] rows[j],
        ) by {
            if j < before.len() {
                assert(rows[i] == before[i] && rows[j] == before[j]);
            } else if i < before.len() {
                assert(rows[i] == before[i] && rows[j] == own[j - before.len()]);
                assert(goes_to(before[i], anchor.root, count - 1, 256));
            } else {
                assert(rows[i] == own[i - before.len()] && rows[j] == own[j - before.len()]);
            }
        }
    }
}

/// The rows that splice a chain of at most 256 cards are listed with the new root first, if there is
/// one, then side by side, and on each side by slot.
pub proof fn law_rows_of_a_chain_stand_in_order<S: StackStore>(
    store: &S,
    root_id: u32,
    destroyed: Seq<u32>,
    now_ms: u64,
    i: int,
    j: int,
)
    requires
        store.members(root_id, now_ms).len() <= 256,
        0 <= i < j < spliced_chain(store, root_id, destroyed, now_ms).len(),
    ensures
        listed_before(
            spliced_chain(store, root_id, destroyed, now_ms)[i],
            spliced_chain(store, root_id, destroyed, now_ms)[j],
        ),
{
    let root = store.card(root_id, now_ms)->0;
    let left = survivors(store, root_id, destroyed, now_ms);
    store.members(root_id, now_ms).lemma_filter_len(|m: CardView| survives(m, destroyed));
    if !destroyed.contains(root_id) {
        let anchor = Anchor { root: root_id, zone: root.macro_zone, promoted: false };
        lemma_collapsed_order(left, anchor, BRANCH_COUNT as nat);
    } else {
        let heir = successor(left).card_id;
        let others = left.filter(|m: CardView| m.card_id != heir);
        left.lemma_filter_len(|m: CardView| m.card_id != heir);
        let anchor = Anchor { root: heir, zone: root.macro_zone, promoted: true };
        lemma_collapsed_order(others, anchor, BRANCH_COUNT as nat);
        let rows = collapsed(others, anchor, BRANCH_COUNT as nat);
        let all = spliced_chain(store, root_id, destroyed, now_ms);
        assert(all[j] == rows[j - 1]);
        assert(goes_to(rows[j - 1], heir, BRANCH_COUNT as int, 256));
        if i > 0 {
            assert(all[i] == rows[i - 1]);
        }
    }
}

/// The row of a chain is that of a card stacked on its root.
proof fn lemma_row_has_the_root<S: StackStore>(
    store: &S,
    root_id: u32,
    destroyed: Seq<u32>,
    now_ms: u64,
    i: int,
)
    requires
        consistent(store, now_ms),
        0 <= i < spliced_chain(store, root_id, destroyed, now_ms).len(),
    ensures
        store.card(spliced_chain(store, root_id, destroyed, now_ms)[i].card_id, now_ms) matches Some(
            c,
        ) && row_root(c) == root_id,
{
    let rows = spliced_chain(store, root_id, destroyed, now_ms);
    let left = survivors(store, root_id, destroyed, now_ms);
    lemma_chain_once(store, root_id, destroyed, now_ms);
    assert(rows.contains(rows[i]));
    let m = choose|m: CardView| #[trigger] left.contains(m) && m.card_id == rows[i].card_id;
    let members = store.members(root_id, now_ms);
    lemma_filter_contains(members, |m: CardView| survives(m, destroyed));
    assert(members.contains(m));
    let k = choose|k: int| 0 <= k < members.len() && members[k] == m;
    assert(members[k].chain_root() == root_id);
    law_chain_root_by_the_row(m);
}

proof fn lemma_spliced_order<S: StackStore>(
    store: &S,
    roots: Seq<u32>,
    destroyed: Seq<u32>,
    now_ms: u64,
    i: int,
)
    requires
        consistent(store, now_ms),
        0 <= i < spliced(store, roots, destroyed, now_ms).len(),
    ensures
        store.card(spliced(store, roots, destroyed, now_ms)[i].card_id, now_ms) matches Some(c)
            && roots.contains(row_root(c)),
    decreases roots.len(),
{
    if roots.len() > 0 {
        let front = spliced(store, roots.drop_last(), destroyed, now_ms);
        let rows = spliced(store, roots, destroyed, now_ms);
        if i < front.len() {
            lemma_spliced_order(store, roots.drop_last(), destroyed, now_ms, i);
            let r = row_root(store.card(rows[i].card_id, now_ms)->0);
            let k = choose|k: int| 0 <= k < roots.len() - 1 && roots.drop_last()[k] == r;
            assert(roots[k] == r);
        } else {
            lemma_row_has_the_root(store, roots.last(), destroyed, now_ms, i - front.len());
            assert(roots[roots.len() - 1] == roots.last());
        }
    }
}

proof fn lemma_spliced_pair<S: StackStore>(
    store: &S,
    roots: Seq<u32>,
    destroyed: Seq<u32>,
    now_ms: u64,
    i: int,
    j: int,
)
    requires
        consistent(store, now_ms),
        forall|root: u32| (#[trigger] store.members(root, now_ms)).len() <= 256,
        forall|p: int, q: int| 0 <= p < q < roots.len() ==> roots[p] < roots[q],
        0 <= i < j < spliced(store, roots, destroyed, now_ms).len(),
    ensures
        ({
            let a = spliced(store, roots, destroyed, now_ms)[i];
            let b = spliced(store, roots, destroyed, now_ms)[j];
            store.card(a.card_id, now_ms) matches Some(c) && (store.card(
                b.card_id,
                now_ms,
            ) matches Some(d) && row_root(c) <= row_root(d) && (row_root(c) == row_root(d)
                ==> listed_before(a, b)))
        }),
    decreases roots.len(),
{
    if roots.len() > 0 {
        let few = roots.drop_last();
        let front = spliced(store, few, destroyed, now_ms);
        let rows = spliced(store, roots, destroyed, now_ms);
        if j < front.len() {
            lemma_spliced_pair(store, few, destroyed, now_ms, i, j);
        } else {
            lemma_row_has_the_root(store, roots.last(), destroyed, now_ms, j - front.len());
            if i < front.len() {
                lemma_spliced_order(store, few, destroyed, now_ms, i);
                let r = row_root(store.card(rows[i].card_id, now_ms)->0);
                let k = choose|k: int| 0 <= k < few.len() && few[k] == r;
                assert(roots[k] == r);
                assert(roots[roots.len() - 1] == roots.last());
            } else {
                lemma_row_has_the_root(store, roots.last(), destroyed, now_ms, i - front.len());
                law_rows_of_a_chain_stand_in_order(
                    store,
                    roots.last(),
                    destroyed,
                    now_ms,
                    i - front.len(),
                    j - front.len(),
                );
            }
        }
    }
}

/// A splice lists its rows chain by chain, in the order of the roots the cards had, and the rows of
/// a chain in their order.
pub proof fn law_splice_lists_chains_by_root<S: StackStore>(
    store: &S,
    destroyed: Seq<u32>,
    now_ms: u64,
    i: int,
    j: int,
)
    requires
        consistent(store, now_ms),
        forall|root: u32| (#[trigger] store.members(root, now_ms)).len() <= 256,
        0 <= i < j < splice(store, destroyed, now_ms).len(),
    ensures
        ({
            let a = splice(store, destroyed, now_ms)[i];
            let b = splice(store, destroyed, now_ms)[j];
            store.card(a.card_id, now_ms) matches Some(c) && (store.card(
                b.card_id,
                now_ms,
            ) matches Some(d) && row_root(c) <= row_root(d) && (row_root(c) == row_root(d)
                ==> listed_before(a, b)))
        }),
{
    law_affected_roots(store, destroyed, now_ms);
    lemma_spliced_pair(
        store,
        affected_roots(store, destroyed, now_ms),
        destroyed,
        now_ms,
        i,
        j,
    );
}

} // verus!
