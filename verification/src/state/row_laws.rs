//! What the rows of a plan say together: each card gets one row at most, so that
//! the rows can be applied in any order, and a spliced chain has no gap once they
//! are.

use vstd::prelude::*;
use crate::codec::card_model::Micro;
use crate::codec::stacking::StackBits;
use crate::state::chain::{Order, StackStore, Write};
use crate::state::recipe_state::CardView;
use crate::state::splice::{Anchor, BRANCH_COUNT};
use crate::state::stack::Placement;

verus! {

use crate::codec::card_model::{encodable, law_placement_fields_bounded};
use crate::sequences::{first_where, is_first, lemma_filter_contains, lemma_first_where};
use crate::state::chain::{in_order, insert_in_order, lemma_in_order_contains};
use crate::state::place_laws::{law_drag_carries_outward_cards, law_drag_reroots_and_closes};
use crate::state::splice::{
    affected_roots,
    branch_members,
    collapsed,
    in_place,
    numbering,
    slot_write,
    splice,
    spliced,
    spliced_chain,
    successor,
    survives,
    survivors,
};
use crate::state::splice_laws::{
    law_affected_roots,
    law_collapse_leaves_no_gap,
    law_collapse_writes_only_what_moves,
    law_heir_comes_first,
    lemma_branch_members,
    lemma_numbering,
    lemma_collapsed,
    lemma_spliced,
};
use crate::state::stack::{
    carried,
    departed,
    drags_off,
    placed,
    resolution,
    travelers,
    Resolved,
};

/// What a store of card rows keeps at a time: a row is found under its own id, the
/// members of a root are the rows stacked on it, each once, and no card is stacked
/// on itself.
pub open spec fn consistent<S: StackStore>(store: &S, now_ms: u64) -> bool {
    &&& forall|id: u32| (#[trigger] store.card(id, now_ms)) matches Some(c) ==> c.card_id == id
    &&& forall|root: u32, i: int|
        0 <= i < store.members(root, now_ms).len() ==> {
            let m = #[trigger] store.members(root, now_ms)[i];
            &&& m.micro() is Stacked
            &&& m.chain_root() == root
            &&& m.card_id != root
            &&& store.card(m.card_id, now_ms) == Some(m)
        }
    &&& forall|root: u32| distinct_cards(#[trigger] store.members(root, now_ms))
}

/// Whether no two of the rows are of the same card.
pub open spec fn distinct_cards(cards: Seq<CardView>) -> bool {
    forall|i: int, j: int|
        #![trigger cards[i], cards[j]]
        0 <= i < j < cards.len() ==> cards[i].card_id != cards[j].card_id
}

/// Whether no two of the rows write the same card.
pub open spec fn one_row_each(rows: Seq<Write>) -> bool {
    forall|i: int, j: int|
        #![trigger rows[i], rows[j]]
        0 <= i < j < rows.len() ==> rows[i].card_id != rows[j].card_id
}

/// Whether one of the cards has this id.
pub open spec fn has_card(cards: Seq<CardView>, card_id: u32) -> bool {
    exists|m: CardView| #[trigger] cards.contains(m) && m.card_id == card_id
}

/// Of distinct cards, one with a given id is the one at its position.
pub(crate) proof fn lemma_distinct(cards: Seq<CardView>, a: CardView, b: CardView)
    requires
        distinct_cards(cards),
        cards.contains(a),
        cards.contains(b),
        a.card_id == b.card_id,
    ensures
        a == b,
{
    let i = choose|i: int| 0 <= i < cards.len() && cards[i] == a;
    let j = choose|j: int| 0 <= j < cards.len() && cards[j] == b;
    if i < j {
        assert(cards[i].card_id != cards[j].card_id);
    } else if j < i {
        assert(cards[j].card_id != cards[i].card_id);
    }
}

/// Distinct cards and another one are distinct.
proof fn lemma_distinct_push(cards: Seq<CardView>, m: CardView)
    requires
        distinct_cards(cards),
        !has_card(cards, m.card_id),
    ensures
        distinct_cards(cards.push(m)),
{
    let longer = cards.push(m);
    assert forall|i: int, j: int|
        #![trigger longer[i], longer[j]]
        0 <= i < j < longer.len() implies longer[i].card_id != longer[j].card_id by {
        assert(longer[i] == cards[i]);
        assert(cards.contains(cards[i]));
    }
}

/// The cards before the last of distinct cards are distinct and are not the last.
proof fn lemma_distinct_front(cards: Seq<CardView>)
    requires
        distinct_cards(cards),
        cards.len() > 0,
    ensures
        distinct_cards(cards.drop_last()),
        !has_card(cards.drop_last(), cards.last().card_id),
{
    let front = cards.drop_last();
    assert forall|i: int, j: int|
        #![trigger front[i], front[j]]
        0 <= i < j < front.len() implies front[i].card_id != front[j].card_id by {
        assert(front[i] == cards[i] && front[j] == cards[j]);
    }
    if has_card(front, cards.last().card_id) {
        let m = choose|m: CardView| #[trigger]
            front.contains(m) && m.card_id == cards.last().card_id;
        let i = choose|i: int| 0 <= i < front.len() && front[i] == m;
        assert(cards[i] == m);
        assert(cards[i].card_id != cards[cards.len() - 1].card_id);
    }
}

/// A filter keeps cards distinct.
pub(crate) proof fn lemma_distinct_filter(cards: Seq<CardView>, pred: spec_fn(CardView) -> bool)
    requires
        distinct_cards(cards),
    ensures
        distinct_cards(cards.filter(pred)),
    decreases cards.len(),
{
    reveal(Seq::filter);
    if cards.len() > 0 {
        let front = cards.drop_last();
        lemma_distinct_front(cards);
        lemma_distinct_filter(front, pred);
        lemma_filter_contains(front, pred);
        if pred(cards.last()) {
            assert(!has_card(front.filter(pred), cards.last().card_id)) by {
                if has_card(front.filter(pred), cards.last().card_id) {
                    let m = choose|m: CardView| #[trigger]
                        front.filter(pred).contains(m) && m.card_id == cards.last().card_id;
                    assert(front.contains(m));
                }
            }
            lemma_distinct_push(front.filter(pred), cards.last());
        }
    }
}

/// Inserting a card that is not there keeps cards distinct and adds just that card.
proof fn lemma_distinct_insert(cards: Seq<CardView>, m: CardView, order: Order)
    requires
        distinct_cards(cards),
        !has_card(cards, m.card_id),
    ensures
        distinct_cards(insert_in_order(cards, m, order)),
        forall|id: u32| #[trigger]
            has_card(insert_in_order(cards, m, order), id) ==> id == m.card_id || has_card(
                cards,
                id,
            ),
    decreases cards.len(),
{
    let longer = insert_in_order(cards, m, order);
    if cards.len() == 0 || order.key(cards.last()) <= order.key(m) {
        lemma_distinct_push(cards, m);
        assert forall|id: u32| #[trigger] has_card(longer, id) implies id == m.card_id || has_card(
            cards,
            id,
        ) by {
            let c = choose|c: CardView| #[trigger] longer.contains(c) && c.card_id == id;
            let i = choose|i: int| 0 <= i < longer.len() && longer[i] == c;
            if i < cards.len() {
                assert(cards[i] == c);
                assert(cards.contains(c));
            }
        }
    } else {
        let front = cards.drop_last();
        let last = cards.last();
        lemma_distinct_front(cards);
        assert(!has_card(front, m.card_id)) by {
            if has_card(front, m.card_id) {
                let c = choose|c: CardView| #[trigger]
                    front.contains(c) && c.card_id == m.card_id;
                let i = choose|i: int| 0 <= i < front.len() && front[i] == c;
                assert(cards[i] == c);
                assert(cards.contains(c));
            }
        }
        lemma_distinct_insert(front, m, order);
        let inner = insert_in_order(front, m, order);
        assert(cards[cards.len() - 1] == last);
        assert(cards.contains(last));
        assert(!has_card(inner, last.card_id));
        lemma_distinct_push(inner, last);
        assert forall|id: u32| #[trigger] has_card(longer, id) implies id == m.card_id || has_card(
            cards,
            id,
        ) by {
            let c = choose|c: CardView| #[trigger] longer.contains(c) && c.card_id == id;
            let i = choose|i: int| 0 <= i < longer.len() && longer[i] == c;
            if i < inner.len() {
                assert(inner[i] == c);
                assert(inner.contains(c));
                assert(has_card(inner, id));
                if id != m.card_id {
                    let d = choose|d: CardView| #[trigger] front.contains(d) && d.card_id == id;
                    let k = choose|k: int| 0 <= k < front.len() && front[k] == d;
                    assert(cards[k] == d);
                    assert(cards.contains(d));
                }
            }
        }
    }
}

/// Sorting keeps cards distinct.
proof fn lemma_distinct_in_order(cards: Seq<CardView>, order: Order)
    requires
        distinct_cards(cards),
    ensures
        distinct_cards(in_order(cards, order)),
    decreases cards.len(),
{
    if cards.len() > 0 {
        let front = cards.drop_last();
        lemma_distinct_front(cards);
        lemma_distinct_in_order(front, order);
        lemma_in_order_contains(front, order);
        assert(!has_card(in_order(front, order), cards.last().card_id)) by {
            if has_card(in_order(front, order), cards.last().card_id) {
                let m = choose|m: CardView| #[trigger]
                    in_order(front, order).contains(m) && m.card_id == cards.last().card_id;
                assert(front.contains(m));
            }
        }
        lemma_distinct_insert(in_order(front, order), cards.last(), order);
    }
}

/// The members of a branch are distinct.
pub(crate) proof fn lemma_distinct_branch(members: Seq<CardView>, branch: u8)
    requires
        distinct_cards(members),
    ensures
        distinct_cards(branch_members(members, branch)),
{
    let pred = |m: CardView| m.branch() == branch;
    lemma_distinct_filter(members, pred);
    lemma_distinct_in_order(members.filter(pred), Order::IndexThenCard);
}

/// Numbering distinct cards writes each once.
proof fn lemma_numbering_once(cards: Seq<CardView>, branch: u8, anchor: Anchor)
    requires
        distinct_cards(cards),
    ensures
        one_row_each(numbering(cards, branch, anchor)),
    decreases cards.len(),
{
    if cards.len() > 0 {
        let front = cards.drop_last();
        lemma_distinct_front(cards);
        lemma_numbering_once(front, branch, anchor);
        lemma_numbering(front, branch, anchor);
        let before = numbering(front, branch, anchor);
        let rows = numbering(cards, branch, anchor);
        assert forall|i: int, j: int|
            #![trigger rows[i], rows[j]]
            0 <= i < j < rows.len() implies rows[i].card_id != rows[j].card_id by {
            assert(rows[i] == before[i]);
            if j == before.len() {
                assert(before.contains(before[i]));
                let k = choose|k: int|
                    0 <= k < front.len() && !in_place(front[k], k, anchor) && before[i]
                        == #[trigger] slot_write(front[k], branch, k, anchor);
                assert(front.contains(front[k]));
            } else {
                assert(rows[j] == before[j]);
            }
        }
    }
}

/// Rows followed by rows for other cards write each card once.
proof fn lemma_rows_joined(a: Seq<Write>, b: Seq<Write>)
    requires
        one_row_each(a),
        one_row_each(b),
        forall|v: Write, w: Write| #[trigger]
            a.contains(v) && #[trigger] b.contains(w) ==> v.card_id != w.card_id,
    ensures
        one_row_each(a + b),
{
    let all = a + b;
    assert forall|i: int, j: int|
        #![trigger all[i], all[j]]
        0 <= i < j < all.len() implies all[i].card_id != all[j].card_id by {
        if j < a.len() {
            assert(all[i] == a[i] && all[j] == a[j]);
        } else if i >= a.len() {
            assert(all[i] == b[i - a.len()] && all[j] == b[j - a.len()]);
        } else {
            assert(all[i] == a[i] && all[j] == b[j - a.len()]);
            assert(a.contains(a[i]) && b.contains(b[j - a.len()]));
        }
    }
}

/// Every row of a collapse of some branches is for a member of one of them.
proof fn lemma_collapse_rows(members: Seq<CardView>, anchor: Anchor, count: nat, w: Write)
    requires
        count <= 255,
        collapsed(members, anchor, count).contains(w),
    ensures
        exists|m: CardView| #[trigger]
            members.contains(m) && m.card_id == w.card_id && m.branch() < count,
{
    lemma_collapsed(members, anchor, count);
    let b = choose|b: u8|
        b < count && #[trigger] numbering(branch_members(members, b), b, anchor).contains(w);
    let ms = branch_members(members, b);
    lemma_numbering(ms, b, anchor);
    lemma_branch_members(members, b);
    let k = choose|k: int|
        0 <= k < ms.len() && !in_place(ms[k], k, anchor) && w == #[trigger] slot_write(
            ms[k],
            b,
            k,
            anchor,
        );
    assert(ms.contains(ms[k]));
    assert(members.contains(ms[k]));
}

/// A collapse of distinct cards writes each once.
proof fn lemma_collapse_once(members: Seq<CardView>, anchor: Anchor, count: nat)
    requires
        distinct_cards(members),
        count <= 255,
    ensures
        one_row_each(collapsed(members, anchor, count)),
    decreases count,
{
    if count > 0 {
        let less = (count - 1) as nat;
        let branch = less as u8;
        lemma_collapse_once(members, anchor, less);
        lemma_distinct_branch(members, branch);
        let ms = branch_members(members, branch);
        lemma_numbering_once(ms, branch, anchor);
        lemma_numbering(ms, branch, anchor);
        lemma_branch_members(members, branch);
        let before = collapsed(members, anchor, less);
        let own = numbering(ms, branch, anchor);
        assert forall|v: Write, w: Write| #[trigger]
            before.contains(v) && #[trigger] own.contains(w) implies v.card_id != w.card_id by {
            lemma_collapse_rows(members, anchor, less, v);
            let m = choose|m: CardView| #[trigger]
                members.contains(m) && m.card_id == v.card_id && m.branch() < less;
            let k = choose|k: int|
                0 <= k < ms.len() && !in_place(ms[k], k, anchor) && w == #[trigger] slot_write(
                    ms[k],
                    branch,
                    k,
                    anchor,
                );
            assert(ms.contains(ms[k]));
            if v.card_id == w.card_id {
                lemma_distinct(members, m, ms[k]);
            }
        }
        lemma_rows_joined(before, own);
    }
}

/// The rows of a spliced chain are for survivors of it, and each is written once.
pub(crate) proof fn lemma_chain_once<S: StackStore>(
    store: &S,
    root_id: u32,
    destroyed: Seq<u32>,
    now_ms: u64,
)
    requires
        consistent(store, now_ms),
    ensures
        one_row_each(spliced_chain(store, root_id, destroyed, now_ms)),
        forall|w: Write| #[trigger]
            spliced_chain(store, root_id, destroyed, now_ms).contains(w) ==> has_card(
                survivors(store, root_id, destroyed, now_ms),
                w.card_id,
            ),
{
    let chain = spliced_chain(store, root_id, destroyed, now_ms);
    let left = survivors(store, root_id, destroyed, now_ms);
    if let Some(root) = store.card(root_id, now_ms) {
        lemma_distinct_filter(
            store.members(root_id, now_ms),
            |m: CardView| survives(m, destroyed),
        );
        if !destroyed.contains(root_id) {
            let anchor = Anchor { root: root_id, zone: root.macro_zone, promoted: false };
            lemma_collapse_once(left, anchor, BRANCH_COUNT as nat);
            assert forall|w: Write| #[trigger] chain.contains(w) implies has_card(
                left,
                w.card_id,
            ) by {
                lemma_collapse_rows(left, anchor, BRANCH_COUNT as nat, w);
            }
        } else if left.len() > 0 {
            let heir = successor(left);
            let other = |m: CardView| m.card_id != heir.card_id;
            let rest = left.filter(other);
            let anchor = Anchor { root: heir.card_id, zone: root.macro_zone, promoted: true };
            let first = Write {
                card_id: heir.card_id,
                macro_zone: root.macro_zone,
                micro: root.micro(),
            };
            let tail = collapsed(rest, anchor, BRANCH_COUNT as nat);
            law_heir_comes_first(left);
            lemma_filter_contains(left, other);
            lemma_distinct_filter(left, other);
            lemma_collapse_once(rest, anchor, BRANCH_COUNT as nat);
            assert forall|w: Write| #[trigger] tail.contains(w) implies w.card_id != heir.card_id
                && has_card(left, w.card_id) by {
                lemma_collapse_rows(rest, anchor, BRANCH_COUNT as nat, w);
                let m = choose|m: CardView| #[trigger]
                    rest.contains(m) && m.card_id == w.card_id && m.branch() < BRANCH_COUNT;
                assert(left.contains(m));
            }
            let head = seq![first];
            assert forall|v: Write, w: Write| #[trigger]
                head.contains(v) && #[trigger] tail.contains(w) implies v.card_id != w.card_id by {
                assert(v == first);
            }
            lemma_rows_joined(head, tail);
            assert forall|w: Write| #[trigger] chain.contains(w) implies has_card(
                left,
                w.card_id,
            ) by {
                let k = choose|k: int| 0 <= k < chain.len() && chain[k] == w;
                if k > 0 {
                    assert(tail[k - 1] == w);
                    assert(tail.contains(w));
                } else {
                    assert(left.contains(heir));
                }
            }
        }
    }
}

/// A card survives in one chain only.
proof fn lemma_chains_apart<S: StackStore>(
    store: &S,
    a: u32,
    b: u32,
    destroyed: Seq<u32>,
    now_ms: u64,
    card_id: u32,
)
    requires
        consistent(store, now_ms),
        has_card(survivors(store, a, destroyed, now_ms), card_id),
        has_card(survivors(store, b, destroyed, now_ms), card_id),
    ensures
        a == b,
{
    let alive = |m: CardView| survives(m, destroyed);
    lemma_filter_contains(store.members(a, now_ms), alive);
    lemma_filter_contains(store.members(b, now_ms), alive);
    let x = choose|x: CardView| #[trigger]
        survivors(store, a, destroyed, now_ms).contains(x) && x.card_id == card_id;
    let y = choose|y: CardView| #[trigger]
        survivors(store, b, destroyed, now_ms).contains(y) && y.card_id == card_id;
    let i = choose|i: int|
        0 <= i < store.members(a, now_ms).len() && store.members(a, now_ms)[i] == x;
    let j = choose|j: int|
        0 <= j < store.members(b, now_ms).len() && store.members(b, now_ms)[j] == y;
    assert(store.members(a, now_ms)[i].chain_root() == a);
    assert(store.members(b, now_ms)[j].chain_root() == b);
}

/// Splicing distinct roots writes each card once.
proof fn lemma_spliced_once<S: StackStore>(
    store: &S,
    roots: Seq<u32>,
    destroyed: Seq<u32>,
    now_ms: u64,
)
    requires
        consistent(store, now_ms),
        forall|i: int, j: int| 0 <= i < j < roots.len() ==> roots[i] != roots[j],
    ensures
        one_row_each(spliced(store, roots, destroyed, now_ms)),
    decreases roots.len(),
{
    if roots.len() > 0 {
        let front = roots.drop_last();
        let last = roots.last();
        assert forall|i: int, j: int| 0 <= i < j < front.len() implies front[i] != front[j] by {
            assert(front[i] == roots[i] && front[j] == roots[j]);
        }
        lemma_spliced_once(store, front, destroyed, now_ms);
        lemma_spliced(store, front, destroyed, now_ms);
        lemma_chain_once(store, last, destroyed, now_ms);
        let before = spliced(store, front, destroyed, now_ms);
        let own = spliced_chain(store, last, destroyed, now_ms);
        assert forall|v: Write, w: Write| #[trigger]
            before.contains(v) && #[trigger] own.contains(w) implies v.card_id != w.card_id by {
            let i = choose|i: int|
                0 <= i < front.len() && (#[trigger] spliced_chain(
                    store,
                    front[i],
                    destroyed,
                    now_ms,
                )).contains(v);
            lemma_chain_once(store, front[i], destroyed, now_ms);
            assert(front[i] == roots[i]);
            if v.card_id == w.card_id {
                lemma_chains_apart(store, front[i], last, destroyed, now_ms, v.card_id);
                assert(roots[i] != roots[roots.len() - 1]);
            }
        }
        lemma_rows_joined(before, own);
    }
}

/// Splicing writes no card twice.
pub proof fn law_splice_writes_each_card_once<S: StackStore>(
    store: &S,
    destroyed: Seq<u32>,
    now_ms: u64,
)
    requires
        consistent(store, now_ms),
    ensures
        one_row_each(splice(store, destroyed, now_ms)),
{
    law_affected_roots(store, destroyed, now_ms);
    lemma_spliced_once(store, affected_roots(store, destroyed, now_ms), destroyed, now_ms);
}

/// The place of a card once rows are applied: that of the row for it, else its own.
pub open spec fn place_after(m: CardView, rows: Seq<Write>) -> Micro {
    match first_where(rows, |w: Write| w.card_id == m.card_id) {
        Some(i) => rows[i].micro,
        None => m.micro(),
    }
}

/// A card has the place that the one row for it says.
proof fn lemma_place_written(m: CardView, rows: Seq<Write>, w: Write)
    requires
        one_row_each(rows),
        rows.contains(w),
        w.card_id == m.card_id,
    ensures
        place_after(m, rows) == w.micro,
{
    let pred = |v: Write| v.card_id == m.card_id;
    let i = choose|i: int| 0 <= i < rows.len() && rows[i] == w;
    assert forall|j: int| 0 <= j < i implies !pred(#[trigger] rows[j]) by {
        assert(rows[j].card_id != rows[i].card_id);
    }
    assert(is_first(rows, pred, i));
    lemma_first_where(rows, pred, i);
}

/// A card with no row stays where it is.
proof fn lemma_place_kept(m: CardView, rows: Seq<Write>)
    requires
        forall|w: Write| #[trigger] rows.contains(w) ==> w.card_id != m.card_id,
    ensures
        place_after(m, rows) == m.micro(),
{
    let pred = |v: Write| v.card_id == m.card_id;
    assert forall|j: int| 0 <= j < rows.len() implies !pred(#[trigger] rows[j]) by {
        assert(rows.contains(rows[j]));
    }
    lemma_first_where(rows, pred, 0);
}

/// A row of a splice for a survivor of a chain is a row of that chain.
pub(crate) proof fn lemma_row_of_chain<S: StackStore>(
    store: &S,
    destroyed: Seq<u32>,
    now_ms: u64,
    root_id: u32,
    w: Write,
)
    requires
        consistent(store, now_ms),
        splice(store, destroyed, now_ms).contains(w),
        has_card(survivors(store, root_id, destroyed, now_ms), w.card_id),
    ensures
        spliced_chain(store, root_id, destroyed, now_ms).contains(w),
{
    let roots = affected_roots(store, destroyed, now_ms);
    lemma_spliced(store, roots, destroyed, now_ms);
    let i = choose|i: int|
        0 <= i < roots.len() && (#[trigger] spliced_chain(
            store,
            roots[i],
            destroyed,
            now_ms,
        )).contains(w);
    lemma_chain_once(store, roots[i], destroyed, now_ms);
    lemma_chains_apart(store, roots[i], root_id, destroyed, now_ms, w.card_id);
}

/// A row of an affected chain is a row of the splice.
pub(crate) proof fn lemma_chain_in_splice<S: StackStore>(
    store: &S,
    destroyed: Seq<u32>,
    now_ms: u64,
    root_id: u32,
    w: Write,
)
    requires
        affected_roots(store, destroyed, now_ms).contains(root_id),
        spliced_chain(store, root_id, destroyed, now_ms).contains(w),
    ensures
        splice(store, destroyed, now_ms).contains(w),
{
    let roots = affected_roots(store, destroyed, now_ms);
    lemma_spliced(store, roots, destroyed, now_ms);
    let i = choose|i: int| 0 <= i < roots.len() && roots[i] == root_id;
    assert(spliced_chain(store, roots[i], destroyed, now_ms).contains(w));
}

/// Once the rows of a splice are applied, a chain that lost members has no gap: the
/// survivors of each branch stand at slots 0, 1, 2, .. on the same root, in the order
/// they had.
pub proof fn law_spliced_chain_has_no_gap<S: StackStore>(
    store: &S,
    destroyed: Seq<u32>,
    now_ms: u64,
    root_id: u32,
    branch: u8,
    slot: int,
)
    requires
        consistent(store, now_ms),
        affected_roots(store, destroyed, now_ms).contains(root_id),
        store.card(root_id, now_ms) is Some,
        !destroyed.contains(root_id),
        0 <= slot < branch_members(survivors(store, root_id, destroyed, now_ms), branch).len(),
    ensures
        place_after(
            branch_members(survivors(store, root_id, destroyed, now_ms), branch)[slot],
            splice(store, destroyed, now_ms),
        ) == (Micro::Stacked { root: root_id, branch, index: slot as u8 }),
{
    let root = store.card(root_id, now_ms)->0;
    let left = survivors(store, root_id, destroyed, now_ms);
    let rows = splice(store, destroyed, now_ms);
    let anchor = Anchor { root: root_id, zone: root.macro_zone, promoted: false };
    let ms = branch_members(left, branch);
    let m = ms[slot];
    let alive = |c: CardView| survives(c, destroyed);
    law_splice_writes_each_card_once(store, destroyed, now_ms);
    lemma_filter_contains(store.members(root_id, now_ms), alive);
    lemma_distinct_filter(store.members(root_id, now_ms), alive);
    lemma_branch_members(left, branch);
    lemma_distinct_branch(left, branch);
    assert(ms.contains(m));
    assert(left.contains(m));
    law_placement_fields_bounded(m.flags);
    if !in_place(m, slot, anchor) {
        law_collapse_leaves_no_gap(left, anchor, branch, slot);
        let w = slot_write(m, branch, slot, anchor);
        lemma_chain_in_splice(store, destroyed, now_ms, root_id, w);
        lemma_place_written(m, rows, w);
    } else {
        assert forall|w: Write| #[trigger] rows.contains(w) implies w.card_id != m.card_id by {
            if w.card_id == m.card_id {
                assert(has_card(left, w.card_id));
                lemma_row_of_chain(store, destroyed, now_ms, root_id, w);
                law_collapse_writes_only_what_moves(left, anchor, w);
                let (c, k) = choose|c: CardView, k: int|
                    left.contains(c) && 0 <= k < branch_members(left, c.branch()).len()
                        && branch_members(left, c.branch())[k] == c && !in_place(c, k, anchor) && w
                        == #[trigger] slot_write(c, c.branch(), k, anchor);
                lemma_distinct(left, c, m);
                if k < slot {
                    assert(ms[k].card_id != ms[slot].card_id);
                } else if slot < k {
                    assert(ms[slot].card_id != ms[k].card_id);
                }
            }
        }
        lemma_place_kept(m, rows);
        let i = choose|i: int|
            0 <= i < store.members(root_id, now_ms).len() && store.members(root_id, now_ms)[i] == m;
        assert(store.members(root_id, now_ms)[i].micro() is Stacked);
    }
}

/// Once the rows of a splice are applied, the heir of a lost root stands where the
/// root stood, and the other survivors of each branch stand at slots 0, 1, 2, .. on
/// the heir, in the order they had.
pub proof fn law_spliced_heir_has_the_chain<S: StackStore>(
    store: &S,
    destroyed: Seq<u32>,
    now_ms: u64,
    root_id: u32,
    branch: u8,
    slot: int,
)
    requires
        consistent(store, now_ms),
        affected_roots(store, destroyed, now_ms).contains(root_id),
        store.card(root_id, now_ms) is Some,
        destroyed.contains(root_id),
        survivors(store, root_id, destroyed, now_ms).len() > 0,
    ensures
        ({
            let root = store.card(root_id, now_ms)->0;
            let left = survivors(store, root_id, destroyed, now_ms);
            let heir = successor(left);
            let rest = left.filter(|m: CardView| m.card_id != heir.card_id);
            let rows = splice(store, destroyed, now_ms);
            &&& place_after(heir, rows) == root.micro()
            &&& 0 <= slot < branch_members(rest, branch).len() ==> place_after(
                branch_members(rest, branch)[slot],
                rows,
            ) == (Micro::Stacked { root: heir.card_id, branch, index: slot as u8 })
        }),
{
    let root = store.card(root_id, now_ms)->0;
    let left = survivors(store, root_id, destroyed, now_ms);
    let heir = successor(left);
    let rest = left.filter(|m: CardView| m.card_id != heir.card_id);
    let rows = splice(store, destroyed, now_ms);
    let chain = spliced_chain(store, root_id, destroyed, now_ms);
    let anchor = Anchor { root: heir.card_id, zone: root.macro_zone, promoted: true };
    let tail = collapsed(rest, anchor, BRANCH_COUNT as nat);
    let first = Write { card_id: heir.card_id, macro_zone: root.macro_zone, micro: root.micro() };
    law_splice_writes_each_card_once(store, destroyed, now_ms);
    assert(chain =~= seq![first] + tail);
    assert(chain[0] == first);
    lemma_chain_in_splice(store, destroyed, now_ms, root_id, first);
    lemma_place_written(heir, rows, first);
    if 0 <= slot < branch_members(rest, branch).len() {
        let m = branch_members(rest, branch)[slot];
        let w = slot_write(m, branch, slot, anchor);
        lemma_branch_members(rest, branch);
        assert(branch_members(rest, branch).contains(m));
        law_placement_fields_bounded(m.flags);
        law_collapse_leaves_no_gap(rest, anchor, branch, slot);
        let k = choose|k: int| 0 <= k < tail.len() && tail[k] == w;
        assert(chain[k + 1] == w);
        lemma_chain_in_splice(store, destroyed, now_ms, root_id, w);
        lemma_place_written(m, rows, w);
    }
}

/// A placement writes no card twice.
pub proof fn law_place_writes_each_card_once<S: StackStore>(
    store: &S,
    card_id: u32,
    placement: Placement,
    caller: u32,
    now_ms: u64,
    bits: spec_fn(u16) -> StackBits,
)
    requires
        consistent(store, now_ms),
    ensures
        placed(store, card_id, placement, caller, now_ms, bits) matches Ok(rows) ==> one_row_each(
            rows,
        ),
{
    if let Ok(rows) = placed(store, card_id, placement, caller, now_ms, bits) {
        let source = store.card(card_id, now_ms)->0;
        let cards = travelers(store, card_id, source, placement, now_ms);
        if drags_off(source, placement) {
            lemma_drag_once(store, card_id, placement, caller, now_ms, bits);
        } else {
            let resolved = resolution(store, card_id, source, placement, caller, now_ms, bits);
            if resolved matches Ok(Resolved::Place { .. }) {
                assert forall|i: int, j: int|
                    #![trigger rows[i], rows[j]]
                    0 <= i < j < rows.len() implies rows[i].card_id != rows[j].card_id by {
                    let later = store.members(card_id, now_ms)[j - 1];
                    assert(rows[j].card_id == later.card_id);
                    assert(later.card_id != card_id);
                    if i > 0 {
                        let earlier = store.members(card_id, now_ms)[i - 1];
                        assert(rows[i].card_id == earlier.card_id);
                        assert(distinct_cards(store.members(card_id, now_ms)));
                        assert(earlier.card_id != later.card_id);
                    }
                }
            }
        }
    }
}

/// A drag off a chain writes no card twice.
proof fn lemma_drag_once<S: StackStore>(
    store: &S,
    card_id: u32,
    placement: Placement,
    caller: u32,
    now_ms: u64,
    bits: spec_fn(u16) -> StackBits,
)
    requires
        consistent(store, now_ms),
        placed(store, card_id, placement, caller, now_ms, bits) is Ok,
        drags_off(store.card(card_id, now_ms)->0, placement),
    ensures
        one_row_each(placed(store, card_id, placement, caller, now_ms, bits)->Ok_0),
{
    let rows = placed(store, card_id, placement, caller, now_ms, bits)->Ok_0;
    let source = store.card(card_id, now_ms)->0;
    let run = carried(store, source, now_ms);
    let n = 1 + run.len() as int;
    law_drag_reroots_and_closes(store, card_id, source, placement, caller, now_ms, bits);
    let gone = departed(card_id, run);
    let closing = splice(store, gone, now_ms);
    law_splice_writes_each_card_once(store, gone, now_ms);
    let moved = rows.take(n);
    assert(rows =~= moved + closing);
    assert forall|k: int| 0 <= k < run.len() implies (#[trigger] moved[k + 1]).card_id
        == run[k].card_id by {
        assert(rows[k + 1] == moved[k + 1]);
    }
    if let Micro::Stacked { root, branch, index } = source.micro() {
        assert forall|k: int| 0 <= k < run.len() implies (#[trigger] run[k]).card_id != card_id by {
            law_drag_carries_outward_cards(store, source, root, branch, index, now_ms, k);
            let ms = store.members(root, now_ms);
            let i = choose|i: int| 0 <= i < ms.len() && ms[i] == run[k];
            assert(store.card(store.members(root, now_ms)[i].card_id, now_ms) == Some(ms[i]));
            if run[k].card_id == card_id {
                assert(source.index() == index);
            }
        }
        assert forall|a: int, b: int|
            #![trigger run[a], run[b]]
            0 <= a < b < run.len() implies run[a].card_id != run[b].card_id by {
            law_drag_carries_outward_cards(store, source, root, branch, index, now_ms, a);
            law_drag_carries_outward_cards(store, source, root, branch, index, now_ms, b);
            let ms = store.members(root, now_ms);
            assert(distinct_cards(store.members(root, now_ms)));
            if run[a].card_id == run[b].card_id {
                lemma_distinct(ms, run[a], run[b]);
            }
        }
    }
    assert forall|i: int, j: int|
        #![trigger moved[i], moved[j]]
        0 <= i < j < moved.len() implies moved[i].card_id != moved[j].card_id by {
        assert(moved[(j - 1) + 1].card_id == run[j - 1].card_id);
        if i > 0 {
            assert(moved[(i - 1) + 1].card_id == run[i - 1].card_id);
        }
    }
    assert forall|v: Write, w: Write| #[trigger]
        moved.contains(v) && #[trigger] closing.contains(w) implies v.card_id != w.card_id by {
        let i = choose|i: int| 0 <= i < moved.len() && moved[i] == v;
        if i > 0 {
            assert(moved[(i - 1) + 1].card_id == run[i - 1].card_id);
        }
    }
    lemma_rows_joined(moved, closing);
}

/// The stacked rows of the cards that a placement moves fit their encoding: stored,
/// they read back as planned.
pub proof fn law_moved_rows_can_be_stored<S: StackStore>(
    store: &S,
    card_id: u32,
    placement: Placement,
    caller: u32,
    now_ms: u64,
    bits: spec_fn(u16) -> StackBits,
    i: int,
)
    ensures
        placed(store, card_id, placement, caller, now_ms, bits) matches Ok(rows) ==> {
            let moved = travelers(
                store,
                card_id,
                store.card(card_id, now_ms)->0,
                placement,
                now_ms,
            );
            0 <= i < rows.len() && i <= moved.len() && rows[i].micro is Stacked ==> encodable(
                rows[i].micro,
            )
        },
{
    if let Ok(rows) = placed(store, card_id, placement, caller, now_ms, bits) {
        let source = store.card(card_id, now_ms)->0;
        let moved = travelers(store, card_id, source, placement, now_ms);
        if 0 < i <= moved.len() {
            let m = moved[i - 1];
            law_placement_fields_bounded(m.flags);
            if drags_off(source, placement) {
                if let Micro::Stacked { root, branch, index } = source.micro() {
                    law_drag_carries_outward_cards(
                        store,
                        source,
                        root,
                        branch,
                        index,
                        now_ms,
                        i - 1,
                    );
                }
            }
        }
    }
}

} // verus!
