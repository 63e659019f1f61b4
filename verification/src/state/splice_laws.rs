//! What splicing guarantees of the chains it closes.

use vstd::prelude::*;
use crate::codec::card_model::Micro;
use crate::state::chain::{Order, StackStore, Write};
use crate::state::recipe_state::CardView;
use crate::state::splice::{Anchor, BRANCH_COUNT};

verus! {

use crate::codec::card_model::law_placement_fields_bounded;
use crate::sequences::lemma_filter_contains;
use crate::state::chain::{law_in_order, lemma_in_order_contains, ordered};
use crate::state::splice::{
    affected_roots,
    branch_members,
    collapsed,
    in_place,
    insert_ascending,
    numbering,
    slot_write,
    splice,
    spliced,
    spliced_chain,
    succession_key,
    successor,
    survives,
    survivors,
};

/// The rows of a numbering: one per member that is not in place, for its slot.
pub(crate) proof fn lemma_numbering(ms: Seq<CardView>, branch: u8, anchor: Anchor)
    ensures
        forall|k: int|
            0 <= k < ms.len() && !in_place(ms[k], k, anchor) ==> numbering(
                ms,
                branch,
                anchor,
            ).contains(#[trigger] slot_write(ms[k], branch, k, anchor)),
        forall|w: Write| #[trigger]
            numbering(ms, branch, anchor).contains(w) ==> exists|k: int|
                0 <= k < ms.len() && !in_place(ms[k], k, anchor) && w == #[trigger] slot_write(
                    ms[k],
                    branch,
                    k,
                    anchor,
                ),
    decreases ms.len(),
{
    if ms.len() > 0 {
        let front = ms.drop_last();
        let last = ms.len() - 1;
        lemma_numbering(front, branch, anchor);
        let all = numbering(ms, branch, anchor);
        let before = numbering(front, branch, anchor);
        assert forall|k: int|
            0 <= k < ms.len() && !in_place(ms[k], k, anchor) implies all.contains(
            #[trigger] slot_write(ms[k], branch, k, anchor),
        ) by {
            if k < last {
                assert(front[k] == ms[k]);
                let w = slot_write(front[k], branch, k, anchor);
                assert(before.contains(w));
                let i = choose|i: int| 0 <= i < before.len() && before[i] == w;
                assert(all[i] == w);
            } else {
                assert(all[before.len() as int] == slot_write(ms[k], branch, k, anchor));
            }
        }
        assert forall|w: Write| #[trigger] all.contains(w) implies exists|k: int|
            0 <= k < ms.len() && !in_place(ms[k], k, anchor) && w == #[trigger] slot_write(
                ms[k],
                branch,
                k,
                anchor,
            ) by {
            let i = choose|i: int| 0 <= i < all.len() && all[i] == w;
            if i < before.len() {
                assert(before[i] == w);
                assert(before.contains(w));
                let k = choose|k: int|
                    0 <= k < front.len() && !in_place(front[k], k, anchor) && w
                        == #[trigger] slot_write(front[k], branch, k, anchor);
                assert(ms[k] == front[k]);
                assert(w == slot_write(ms[k], branch, k, anchor));
            } else {
                assert(w == slot_write(ms[last], branch, last, anchor));
            }
        }
    }
}

/// The rows of a collapse are those of its branches.
pub(crate) proof fn lemma_collapsed(members: Seq<CardView>, anchor: Anchor, count: nat)
    requires
        count <= 255,
    ensures
        forall|w: Write| #[trigger]
            collapsed(members, anchor, count).contains(w) <==> exists|b: u8|
                b < count && #[trigger] numbering(
                    branch_members(members, b),
                    b,
                    anchor,
                ).contains(w),
    decreases count,
{
    if count > 0 {
        lemma_collapsed(members, anchor, (count - 1) as nat);
        let before = collapsed(members, anchor, (count - 1) as nat);
        let last = (count - 1) as u8;
        let own = numbering(branch_members(members, last), last, anchor);
        let all = collapsed(members, anchor, count);
        assert forall|w: Write| #[trigger] all.contains(w) <==> exists|b: u8|
            b < count && #[trigger] numbering(branch_members(members, b), b, anchor).contains(w) by {
            if all.contains(w) {
                let i = choose|i: int| 0 <= i < all.len() && all[i] == w;
                if i < before.len() {
                    assert(before[i] == w);
                    assert(before.contains(w));
                } else {
                    assert(own[i - before.len()] == w);
                    assert(own.contains(w));
                }
            }
            if exists|b: u8|
                b < count && #[trigger] numbering(branch_members(members, b), b, anchor).contains(
                    w,
                ) {
                let b = choose|b: u8|
                    b < count && #[trigger] numbering(
                        branch_members(members, b),
                        b,
                        anchor,
                    ).contains(w);
                if b < last {
                    assert(before.contains(w));
                    let i = choose|i: int| 0 <= i < before.len() && before[i] == w;
                    assert(all[i] == w);
                } else {
                    let i = choose|i: int| 0 <= i < own.len() && own[i] == w;
                    assert(all[before.len() + i] == w);
                }
            }
        }
    }
}

/// The rows of a splice are those of its chains.
pub(crate) proof fn lemma_spliced<S: StackStore>(
    store: &S,
    roots: Seq<u32>,
    destroyed: Seq<u32>,
    now_ms: u64,
)
    ensures
        forall|w: Write| #[trigger]
            spliced(store, roots, destroyed, now_ms).contains(w) <==> exists|i: int|
                0 <= i < roots.len() && (#[trigger] spliced_chain(
                    store,
                    roots[i],
                    destroyed,
                    now_ms,
                )).contains(w),
    decreases roots.len(),
{
    if roots.len() > 0 {
        let front = roots.drop_last();
        lemma_spliced(store, front, destroyed, now_ms);
        let before = spliced(store, front, destroyed, now_ms);
        let own = spliced_chain(store, roots.last(), destroyed, now_ms);
        let all = spliced(store, roots, destroyed, now_ms);
        assert forall|w: Write| #[trigger] all.contains(w) <==> exists|i: int|
            0 <= i < roots.len() && (#[trigger] spliced_chain(
                store,
                roots[i],
                destroyed,
                now_ms,
            )).contains(w) by {
            if all.contains(w) {
                let i = choose|i: int| 0 <= i < all.len() && all[i] == w;
                if i < before.len() {
                    assert(before[i] == w);
                    assert(before.contains(w));
                    let j = choose|j: int|
                        0 <= j < front.len() && (#[trigger] spliced_chain(
                            store,
                            front[j],
                            destroyed,
                            now_ms,
                        )).contains(w);
                    assert(front[j] == roots[j]);
                    assert(spliced_chain(store, roots[j], destroyed, now_ms).contains(w));
                } else {
                    assert(own[i - before.len()] == w);
                    assert(spliced_chain(
                        store,
                        roots[roots.len() - 1],
                        destroyed,
                        now_ms,
                    ).contains(w));
                }
            }
            if exists|i: int|
                0 <= i < roots.len() && (#[trigger] spliced_chain(
                    store,
                    roots[i],
                    destroyed,
                    now_ms,
                )).contains(w) {
                let j = choose|j: int|
                    0 <= j < roots.len() && (#[trigger] spliced_chain(
                        store,
                        roots[j],
                        destroyed,
                        now_ms,
                    )).contains(w);
                if j < front.len() {
                    assert(front[j] == roots[j]);
                    assert(before.contains(w));
                    let i = choose|i: int| 0 <= i < before.len() && before[i] == w;
                    assert(all[i] == w);
                } else {
                    let i = choose|i: int| 0 <= i < own.len() && own[i] == w;
                    assert(all[before.len() + i] == w);
                }
            }
        }
    }
}

/// A branch's list holds exactly the members of that branch.
pub(crate) proof fn lemma_branch_members(members: Seq<CardView>, branch: u8)
    ensures
        forall|m: CardView| #[trigger]
            branch_members(members, branch).contains(m) <==> members.contains(m) && m.branch()
                == branch,
{
    let pred = |m: CardView| m.branch() == branch;
    lemma_filter_contains(members, pred);
    lemma_in_order_contains(members.filter(pred), Order::IndexThenCard);
}

/// Every surviving member of a chain is listed in its branch, at a slot of its own;
/// within a branch the slots follow the order of the indices the members had.
pub proof fn law_branches_keep_members_in_order(members: Seq<CardView>, m: CardView)
    requires
        members.contains(m),
    ensures
        m.branch() < BRANCH_COUNT,
        branch_members(members, m.branch()).contains(m),
        forall|b: u8| b != m.branch() ==> !(#[trigger] branch_members(members, b)).contains(m),
        forall|i: int, j: int|
            #![trigger branch_members(members, m.branch())[i], branch_members(
                members,
                m.branch(),
            )[j]]
            0 <= i < j < branch_members(members, m.branch()).len() ==> branch_members(
                members,
                m.branch(),
            )[i].index() <= branch_members(members, m.branch())[j].index(),
{
    law_placement_fields_bounded(m.flags);
    lemma_branch_members(members, m.branch());
    assert forall|b: u8| b != m.branch() implies !(#[trigger] branch_members(
        members,
        b,
    )).contains(m) by {
        lemma_branch_members(members, b);
    }
    let pred = |c: CardView| c.branch() == m.branch();
    law_in_order(members.filter(pred), Order::IndexThenCard);
    let ms = branch_members(members, m.branch());
    assert(ordered(ms, Order::IndexThenCard));
    assert forall|i: int, j: int| #![trigger ms[i], ms[j]] 0 <= i < j < ms.len() implies ms[i].index()
        <= ms[j].index() by {
        let order = Order::IndexThenCard;
        assert(order.key(ms[i]) <= order.key(ms[j]));
    }
}

/// Collapsing leaves no gap: the k-th member of every branch either already sits at
/// slot k of the anchor's root, or gets a row that puts it there.
pub proof fn law_collapse_leaves_no_gap(
    members: Seq<CardView>,
    anchor: Anchor,
    branch: u8,
    slot: int,
)
    requires
        branch < BRANCH_COUNT,
        0 <= slot < branch_members(members, branch).len(),
    ensures
        in_place(branch_members(members, branch)[slot], slot, anchor) || collapsed(
            members,
            anchor,
            BRANCH_COUNT as nat,
        ).contains(slot_write(branch_members(members, branch)[slot], branch, slot, anchor)),
{
    let ms = branch_members(members, branch);
    lemma_numbering(ms, branch, anchor);
    lemma_collapsed(members, anchor, BRANCH_COUNT as nat);
    if !in_place(ms[slot], slot, anchor) {
        assert(numbering(ms, branch, anchor).contains(slot_write(ms[slot], branch, slot, anchor)));
    }
}

/// Collapsing writes nothing else: every row puts a member of the chain, which is
/// not in place, at its slot on the anchor's root, in its own branch and in the
/// anchor's zone.
pub proof fn law_collapse_writes_only_what_moves(
    members: Seq<CardView>,
    anchor: Anchor,
    w: Write,
)
    requires
        collapsed(members, anchor, BRANCH_COUNT as nat).contains(w),
    ensures
        exists|m: CardView, slot: int|
            members.contains(m) && 0 <= slot < branch_members(members, m.branch()).len()
                && branch_members(members, m.branch())[slot] == m && !in_place(m, slot, anchor) && w
                == #[trigger] slot_write(m, m.branch(), slot, anchor),
{
    lemma_collapsed(members, anchor, BRANCH_COUNT as nat);
    let b = choose|b: u8|
        b < BRANCH_COUNT && #[trigger] numbering(branch_members(members, b), b, anchor).contains(w);
    let ms = branch_members(members, b);
    lemma_numbering(ms, b, anchor);
    lemma_branch_members(members, b);
    let k = choose|k: int|
        0 <= k < ms.len() && !in_place(ms[k], k, anchor) && w == #[trigger] slot_write(
            ms[k],
            b,
            k,
            anchor,
        );
    assert(ms.contains(ms[k]));
    assert(w == slot_write(ms[k], ms[k].branch(), k, anchor));
}

/// A chain without gaps gets no row.
pub proof fn law_gap_free_chain_is_left_alone(members: Seq<CardView>, anchor: Anchor)
    requires
        forall|b: u8, k: int|
            b < BRANCH_COUNT && 0 <= k < branch_members(members, b).len() ==> in_place(
                #[trigger] branch_members(members, b)[k],
                k,
                anchor,
            ),
    ensures
        collapsed(members, anchor, BRANCH_COUNT as nat) == Seq::<Write>::empty(),
{
    let all = collapsed(members, anchor, BRANCH_COUNT as nat);
    if all.len() > 0 {
        let w = all[0];
        assert(all.contains(w));
        law_collapse_writes_only_what_moves(members, anchor, w);
        let (m, slot) = choose|m: CardView, slot: int|
            members.contains(m) && 0 <= slot < branch_members(members, m.branch()).len()
                && branch_members(members, m.branch())[slot] == m && !in_place(m, slot, anchor) && w
                == #[trigger] slot_write(m, m.branch(), slot, anchor);
        law_branches_keep_members_in_order(members, m);
        assert(in_place(branch_members(members, m.branch())[slot], slot, anchor));
    }
    assert(all =~= Seq::<Write>::empty());
}

/// The heir of a destroyed root is the survivor that comes first: up before hex
/// before down, then by slot, then by card.
pub proof fn law_heir_comes_first(members: Seq<CardView>)
    requires
        members.len() > 0,
    ensures
        members.contains(successor(members)),
        forall|i: int|
            0 <= i < members.len() ==> succession_key(successor(members)) <= succession_key(
                #[trigger] members[i],
            ),
    decreases members.len(),
{
    if members.len() > 1 {
        let front = members.drop_last();
        law_heir_comes_first(front);
        let best = successor(front);
        let j = choose|j: int| 0 <= j < front.len() && front[j] == best;
        assert(members[j] == best);
        assert(members[members.len() - 1] == members.last());
        assert forall|i: int| 0 <= i < members.len() implies succession_key(successor(members))
            <= succession_key(#[trigger] members[i]) by {
            if i < front.len() {
                assert(front[i] == members[i]);
            }
        }
    } else {
        assert(members[0] == successor(members));
    }
}

/// The affected roots are exactly the chain roots of the destroyed cards that
/// exist, each once, ascending.
pub proof fn law_affected_roots<S: StackStore>(store: &S, destroyed: Seq<u32>, now_ms: u64)
    ensures
        forall|i: int, j: int|
            0 <= i < j < affected_roots(store, destroyed, now_ms).len() ==> affected_roots(
                store,
                destroyed,
                now_ms,
            )[i] < affected_roots(store, destroyed, now_ms)[j],
        forall|r: u32| #[trigger]
            affected_roots(store, destroyed, now_ms).contains(r) <==> exists|k: int|
                0 <= k < destroyed.len() && (store.card(#[trigger] destroyed[k], now_ms) matches Some(c) && c.chain_root()
                    == r),
    decreases destroyed.len(),
{
    if destroyed.len() > 0 {
        let front = destroyed.drop_last();
        law_affected_roots(store, front, now_ms);
        let before = affected_roots(store, front, now_ms);
        let all = affected_roots(store, destroyed, now_ms);
        let last = destroyed.len() - 1;
        if let Some(c) = store.card(destroyed.last(), now_ms) {
            lemma_insert_ascending(before, c.chain_root());
        }
        assert forall|r: u32| #[trigger] all.contains(r) <==> exists|k: int|
            0 <= k < destroyed.len() && (store.card(#[trigger] destroyed[k], now_ms) matches Some(c) && c.chain_root()
                == r) by {
            if before.contains(r) {
                let k = choose|k: int|
                    0 <= k < front.len() && (store.card(#[trigger] front[k], now_ms) matches Some(c) && c.chain_root()
                        == r);
                assert(destroyed[k] == front[k]);
            }
            if exists|k: int|
                0 <= k < destroyed.len() && (store.card(#[trigger] destroyed[k], now_ms) matches Some(c) && c.chain_root()
                    == r) {
                let k = choose|k: int|
                    0 <= k < destroyed.len() && (store.card(#[trigger] destroyed[k], now_ms) matches Some(c) && c.chain_root()
                        == r);
                if k < last {
                    assert(front[k] == destroyed[k]);
                }
            }
            assert(destroyed[last] == destroyed.last());
        }
    }
}

proof fn lemma_insert_ascending(s: Seq<u32>, x: u32)
    requires
        forall|i: int, j: int| 0 <= i < j < s.len() ==> s[i] < s[j],
    ensures
        forall|i: int, j: int|
            0 <= i < j < insert_ascending(s, x).len() ==> insert_ascending(s, x)[i]
                < insert_ascending(s, x)[j],
        forall|y: u32| #[trigger]
            insert_ascending(s, x).contains(y) <==> s.contains(y) || y == x,
    decreases s.len(),
{
    let r = insert_ascending(s, x);
    if s.len() == 0 || s.last() < x {
        assert forall|i: int, j: int| 0 <= i < j < r.len() implies r[i] < r[j] by {
            if j == s.len() && i < s.len() - 1 {
                assert(s[i] < s[s.len() - 1]);
            }
        }
        assert forall|y: u32| #[trigger] r.contains(y) <==> s.contains(y) || y == x by {
            if s.contains(y) {
                let k = choose|k: int| 0 <= k < s.len() && s[k] == y;
                assert(r[k] == y);
            }
            assert(r[s.len() as int] == x);
        }
    } else if s.last() == x {
        assert(s[s.len() - 1] == x);
    } else {
        let front = s.drop_last();
        lemma_insert_ascending(front, x);
        let inner = insert_ascending(front, x);
        assert forall|i: int, j: int| 0 <= i < j < r.len() implies r[i] < r[j] by {
            if j == inner.len() {
                assert(inner.contains(inner[i]));
                if inner[i] != x {
                    let k = choose|k: int| 0 <= k < front.len() && front[k] == inner[i];
                    assert(s[k] < s[s.len() - 1]);
                }
            }
        }
        assert forall|y: u32| #[trigger] r.contains(y) <==> s.contains(y) || y == x by {
            if r.contains(y) {
                let k = choose|k: int| 0 <= k < r.len() && r[k] == y;
                if k < inner.len() {
                    assert(inner[k] == y);
                    assert(inner.contains(y));
                    if y != x {
                        let n = choose|n: int| 0 <= n < front.len() && front[n] == y;
                        assert(s[n] == y);
                    }
                } else {
                    assert(s[s.len() - 1] == y);
                }
            }
            if s.contains(y) || y == x {
                if y == s.last() {
                    assert(r[inner.len() as int] == y);
                } else {
                    if s.contains(y) {
                        let n = choose|n: int| 0 <= n < s.len() && s[n] == y;
                        assert(front[n] == y);
                    }
                    assert(inner.contains(y));
                    let k = choose|k: int| 0 <= k < inner.len() && inner[k] == y;
                    assert(r[k] == y);
                }
            }
        }
    }
}

/// Where the root survives, a spliced row moves a member of the root's zone to
/// another slot and leaves all else of its place as it is: root, branch and zone.
pub proof fn law_collapse_only_shifts_slots(members: Seq<CardView>, root: u32, zone: u64, w: Write)
    requires
        forall|i: int|
            0 <= i < members.len() ==> (#[trigger] members[i]).macro_zone == zone
                && members[i].micro() is Stacked && members[i].chain_root() == root,
        collapsed(
            members,
            Anchor { root, zone, promoted: false },
            BRANCH_COUNT as nat,
        ).contains(w),
    ensures
        exists|i: int|
            0 <= i < members.len() && (#[trigger] members[i]).card_id == w.card_id && w.macro_zone
                == members[i].macro_zone && (w.micro matches Micro::Stacked {
                root: to,
                branch,
                index,
            } && members[i].micro() matches Micro::Stacked {
                root: from,
                branch: side,
                index: slot,
            } && to == from && branch == side && index != slot),
{
    let anchor = Anchor { root, zone, promoted: false };
    law_collapse_writes_only_what_moves(members, anchor, w);
    let (m, slot) = choose|m: CardView, slot: int|
        members.contains(m) && 0 <= slot < branch_members(members, m.branch()).len()
            && branch_members(members, m.branch())[slot] == m && !in_place(m, slot, anchor) && w
            == #[trigger] slot_write(m, m.branch(), slot, anchor);
    let i = choose|i: int| 0 <= i < members.len() && members[i] == m;
    assert(members[i].card_id == w.card_id);
}

/// Splicing never writes a destroyed or a dead card: every row is for a survivor of
/// an affected chain.
pub proof fn law_splice_writes_survivors<S: StackStore>(
    store: &S,
    destroyed: Seq<u32>,
    now_ms: u64,
    w: Write,
)
    requires
        splice(store, destroyed, now_ms).contains(w),
    ensures
        !destroyed.contains(w.card_id),
        exists|root: u32, m: CardView|
            affected_roots(store, destroyed, now_ms).contains(root) && (#[trigger] store.members(
                root,
                now_ms,
            )).contains(m) && #[trigger] survives(m, destroyed) && m.card_id == w.card_id,
{
    let roots = affected_roots(store, destroyed, now_ms);
    lemma_spliced(store, roots, destroyed, now_ms);
    let i = choose|i: int|
        0 <= i < roots.len() && (#[trigger] spliced_chain(
            store,
            roots[i],
            destroyed,
            now_ms,
        )).contains(w);
    let root_id = roots[i];
    assert(roots.contains(root_id));
    let chain = spliced_chain(store, root_id, destroyed, now_ms);
    let left = survivors(store, root_id, destroyed, now_ms);
    let alive = |m: CardView| survives(m, destroyed);
    lemma_filter_contains(store.members(root_id, now_ms), alive);
    let root = store.card(root_id, now_ms)->0;
    let m = if !destroyed.contains(root_id) {
        let anchor = Anchor { root: root_id, zone: root.macro_zone, promoted: false };
        law_collapse_writes_only_what_moves(left, anchor, w);
        let (m, slot) = choose|m: CardView, slot: int|
            left.contains(m) && 0 <= slot < branch_members(left, m.branch()).len()
                && branch_members(left, m.branch())[slot] == m && !in_place(m, slot, anchor) && w
                == #[trigger] slot_write(m, m.branch(), slot, anchor);
        m
    } else {
        law_heir_comes_first(left);
        let heir = successor(left);
        let other = |m: CardView| m.card_id != heir.card_id;
        lemma_filter_contains(left, other);
        let rest = left.filter(other);
        let anchor = Anchor { root: heir.card_id, zone: root.macro_zone, promoted: true };
        let tail = collapsed(rest, anchor, BRANCH_COUNT as nat);
        let k = choose|k: int| 0 <= k < chain.len() && chain[k] == w;
        if k == 0 {
            heir
        } else {
            assert(tail[k - 1] == w);
            assert(tail.contains(w));
            law_collapse_writes_only_what_moves(rest, anchor, w);
            let (m, slot) = choose|m: CardView, slot: int|
                rest.contains(m) && 0 <= slot < branch_members(rest, m.branch()).len()
                    && branch_members(rest, m.branch())[slot] == m && !in_place(m, slot, anchor)
                    && w == #[trigger] slot_write(m, m.branch(), slot, anchor);
            m
        }
    };
    assert(left.contains(m));
    assert(store.members(root_id, now_ms).contains(m));
    assert(survives(m, destroyed));
}

/// After a member is lost, the chain on a surviving root has no gap: the k-th
/// survivor of every branch sits at slot k already or is written to it, on the same
/// root, in the root's zone.
pub proof fn law_splice_closes_chain<S: StackStore>(
    store: &S,
    destroyed: Seq<u32>,
    now_ms: u64,
    root_id: u32,
    branch: u8,
    slot: int,
)
    requires
        affected_roots(store, destroyed, now_ms).contains(root_id),
        store.card(root_id, now_ms) is Some,
        !destroyed.contains(root_id),
        branch < BRANCH_COUNT,
        0 <= slot < branch_members(survivors(store, root_id, destroyed, now_ms), branch).len(),
    ensures
        ({
            let m = branch_members(survivors(store, root_id, destroyed, now_ms), branch)[slot];
            let zone = (store.card(root_id, now_ms)->0).macro_zone;
            let anchor = Anchor { root: root_id, zone, promoted: false };
            in_place(m, slot, anchor) || splice(store, destroyed, now_ms).contains(
                slot_write(m, branch, slot, anchor),
            )
        }),
{
    let left = survivors(store, root_id, destroyed, now_ms);
    let zone = (store.card(root_id, now_ms)->0).macro_zone;
    let anchor = Anchor { root: root_id, zone, promoted: false };
    law_collapse_leaves_no_gap(left, anchor, branch, slot);
    let roots = affected_roots(store, destroyed, now_ms);
    lemma_spliced(store, roots, destroyed, now_ms);
    let i = choose|i: int| 0 <= i < roots.len() && roots[i] == root_id;
    assert(spliced_chain(store, roots[i], destroyed, now_ms) == collapsed(
        left,
        anchor,
        BRANCH_COUNT as nat,
    ));
}

/// After a root is lost, its heir takes the root's place and zone, and every other
/// survivor is written onto the heir, numbered from 0 in its branch.
pub proof fn law_splice_promotes_heir<S: StackStore>(
    store: &S,
    destroyed: Seq<u32>,
    now_ms: u64,
    root_id: u32,
    branch: u8,
    slot: int,
)
    requires
        affected_roots(store, destroyed, now_ms).contains(root_id),
        store.card(root_id, now_ms) is Some,
        destroyed.contains(root_id),
        survivors(store, root_id, destroyed, now_ms).len() > 0,
    ensures
        ({
            let root = store.card(root_id, now_ms)->0;
            let left = survivors(store, root_id, destroyed, now_ms);
            let heir = successor(left).card_id;
            let rest = left.filter(|m: CardView| m.card_id != heir);
            &&& splice(store, destroyed, now_ms).contains(
                Write { card_id: heir, macro_zone: root.macro_zone, micro: root.micro() },
            )
            &&& branch < BRANCH_COUNT && 0 <= slot < branch_members(rest, branch).len()
                ==> splice(store, destroyed, now_ms).contains(
                Write {
                    card_id: branch_members(rest, branch)[slot].card_id,
                    macro_zone: root.macro_zone,
                    micro: Micro::Stacked { root: heir, branch, index: slot as u8 },
                },
            )
        }),
{
    let root = store.card(root_id, now_ms)->0;
    let left = survivors(store, root_id, destroyed, now_ms);
    let heir = successor(left).card_id;
    let rest = left.filter(|m: CardView| m.card_id != heir);
    let anchor = Anchor { root: heir, zone: root.macro_zone, promoted: true };
    let roots = affected_roots(store, destroyed, now_ms);
    lemma_spliced(store, roots, destroyed, now_ms);
    let i = choose|i: int| 0 <= i < roots.len() && roots[i] == root_id;
    let chain = spliced_chain(store, roots[i], destroyed, now_ms);
    let tail = collapsed(rest, anchor, BRANCH_COUNT as nat);
    let first = Write { card_id: heir, macro_zone: root.macro_zone, micro: root.micro() };
    assert(chain =~= seq![first] + tail);
    assert(chain[0] == first);
    assert(chain.contains(first));
    if branch < BRANCH_COUNT && 0 <= slot < branch_members(rest, branch).len() {
        law_collapse_leaves_no_gap(rest, anchor, branch, slot);
        let w = slot_write(branch_members(rest, branch)[slot], branch, slot, anchor);
        assert(tail.contains(w));
        let k = choose|k: int| 0 <= k < tail.len() && tail[k] == w;
        assert(chain[k + 1] == w);
        assert(chain.contains(w));
    }
}

} // verus!
