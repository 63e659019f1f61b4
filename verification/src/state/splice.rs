//! Splicing: closing the gaps in the chains that lost a card.

use vstd::prelude::*;
use crate::codec::card_model::{is_dead, stack_branch, stack_index, Micro};
use crate::codec::packed::{STACK_DIR_HEX, STACK_DIR_UP};
use crate::state::chain::{chain_root_of, sort_cards, Order, StackStore, Write};
use crate::state::recipe_state::CardView;

verus! {

use crate::state::chain::in_order;
use crate::sequences::{lemma_filter_ends, lemma_filter_next};

/// Number of branches a chain can have.
pub const BRANCH_COUNT: u8 = 15;

/// `s` (ascending) with `x` added, unless it is there.
pub open spec fn insert_ascending(s: Seq<u32>, x: u32) -> Seq<u32>
    decreases s.len(),
{
    if s.len() == 0 || s.last() < x {
        s.push(x)
    } else if s.last() == x {
        s
    } else {
        insert_ascending(s.drop_last(), x).push(s.last())
    }
}

/// The roots of the chains the destroyed cards were in, ascending.
pub open spec fn affected_roots<S: StackStore>(store: &S, destroyed: Seq<u32>, now_ms: u64) -> Seq<
    u32,
>
    decreases destroyed.len(),
{
    if destroyed.len() == 0 {
        Seq::empty()
    } else {
        let before = affected_roots(store, destroyed.drop_last(), now_ms);
        match store.card(destroyed.last(), now_ms) {
            Some(c) => insert_ascending(before, c.chain_root()),
            None => before,
        }
    }
}

/// Whether a member outlives the destruction.
pub open spec fn survives(m: CardView, destroyed: Seq<u32>) -> bool {
    !destroyed.contains(m.card_id) && !m.dead()
}

/// The members of a chain that outlive the destruction.
pub open spec fn survivors<S: StackStore>(
    store: &S,
    root_id: u32,
    destroyed: Seq<u32>,
    now_ms: u64,
) -> Seq<CardView> {
    store.members(root_id, now_ms).filter(|m: CardView| survives(m, destroyed))
}

/// Precedence of a branch in the succession: up, then hex, then down.
pub open spec fn branch_rank(branch: u8) -> int {
    if branch == STACK_DIR_UP {
        0
    } else if branch == STACK_DIR_HEX {
        1
    } else {
        2
    }
}

/// Precedence of a member in the succession: by branch, then slot, then card.
pub open spec fn succession_key(m: CardView) -> int {
    (branch_rank(m.branch()) * 256 + m.index()) * 0x1_0000_0000 + m.card_id
}

/// The member that comes first in the succession.
pub open spec fn successor(members: Seq<CardView>) -> CardView
    decreases members.len(),
{
    if members.len() <= 1 {
        members[0]
    } else {
        let best = successor(members.drop_last());
        if succession_key(members.last()) < succession_key(best) {
            members.last()
        } else {
            best
        }
    }
}

/// Where a chain's survivors go: the root they hang from, the zone they are in,
/// and whether that root has just been promoted.
pub struct Anchor {
    pub root: u32,
    pub zone: u64,
    pub promoted: bool,
}

/// Whether a member already has slot `slot` on the anchor's root.
pub open spec fn in_place(m: CardView, slot: int, anchor: Anchor) -> bool {
    !anchor.promoted && (m.micro() matches Micro::Stacked { root, index, .. } && root == anchor.root
        && index == slot as u8)
}

/// The row that puts a member at slot `slot` of a branch.
pub open spec fn slot_write(m: CardView, branch: u8, slot: int, anchor: Anchor) -> Write {
    Write {
        card_id: m.card_id,
        macro_zone: anchor.zone,
        micro: Micro::Stacked { root: anchor.root, branch, index: slot as u8 },
    }
}

/// The rows that number the members of a branch, in this order, from 0; a member
/// that is in place gets none.
pub open spec fn numbering(ordered: Seq<CardView>, branch: u8, anchor: Anchor) -> Seq<Write>
    decreases ordered.len(),
{
    if ordered.len() == 0 {
        Seq::empty()
    } else {
        let before = numbering(ordered.drop_last(), branch, anchor);
        let slot = ordered.len() - 1;
        if in_place(ordered.last(), slot, anchor) {
            before
        } else {
            before.push(slot_write(ordered.last(), branch, slot, anchor))
        }
    }
}

/// The members of one branch by slot, then by card.
pub open spec fn branch_members(members: Seq<CardView>, branch: u8) -> Seq<CardView> {
    in_order(members.filter(|m: CardView| m.branch() == branch), Order::IndexThenCard)
}

/// The rows that close the gaps in the first `count` branches.
pub open spec fn collapsed(members: Seq<CardView>, anchor: Anchor, count: nat) -> Seq<Write>
    decreases count,
{
    if count == 0 {
        Seq::empty()
    } else {
        let branch = (count - 1) as u8;
        collapsed(members, anchor, (count - 1) as nat) + numbering(
            branch_members(members, branch),
            branch,
            anchor,
        )
    }
}

/// The rows that splice the chain of `root_id`.
pub open spec fn spliced_chain<S: StackStore>(
    store: &S,
    root_id: u32,
    destroyed: Seq<u32>,
    now_ms: u64,
) -> Seq<Write> {
    match store.card(root_id, now_ms) {
        None => Seq::empty(),
        Some(root) => {
            let left = survivors(store, root_id, destroyed, now_ms);
            if !destroyed.contains(root_id) {
                collapsed(
                    left,
                    Anchor { root: root_id, zone: root.macro_zone, promoted: false },
                    BRANCH_COUNT as nat,
                )
            } else if left.len() == 0 {
                Seq::empty()
            } else {
                let heir = successor(left).card_id;
                seq![
                    Write { card_id: heir, macro_zone: root.macro_zone, micro: root.micro() },
                ] + collapsed(
                    left.filter(|m: CardView| m.card_id != heir),
                    Anchor { root: heir, zone: root.macro_zone, promoted: true },
                    BRANCH_COUNT as nat,
                )
            }
        },
    }
}

/// The rows that splice the chains of `roots`, chain by chain.
pub open spec fn spliced<S: StackStore>(
    store: &S,
    roots: Seq<u32>,
    destroyed: Seq<u32>,
    now_ms: u64,
) -> Seq<Write>
    decreases roots.len(),
{
    if roots.len() == 0 {
        Seq::empty()
    } else {
        spliced(store, roots.drop_last(), destroyed, now_ms) + spliced_chain(
            store,
            roots.last(),
            destroyed,
            now_ms,
        )
    }
}

/// The rows that splice every chain that lost one of the destroyed cards.
pub open spec fn splice<S: StackStore>(store: &S, destroyed: Seq<u32>, now_ms: u64) -> Seq<Write> {
    spliced(store, affected_roots(store, destroyed, now_ms), destroyed, now_ms)
}

/// Compute the writes that splice the chains that lost a card. For each chain
/// root that had a member (or itself) destroyed:
///   - if the root was destroyed, promote the lowest-ranked survivor to the root's
///     own place (rank: up-branch, then hex, then down; lowest index) and re-root
///     the rest onto it;
///   - then collapse: renumber every surviving branch's members contiguously, so a
///     hole left by a destroyed member closes. A member whose root and index are
///     unchanged gets no write.
pub fn plan_splice<S: StackStore>(store: &S, destroyed: &[u32], now_ms: u64) -> (r: Vec<Write>)
    ensures
        r@ == splice(store, destroyed@, now_ms),
{
    let roots = collect_roots(store, destroyed, now_ms);
    let mut writes: Vec<Write> = Vec::new();
    let mut i: usize = 0;
    while i < roots.len()
        invariant
            i <= roots.len(),
            writes@ == spliced(store, roots@.take(i as int), destroyed@, now_ms),
        decreases roots.len() - i,
    {
        let mut chain = splice_chain(store, roots[i], destroyed, now_ms);
        writes.append(&mut chain);
        assert(roots@.take(i + 1).drop_last() =~= roots@.take(i as int));
        i += 1;
    }
    assert(roots@.take(roots@.len() as int) =~= roots@);
    writes
}

/// The roots of the chains the destroyed cards were in, ascending.
fn collect_roots<S: StackStore>(store: &S, destroyed: &[u32], now_ms: u64) -> (r: Vec<u32>)
    ensures
        r@ == affected_roots(store, destroyed@, now_ms),
{
    let mut roots: Vec<u32> = Vec::new();
    let mut i: usize = 0;
    while i < destroyed.len()
        invariant
            i <= destroyed.len(),
            roots@ == affected_roots(store, destroyed@.take(i as int), now_ms),
        decreases destroyed.len() - i,
    {
        assert(destroyed@.take(i + 1).drop_last() =~= destroyed@.take(i as int));
        if let Some(c) = store.card_at(destroyed[i], now_ms) {
            add_ascending(&mut roots, chain_root_of(&c));
        }
        i += 1;
    }
    assert(destroyed@.take(destroyed@.len() as int) =~= destroyed@);
    roots
}

/// Add `x` to an ascending list, unless it is there.
fn add_ascending(list: &mut Vec<u32>, x: u32)
    ensures
        final(list)@ == insert_ascending(old(list)@, x),
{
    let mut place: usize = list.len();
    while place > 0 && list[place - 1] > x
        invariant
            place <= list.len(),
            *list == *old(list),
            forall|j: int| place <= j < list.len() ==> #[trigger] list@[j] > x,
        decreases place,
    {
        place -= 1;
    }
    proof {
        lemma_ascending_place(list@, x, place as int);
    }
    if place == 0 || list[place - 1] < x {
        list.insert(place, x);
    }
}

proof fn lemma_ascending_place(s: Seq<u32>, x: u32, place: int)
    requires
        0 <= place <= s.len(),
        forall|i: int| place <= i < s.len() ==> #[trigger] s[i] > x,
        place > 0 ==> s[place - 1] <= x,
    ensures
        insert_ascending(s, x) == if place > 0 && s[place - 1] == x {
            s
        } else {
            s.insert(place, x)
        },
    decreases s.len(),
{
    if place == s.len() {
        assert(s.insert(place, x) =~= s.push(x));
    } else {
        assert(s[s.len() - 1] == s.last());
        lemma_ascending_place(s.drop_last(), x, place);
        assert(s.drop_last().push(s.last()) =~= s);
        assert(s.drop_last().insert(place, x).push(s.last()) =~= s.insert(place, x));
    }
}

/// Whether a list holds `x`.
fn listed(list: &[u32], x: u32) -> (r: bool)
    ensures
        r == list@.contains(x),
{
    let mut i: usize = 0;
    while i < list.len()
        invariant
            i <= list.len(),
            forall|j: int| 0 <= j < i ==> list@[j] != x,
        decreases list.len() - i,
    {
        if list[i] == x {
            return true;
        }
        i += 1;
    }
    false
}

/// The members that outlive the destruction.
fn keep_survivors(members: &Vec<CardView>, destroyed: &[u32]) -> (r: Vec<CardView>)
    ensures
        r@ == members@.filter(|m: CardView| survives(m, destroyed@)),
{
    let ghost pred = |m: CardView| survives(m, destroyed@);
    let mut r: Vec<CardView> = Vec::new();
    let mut i: usize = 0;
    proof {
        lemma_filter_ends(members@, pred);
    }
    while i < members.len()
        invariant
            i <= members.len(),
            pred == (|m: CardView| survives(m, destroyed@)),
            r@ == members@.take(i as int).filter(pred),
        decreases members.len() - i,
    {
        let m = members[i];
        proof {
            lemma_filter_next(members@, pred, i as int);
        }
        if !listed(destroyed, m.card_id) && !is_dead(m.flags) {
            r.push(m);
        }
        i += 1;
    }
    r
}

/// The members other than one card.
fn keep_others(members: &Vec<CardView>, card_id: u32) -> (r: Vec<CardView>)
    ensures
        r@ == members@.filter(|m: CardView| m.card_id != card_id),
{
    let ghost pred = |m: CardView| m.card_id != card_id;
    let mut r: Vec<CardView> = Vec::new();
    let mut i: usize = 0;
    proof {
        lemma_filter_ends(members@, pred);
    }
    while i < members.len()
        invariant
            i <= members.len(),
            pred == (|m: CardView| m.card_id != card_id),
            r@ == members@.take(i as int).filter(pred),
        decreases members.len() - i,
    {
        let m = members[i];
        proof {
            lemma_filter_next(members@, pred, i as int);
        }
        if m.card_id != card_id {
            r.push(m);
        }
        i += 1;
    }
    r
}

/// The members of one branch.
fn keep_branch(members: &Vec<CardView>, branch: u8) -> (r: Vec<CardView>)
    ensures
        r@ == members@.filter(|m: CardView| m.branch() == branch),
{
    let ghost pred = |m: CardView| m.branch() == branch;
    let mut r: Vec<CardView> = Vec::new();
    let mut i: usize = 0;
    proof {
        lemma_filter_ends(members@, pred);
    }
    while i < members.len()
        invariant
            i <= members.len(),
            pred == (|m: CardView| m.branch() == branch),
            r@ == members@.take(i as int).filter(pred),
        decreases members.len() - i,
    {
        let m = members[i];
        proof {
            lemma_filter_next(members@, pred, i as int);
        }
        if stack_branch(m.flags) == branch {
            r.push(m);
        }
        i += 1;
    }
    r
}

fn succession_key_of(m: &CardView) -> (r: u64)
    ensures
        r == succession_key(*m),
{
    let branch: u8 = stack_branch(m.flags);
    let rank: u64 = if branch == STACK_DIR_UP {
        0
    } else if branch == STACK_DIR_HEX {
        1
    } else {
        2
    };
    (rank * 256 + stack_index(m.flags) as u64) * 0x1_0000_0000 + m.card_id as u64
}

/// The member that comes first in the succession.
fn find_successor(members: &Vec<CardView>) -> (r: CardView)
    requires
        members.len() > 0,
    ensures
        r == successor(members@),
{
    let mut best = members[0];
    let mut i: usize = 1;
    while i < members.len()
        invariant
            1 <= i <= members.len(),
            best == successor(members@.take(i as int)),
        decreases members.len() - i,
    {
        assert(members@.take(i + 1).drop_last() =~= members@.take(i as int));
        if succession_key_of(&members[i]) < succession_key_of(&best) {
            best = members[i];
        }
        i += 1;
    }
    assert(members@.take(members@.len() as int) =~= members@);
    best
}

/// The writes that splice one chain.
fn splice_chain<S: StackStore>(store: &S, root_id: u32, destroyed: &[u32], now_ms: u64) -> (r: Vec<
    Write,
>)
    ensures
        r@ == spliced_chain(store, root_id, destroyed@, now_ms),
{
    let mut writes: Vec<Write> = Vec::new();
    let root = match store.card_at(root_id, now_ms) {
        Some(root) => root,
        None => {
            return writes;
        },
    };
    let left = keep_survivors(&store.members_of(root_id, now_ms), destroyed);
    if !listed(destroyed, root_id) {
        return collapse(&left, Anchor { root: root_id, zone: root.macro_zone, promoted: false });
    }
    if left.len() == 0 {
        return writes;
    }
    // Root destroyed: promote the lowest-ranked survivor to the root's place.
    let heir: u32 = find_successor(&left).card_id;
    writes.push(
        Write {
            card_id: heir,
            macro_zone: root.macro_zone,
            micro: Micro::of(root.micro_location, root.flags),
        },
    );
    let rest = keep_others(&left, heir);
    let mut tail = collapse(&rest, Anchor { root: heir, zone: root.macro_zone, promoted: true });
    let ghost first = writes@;
    writes.append(&mut tail);
    assert(first =~= seq![
        Write { card_id: heir, macro_zone: root.macro_zone, micro: root.micro() },
    ]);
    writes
}

/// The writes that close the gaps in every branch.
fn collapse(members: &Vec<CardView>, anchor: Anchor) -> (r: Vec<Write>)
    ensures
        r@ == collapsed(members@, anchor, BRANCH_COUNT as nat),
{
    let mut writes: Vec<Write> = Vec::new();
    let mut branch: u8 = 0;
    while branch < BRANCH_COUNT
        invariant
            branch <= BRANCH_COUNT,
            writes@ == collapsed(members@, anchor, branch as nat),
        decreases BRANCH_COUNT - branch,
    {
        let ordered = sort_cards(&keep_branch(members, branch), Order::IndexThenCard);
        let ghost before = writes@;
        let mut slot: usize = 0;
        assert(ordered@.take(0) =~= Seq::<CardView>::empty());
        assert(before + numbering(ordered@.take(0), branch, anchor) =~= before);
        while slot < ordered.len()
            invariant
                slot <= ordered.len(),
                writes@ == before + numbering(ordered@.take(slot as int), branch, anchor),
            decreases ordered.len() - slot,
        {
            let m = ordered[slot];
            let index: u8 = #[verifier::truncate] (slot as u8);
            let unchanged = !anchor.promoted && (match Micro::of(m.micro_location, m.flags) {
                Micro::Stacked { root, index: current, .. } => root == anchor.root && current
                    == index,
                Micro::Loose { .. } => false,
            });
            assert(ordered@.take(slot + 1).drop_last() =~= ordered@.take(slot as int));
            if !unchanged {
                writes.push(
                    Write {
                        card_id: m.card_id,
                        macro_zone: anchor.zone,
                        micro: Micro::Stacked { root: anchor.root, branch, index },
                    },
                );
            }
            assert(writes@ =~= before + numbering(ordered@.take(slot + 1), branch, anchor));
            slot += 1;
        }
        assert(ordered@.take(ordered@.len() as int) =~= ordered@);
        branch += 1;
    }
    writes
}

} // verus!
