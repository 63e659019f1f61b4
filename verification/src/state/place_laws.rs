//! What a planned placement guarantees.

use vstd::prelude::*;
use crate::codec::card_model::{HoldField, Micro};
use crate::codec::stacking::StackBits;
use crate::state::chain::{Order, StackStore, Write};
use crate::state::recipe_state::{CardView, WORLD_PLAYER_ID};
use crate::state::stack::Placement;

verus! {

use crate::codec::packed::{law_surface_write_back, zone_owner, zone_with_surface};
use crate::codec::stacking::{fits, matched_stack};
use crate::sequences::lemma_filter_contains;
use crate::state::chain::{law_in_order, lemma_in_order_contains};
use crate::state::splice::splice;
use crate::state::splice_laws::law_splice_writes_survivors;
use crate::state::stack::{
    branch_in_zone,
    carried,
    carried_write,
    departed,
    drags_off,
    held_fault,
    next_index,
    opened,
    outward,
    outward_cards,
    owner_or_world,
    placed,
    resolution,
    stack_open,
    topmost,
    travel_writes,
    travelers,
    travelers_fault,
    unbroken_run,
    Resolved,
};

/// Whether an in-flight action keeps a card where it is.
pub open spec fn pinned(m: CardView) -> bool {
    m.held(HoldField::SlotClaim) || m.held(HoldField::SlotBorrow) || m.held(HoldField::PositionHold)
}

proof fn lemma_travelers_fault(cards: Seq<CardView>)
    requires
        travelers_fault(cards) is None,
    ensures
        forall|i: int| 0 <= i < cards.len() ==> !pinned(#[trigger] cards[i]),
    decreases cards.len(),
{
    if cards.len() > 0 {
        assert(held_fault(cards.first(), true) is None);
        lemma_travelers_fault(cards.drop_first());
        assert forall|i: int| 0 <= i < cards.len() implies !pinned(#[trigger] cards[i]) by {
            if i > 0 {
                assert(cards.drop_first()[i - 1] == cards[i]);
            }
        }
    }
}

/// A placement goes through only for a card that exists, lives, is the caller's and
/// is not pinned, and only if no card that travels with it is pinned.
pub proof fn law_only_free_own_cards_move<S: StackStore>(
    store: &S,
    card_id: u32,
    placement: Placement,
    caller: u32,
    now_ms: u64,
    bits: spec_fn(u16) -> StackBits,
)
    requires
        placed(store, card_id, placement, caller, now_ms, bits) is Ok,
    ensures
        store.card(card_id, now_ms) matches Some(source) && {
            &&& !source.dead()
            &&& !pinned(source)
            &&& forall|i: int|
                0 <= i < travelers(store, card_id, source, placement, now_ms).len() ==> !pinned(
                    #[trigger] travelers(store, card_id, source, placement, now_ms)[i],
                )
        },
        owner_or_world(store, card_id, now_ms) == caller,
{
    let source = store.card(card_id, now_ms)->0;
    assert(held_fault(source, false) is None);
    lemma_travelers_fault(travelers(store, card_id, source, placement, now_ms));
}

/// A loose placement writes the source first, at the cell and zone asked for, on the
/// surface asked for; the cell is in range and a container is the caller's.
pub proof fn law_loose_lands_where_asked<S: StackStore>(
    store: &S,
    card_id: u32,
    surface: u8,
    macro_zone: u64,
    q: u8,
    r: u8,
    x: i16,
    y: i16,
    caller: u32,
    now_ms: u64,
    bits: spec_fn(u16) -> StackBits,
)
    ensures
        placed(
            store,
            card_id,
            Placement::Loose { surface, macro_zone, q, r, x, y },
            caller,
            now_ms,
            bits,
        ) matches Ok(writes) ==> {
            &&& writes.len() > 0
            &&& writes[0] == Write {
                card_id,
                macro_zone: zone_with_surface(macro_zone, surface),
                micro: Micro::Loose { local_q: q, local_r: r, x, y },
            }
            &&& q < 8 && r < 8
            &&& zone_owner(macro_zone) == 0 || owner_or_world(store, zone_owner(macro_zone), now_ms)
                == caller
        },
{
}

/// A loose move of a root takes its members along: each keeps its place on the root
/// and follows it into the new zone, and no other row is written.
pub proof fn law_members_follow_a_loose_root<S: StackStore>(
    store: &S,
    card_id: u32,
    source: CardView,
    placement: Placement,
    caller: u32,
    now_ms: u64,
    bits: spec_fn(u16) -> StackBits,
)
    requires
        store.card(card_id, now_ms) == Some(source),
        source.micro() is Loose,
        placement is Loose,
    ensures
        placed(store, card_id, placement, caller, now_ms, bits) matches Ok(writes) ==> {
            let members = store.members(card_id, now_ms);
            &&& writes.len() == 1 + members.len()
            &&& forall|k: int|
                0 <= k < members.len() ==> #[trigger] writes[k + 1] == Write {
                    card_id: members[k].card_id,
                    macro_zone: writes[0].macro_zone,
                    micro: members[k].micro(),
                }
        },
{
}

/// Whether a plan stacks the source onto the chain of `parent`: the source takes the
/// next free slot of a branch of the parent's chain root, in the parent's zone, and
/// its own members are re-rooted there with their branches and slots.
pub open spec fn joins_chain<S: StackStore>(
    store: &S,
    card_id: u32,
    parent: CardView,
    writes: Seq<Write>,
    now_ms: u64,
) -> bool {
    let root = parent.chain_root();
    let zone = parent.macro_zone;
    let members = store.members(card_id, now_ms);
    &&& root != card_id
    &&& writes.len() == 1 + members.len()
    &&& writes[0].card_id == card_id && writes[0].macro_zone == zone
    &&& writes[0].micro matches Micro::Stacked { root: to, branch, index } && to == root && index
        == next_index(store, root, zone, branch, now_ms)
    &&& forall|k: int|
        0 <= k < members.len() ==> (#[trigger] writes[k + 1]).card_id == members[k].card_id
            && writes[k + 1].macro_zone == zone && (members[k].micro() matches Micro::Stacked {
            branch,
            index,
            ..
        } ==> writes[k + 1].micro == Micro::Stacked { root, branch, index })
}

/// Whether a plan turns the drop around: the parent, a root without members, takes
/// the next free slot of a branch of the source, which is a root and stays where it
/// is; nothing else is written.
pub open spec fn turns_around<S: StackStore>(
    store: &S,
    card_id: u32,
    source: CardView,
    parent_id: u32,
    parent: CardView,
    writes: Seq<Write>,
    now_ms: u64,
) -> bool {
    &&& source.chain_root() == card_id && parent.chain_root() == parent_id
    &&& store.members(parent_id, now_ms).len() == 0
    &&& writes.len() == 1
    &&& writes[0].card_id == parent_id && parent_id != card_id
    &&& writes[0].macro_zone == source.macro_zone
    &&& writes[0].micro matches Micro::Stacked { root, branch, index } && root == card_id && index
        == next_index(store, card_id, source.macro_zone, branch, now_ms)
}

/// A stack placement either joins the source to the parent's chain or turns the drop
/// around. The parent lives, takes drops, and its chain is the world's or the
/// caller's.
pub proof fn law_stack_joins_or_turns_around<S: StackStore>(
    store: &S,
    card_id: u32,
    parent_id: u32,
    direction: u8,
    caller: u32,
    now_ms: u64,
    bits: spec_fn(u16) -> StackBits,
)
    ensures
        placed(
            store,
            card_id,
            Placement::Stack { parent_id, direction },
            caller,
            now_ms,
            bits,
        ) matches Ok(writes) ==> {
            let source = store.card(card_id, now_ms)->0;
            let parent = store.card(parent_id, now_ms)->0;
            &&& store.card(card_id, now_ms) is Some && store.card(parent_id, now_ms) is Some
            &&& !parent.dead() && !parent.held(HoldField::DropHold)
            &&& owner_or_world(store, parent.chain_root(), now_ms) == WORLD_PLAYER_ID
                || owner_or_world(store, parent.chain_root(), now_ms) == caller
            &&& joins_chain(store, card_id, parent, writes, now_ms) || turns_around(
                store,
                card_id,
                source,
                parent_id,
                parent,
                writes,
                now_ms,
            )
        },
{
    let placement = Placement::Stack { parent_id, direction };
    if let Ok(writes) = placed(store, card_id, placement, caller, now_ms, bits) {
        let source = store.card(card_id, now_ms)->0;
        let parent = store.card(parent_id, now_ms)->0;
        let resolved = resolution(store, card_id, source, placement, caller, now_ms, bits)->Ok_0;
        law_surface_write_back(parent.macro_zone);
        match resolved {
            Resolved::Place { surface, macro_zone, micro } => {
                assert(zone_with_surface(macro_zone, surface) == parent.macro_zone);
                let cards = travelers(store, card_id, source, placement, now_ms);
                assert(writes =~= seq![Write { card_id, macro_zone, micro }] + travel_writes(
                    cards,
                    false,
                    card_id,
                    macro_zone,
                    micro,
                ));
                assert(joins_chain(store, card_id, parent, writes, now_ms));
            },
            Resolved::Invert { .. } => {
                assert(turns_around(store, card_id, source, parent_id, parent, writes, now_ms));
            },
        }
    }
}

proof fn lemma_topmost(members: Seq<CardView>)
    ensures
        topmost(members) is None <==> members.len() == 0,
        topmost(members) matches Some(top) ==> members.contains(top) && forall|i: int|
            0 <= i < members.len() ==> (#[trigger] members[i]).index() <= top.index(),
    decreases members.len(),
{
    if members.len() > 0 {
        let front = members.drop_last();
        lemma_topmost(front);
        let top = topmost(members)->0;
        if topmost(front) is Some && top == topmost(front)->0 {
            let j = choose|j: int| 0 <= j < front.len() && front[j] == top;
            assert(members[j] == top);
        } else {
            assert(members[members.len() - 1] == top);
        }
        assert forall|i: int| 0 <= i < members.len() implies (#[trigger] members[i]).index()
            <= top.index() by {
            if i < front.len() {
                assert(front[i] == members[i]);
            }
        }
    }
}

/// The slot a card is appended at lies past every member of the branch in the zone,
/// up to the last slot.
pub proof fn law_append_slot_is_past_the_branch<S: StackStore>(
    store: &S,
    root: u32,
    macro_zone: u64,
    branch: u8,
    now_ms: u64,
    m: CardView,
)
    requires
        store.members(root, now_ms).contains(m),
        m.macro_zone == macro_zone,
        m.branch() == branch,
    ensures
        m.index() < next_index(store, root, macro_zone, branch, now_ms) || next_index(
            store,
            root,
            macro_zone,
            branch,
            now_ms,
        ) == 15,
{
    let here = branch_in_zone(store, root, macro_zone, branch, now_ms);
    lemma_filter_contains(
        store.members(root, now_ms),
        |c: CardView| c.macro_zone == macro_zone && c.branch() == branch,
    );
    assert(here.contains(m));
    lemma_topmost(here);
    let i = choose|i: int| 0 <= i < here.len() && here[i] == m;
    assert(here[i].index() <= (topmost(here)->0).index());
}

/// Where every card hosts every stack that the root hosts, a chain is open just
/// where the root matches the joiner, at the next free slot.
pub proof fn law_uniform_hosts_reduce_to_the_root<S: StackStore>(
    store: &S,
    root_id: u32,
    root_zone: u64,
    root_bits: StackBits,
    joiner: StackBits,
    direction: u8,
    now_ms: u64,
    bits: spec_fn(u16) -> StackBits,
)
    requires
        forall|p: u16| (#[trigger] bits(p)).hosts == root_bits.hosts,
    ensures
        opened(store, root_id, root_zone, root_bits, joiner, direction, now_ms, bits)
            == match matched_stack(root_bits, joiner, direction) {
            Some(stack) => Some(
                (stack, next_index(store, root_id, root_zone, (stack - 1) as u8, now_ms)),
            ),
            None => None,
        },
{
    assert forall|stack: u8| #[trigger]
        stack_open(store, root_id, root_zone, root_bits, joiner, stack, now_ms, bits) == fits(
            root_bits,
            joiner,
            stack,
        ) by {}
}

/// The unbroken run is a prefix of the ordered cards, fills the slots without a gap,
/// holds no position-held card, and ends where the next card leaves a gap or is
/// position-held.
pub(crate) proof fn lemma_unbroken_run(cards: Seq<CardView>, slot: int)
    ensures
        ({
            let run = unbroken_run(cards, slot);
            &&& run.len() <= cards.len()
            &&& forall|k: int|
                0 <= k < run.len() ==> #[trigger] run[k] == cards[k] && run[k].index() == slot + k
                    && !run[k].held(HoldField::PositionHold)
            &&& run.len() < cards.len() ==> cards[run.len() as int].index() != slot + run.len()
                || cards[run.len() as int].held(HoldField::PositionHold)
        }),
    decreases cards.len(),
{
    if cards.len() > 0 && cards.first().index() == slot && !cards.first().held(
        HoldField::PositionHold,
    ) {
        let rest = cards.drop_first();
        lemma_unbroken_run(rest, slot + 1);
        let tail = unbroken_run(rest, slot + 1);
        let run = unbroken_run(cards, slot);
        assert(run =~= seq![cards.first()] + tail);
        assert forall|k: int| 0 <= k < run.len() implies #[trigger] run[k] == cards[k]
            && run[k].index() == slot + k && !run[k].held(HoldField::PositionHold) by {
            if k > 0 {
                assert(tail[k - 1] == rest[k - 1]);
                assert(rest[k - 1] == cards[k]);
            }
        }
        if run.len() < cards.len() {
            assert(rest[tail.len() as int] == cards[run.len() as int]);
        }
    }
}

/// A drag off a chain carries members of that chain that stand outward of the source
/// in its branch, slot by slot from the next one on; none of them is dead or
/// position-held.
pub proof fn law_drag_carries_outward_cards<S: StackStore>(
    store: &S,
    source: CardView,
    root: u32,
    branch: u8,
    index: u8,
    now_ms: u64,
    k: int,
)
    requires
        source.micro() == (Micro::Stacked { root, branch, index }),
        0 <= k < carried(store, source, now_ms).len(),
    ensures
        ({
            let m = carried(store, source, now_ms)[k];
            &&& store.members(root, now_ms).contains(m)
            &&& outward(m, branch, index)
            &&& m.index() == index + 1 + k
            &&& !m.held(HoldField::PositionHold)
        }),
{
    let pred = |m: CardView| outward(m, branch, index);
    let siblings = store.members(root, now_ms).filter(pred);
    let cards = outward_cards(store, root, branch, index, now_ms);
    lemma_unbroken_run(cards, index + 1);
    lemma_filter_contains(store.members(root, now_ms), pred);
    lemma_in_order_contains(siblings, Order::Index);
    let m = carried(store, source, now_ms)[k];
    assert(m == cards[k]);
    assert(cards.contains(m));
    assert(siblings.contains(m));
}

/// A drag leaves a live outward card behind only for a reason: where no two outward
/// cards share a slot, the card at the first slot past the run is position-held.
pub proof fn law_drag_stops_at_a_position_hold<S: StackStore>(
    store: &S,
    source: CardView,
    root: u32,
    branch: u8,
    index: u8,
    now_ms: u64,
    m: CardView,
)
    requires
        source.micro() == (Micro::Stacked { root, branch, index }),
        store.members(root, now_ms).contains(m),
        outward(m, branch, index),
        m.index() == index + 1 + carried(store, source, now_ms).len(),
        forall|i: int, j: int|
            #![trigger outward_cards(store, root, branch, index, now_ms)[i], outward_cards(
                store,
                root,
                branch,
                index,
                now_ms,
            )[j]]
            0 <= i < j < outward_cards(store, root, branch, index, now_ms).len() ==> outward_cards(
                store,
                root,
                branch,
                index,
                now_ms,
            )[i].index() != outward_cards(store, root, branch, index, now_ms)[j].index(),
    ensures
        m.held(HoldField::PositionHold),
{
    let pred = |c: CardView| outward(c, branch, index);
    let siblings = store.members(root, now_ms).filter(pred);
    let cards = outward_cards(store, root, branch, index, now_ms);
    let order = Order::Index;
    lemma_unbroken_run(cards, index + 1);
    lemma_filter_contains(store.members(root, now_ms), pred);
    lemma_in_order_contains(siblings, Order::Index);
    law_in_order(siblings, Order::Index);
    assert(siblings.contains(m));
    assert(cards.contains(m));
    let run = unbroken_run(cards, index + 1);
    assert(carried(store, source, now_ms) == run);
    let p = choose|p: int| 0 <= p < cards.len() && cards[p] == m;
    let n = run.len() as int;
    if p < n {
        assert(run[p].index() == index + 1 + p);
    }
    if p > n {
        assert(order.key(cards[n]) <= order.key(cards[p]));
        assert(cards[n].index() < cards[p].index());
        if n > 0 {
            assert(run[n - 1] == cards[n - 1]);
            assert(order.key(cards[n - 1]) <= order.key(cards[n]));
            assert(cards[n - 1].index() < cards[n].index());
        } else {
            assert(cards.contains(cards[0]));
            assert(siblings.contains(cards[0]));
            assert(outward(cards[0], branch, index));
        }
    }
}

/// A drag off a chain writes the source, then the carried cards onto it, each in its
/// branch and numbered from 0, and then closes the chain they left; the rows that
/// close it are for other cards.
pub proof fn law_drag_reroots_and_closes<S: StackStore>(
    store: &S,
    card_id: u32,
    source: CardView,
    placement: Placement,
    caller: u32,
    now_ms: u64,
    bits: spec_fn(u16) -> StackBits,
)
    requires
        store.card(card_id, now_ms) == Some(source),
        drags_off(source, placement),
    ensures
        placed(store, card_id, placement, caller, now_ms, bits) matches Ok(writes) ==> {
            let run = carried(store, source, now_ms);
            let closing = splice(store, departed(card_id, run), now_ms);
            &&& writes.len() == 1 + run.len() + closing.len()
            &&& writes.skip(1 + run.len() as int) == closing
            &&& writes[0].card_id == card_id
            &&& forall|k: int|
                0 <= k < run.len() ==> #[trigger] writes[k + 1] == carried_write(
                    run[k],
                    card_id,
                    writes[0].macro_zone,
                    k,
                )
            &&& forall|w: Write| #[trigger]
                closing.contains(w) ==> w.card_id != card_id && forall|k: int|
                    0 <= k < run.len() ==> w.card_id != (#[trigger] run[k]).card_id
        },
{
    if let Ok(writes) = placed(store, card_id, placement, caller, now_ms, bits) {
        let run = carried(store, source, now_ms);
        let gone = departed(card_id, run);
        let closing = splice(store, gone, now_ms);
        assert(writes.skip(1 + run.len() as int) =~= closing);
        assert forall|w: Write| #[trigger] closing.contains(w) implies w.card_id != card_id
            && forall|k: int| 0 <= k < run.len() ==> w.card_id != (#[trigger] run[k]).card_id by {
            law_splice_writes_survivors(store, gone, now_ms, w);
            assert(gone[0] == card_id);
            assert forall|k: int| 0 <= k < run.len() implies w.card_id != (
            #[trigger] run[k]).card_id by {
                assert(gone[k + 1] == run[k].card_id);
            }
        }
    }
}

} // verus!
