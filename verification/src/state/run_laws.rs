//! Which cards a drag off a chain carries along, told from the member list.

use vstd::prelude::*;
use crate::codec::card_model::Micro;
use crate::codec::stacking::StackBits;
use crate::state::chain::{Order, StackStore, Write};
use crate::state::recipe_state::CardView;
use crate::state::stack::Placement;

verus! {

use crate::codec::word_laws::law_place_of_a_row;
use crate::sequences::{
    lemma_filter_agrees,
    lemma_filter_contains,
    lemma_filter_push,
    lemma_filter_twice,
};
use crate::state::chain::{
    at_slot,
    law_in_order,
    law_sorting_by_slot_is_stable,
    lemma_in_order_contains,
};
use crate::state::drop_laws::{kept_in_place, lemma_counts, may_move, position_holds, side_no};
use crate::state::place_laws::{
    law_drag_reroots_and_closes,
    law_only_free_own_cards_move,
    lemma_unbroken_run,
    pinned,
};
use crate::state::rank_laws::{lemma_digits, row_dead, row_root, slot_no, stack_no};
use crate::state::splice::splice;
use crate::state::stack::{carried, departed, outward, outward_cards, placed, travelers};

/// Whether a card lives on a side, at a slot.
pub open spec fn lives_at(side: int, slot: int) -> spec_fn(CardView) -> bool {
    |c: CardView| !row_dead(c) && side_no(c) == side && slot_no(c) == slot
}

/// Whether member `i` is the first of the list that lives on a side, at a slot.
pub open spec fn first_listed(members: Seq<CardView>, side: int, slot: int, i: int) -> bool {
    0 <= i < members.len() && lives_at(side, slot)(members[i]) && forall|j: int|
        0 <= j < i ==> !lives_at(side, slot)(#[trigger] members[j])
}

/// Whether no two members live on a side, at a slot.
pub open spec fn at_most_one(members: Seq<CardView>, side: int, slot: int) -> bool {
    forall|i: int, j: int|
        0 <= i < j < members.len() ==> !(lives_at(side, slot)(#[trigger] members[i]) && lives_at(
            side,
            slot,
        )(#[trigger] members[j]))
}

/// Whether card `k` of a run is the first listed at its slot, counted from the one next to
/// the source, and is not held in position.
pub open spec fn leads_slot<S: StackStore>(
    store: &S,
    source: CardView,
    run: Seq<CardView>,
    k: int,
    now_ms: u64,
) -> bool {
    let members = store.members(row_root(source), now_ms);
    position_holds(run[k]) == 0 && exists|i: int| #[trigger]
        first_listed(members, side_no(source), slot_no(source) + 1 + k, i) && members[i] == run[k]
}

/// Whether `run` is what a drag of `source` off its chain carries: from the next slot on, the
/// first card listed at each, up to a card that is held in position, a slot without a card, or
/// past the first slot with more than one.
pub open spec fn is_run<S: StackStore>(
    store: &S,
    source: CardView,
    run: Seq<CardView>,
    now_ms: u64,
) -> bool {
    let members = store.members(row_root(source), now_ms);
    let side = side_no(source);
    let slot = slot_no(source);
    let n = run.len() as int;
    &&& forall|k: int| 0 <= k < n ==> #[trigger] leads_slot(store, source, run, k, now_ms)
    &&& forall|s: int| slot < s < slot + n ==> #[trigger] at_most_one(members, side, s)
    &&& (n > 0 && !at_most_one(members, side, slot + n)) || forall|i: int| #[trigger]
        first_listed(members, side, slot + 1 + n, i) ==> position_holds(members[i]) > 0
}

/// A filter gives the first element that passes first.
proof fn lemma_filter_first<A>(s: Seq<A>, pred: spec_fn(A) -> bool, i: int)
    requires
        0 <= i < s.len(),
        pred(s[i]),
        forall|j: int| 0 <= j < i ==> !pred(#[trigger] s[j]),
    ensures
        s.filter(pred).len() > 0,
        s.filter(pred)[0] == s[i],
    decreases s.len(),
{
    let front = s.drop_last();
    assert(front.push(s.last()) =~= s);
    lemma_filter_push(front, pred, s.last());
    if i < front.len() {
        assert(front[i] == s[i]);
        assert forall|j: int| 0 <= j < i implies !pred(#[trigger] front[j]) by {
            assert(front[j] == s[j]);
        }
        lemma_filter_first(front, pred, i);
    } else {
        assert forall|j: int| 0 <= j < front.len() implies !pred(#[trigger] front[j]) by {
            assert(front[j] == s[j]);
        }
        lemma_filter_none(front, pred);
    }
}

/// A filter that no element passes gives none.
proof fn lemma_filter_none<A>(s: Seq<A>, pred: spec_fn(A) -> bool)
    requires
        forall|j: int| 0 <= j < s.len() ==> !pred(#[trigger] s[j]),
    ensures
        s.filter(pred).len() == 0,
    decreases s.len(),
{
    reveal(Seq::filter);
    if s.len() > 0 {
        let front = s.drop_last();
        assert(s[s.len() - 1] == s.last());
        assert forall|j: int| 0 <= j < front.len() implies !pred(#[trigger] front[j]) by {
            assert(front[j] == s[j]);
        }
        lemma_filter_none(front, pred);
    }
}

/// A filter that two elements pass gives more than one.
proof fn lemma_filter_two<A>(s: Seq<A>, pred: spec_fn(A) -> bool, i: int, j: int)
    requires
        0 <= i < j < s.len(),
        pred(s[i]),
        pred(s[j]),
    ensures
        s.filter(pred).len() > 1,
    decreases s.len(),
{
    let front = s.drop_last();
    assert(front.push(s.last()) =~= s);
    lemma_filter_push(front, pred, s.last());
    assert(front[i] == s[i]);
    if j < front.len() {
        assert(front[j] == s[j]);
        lemma_filter_two(front, pred, i, j);
    } else {
        lemma_filter_some(front, pred, i);
    }
}

/// A filter that an element passes gives some.
proof fn lemma_filter_some<A>(s: Seq<A>, pred: spec_fn(A) -> bool, i: int)
    requires
        0 <= i < s.len(),
        pred(s[i]),
    ensures
        s.filter(pred).len() > 0,
    decreases s.len(),
{
    let front = s.drop_last();
    assert(front.push(s.last()) =~= s);
    lemma_filter_push(front, pred, s.last());
    if i < front.len() {
        assert(front[i] == s[i]);
        lemma_filter_some(front, pred, i);
    }
}

/// A filter that gives some has a first element that passes; one that gives more than one has
/// two.
proof fn lemma_filter_back<A>(s: Seq<A>, pred: spec_fn(A) -> bool) -> (r: (int, int))
    ensures
        s.filter(pred).len() > 0 ==> 0 <= r.0 < s.len() && pred(s[r.0]) && (forall|j: int|
            0 <= j < r.0 ==> !pred(#[trigger] s[j])),
        s.filter(pred).len() > 1 ==> r.0 < r.1 < s.len() && pred(s[r.1]),
    decreases s.len(),
{
    reveal(Seq::filter);
    if s.len() == 0 {
        (0, 0)
    } else {
        let front = s.drop_last();
        let n = s.len() - 1;
        assert(front.push(s.last()) =~= s);
        lemma_filter_push(front, pred, s.last());
        let (a, b) = lemma_filter_back(front, pred);
        assert(forall|j: int| 0 <= j < n ==> #[trigger] front[j] == s[j]);
        if front.filter(pred).len() == 0 {
            assert forall|j: int| 0 <= j < n implies !pred(#[trigger] s[j]) by {
                if pred(s[j]) {
                    assert(front[j] == s[j]);
                    lemma_filter_some(front, pred, j);
                }
            }
            (n, n)
        } else {
            assert forall|j: int| 0 <= j < a implies !pred(#[trigger] s[j]) by {
                assert(front[j] == s[j]);
            }
            if front.filter(pred).len() == 1 {
                (a, n)
            } else {
                (a, b)
            }
        }
    }
}

/// The cards outward of a source at one slot, in order, are the members that live there, as
/// listed.
proof fn lemma_slot_as_listed<S: StackStore>(
    store: &S,
    root: u32,
    branch: u8,
    index: u8,
    now_ms: u64,
    slot: int,
)
    requires
        slot > index,
    ensures
        outward_cards(store, root, branch, index, now_ms).filter(at_slot(slot)) == store.members(
            root,
            now_ms,
        ).filter(lives_at(branch as int, slot)),
{
    let members = store.members(root, now_ms);
    let pred = |m: CardView| outward(m, branch, index);
    let both = |m: CardView| pred(m) && at_slot(slot)(m);
    law_sorting_by_slot_is_stable(members.filter(pred), slot);
    lemma_filter_twice(members, pred, at_slot(slot));
    assert forall|i: int| 0 <= i < members.len() implies both(#[trigger] members[i]) == lives_at(
        branch as int,
        slot,
    )(members[i]) by {
        lemma_digits(members[i]);
    }
    lemma_filter_agrees(members, both, lives_at(branch as int, slot));
}

/// What a drag carries is a run.
proof fn lemma_carried_is_run<S: StackStore>(store: &S, source: CardView, now_ms: u64)
    requires
        stack_no(source) != 0,
    ensures
        is_run(store, source, carried(store, source, now_ms), now_ms),
{
    let root = row_root(source);
    let members = store.members(root, now_ms);
    let side = side_no(source);
    let slot = slot_no(source);
    let got = carried(store, source, now_ms);
    let n = got.len() as int;
    lemma_digits(source);
    law_place_of_a_row(source.micro_location, source.flags);
    let branch = side as u8;
    let index = slot as u8;
    assert(source.micro() == (Micro::Stacked { root, branch, index }));
    let pred = |m: CardView| outward(m, branch, index);
    let cards = outward_cards(store, root, branch, index, now_ms);
    let order = Order::Index;
    law_in_order(members.filter(pred), order);
    lemma_unbroken_run(cards, index + 1);
    assert forall|i: int, j: int| 0 <= i <= j < cards.len() implies slot_no(#[trigger] cards[i])
        <= slot_no(#[trigger] cards[j]) by {
        lemma_digits(cards[i]);
        lemma_digits(cards[j]);
        if i < j {
            assert(order.key(cards[i]) <= order.key(cards[j]));
        }
    }
    assert forall|i: int| 0 <= i < cards.len() implies slot_no(#[trigger] cards[i]) > slot by {
        lemma_digits(cards[i]);
        lemma_in_order_contains(members.filter(pred), order);
        assert(cards.contains(cards[i]));
        lemma_filter_contains(members, pred);
        assert(pred(cards[i]));
    }
    assert forall|k: int| 0 <= k < n implies #[trigger] got[k] == cards[k] && slot_no(cards[k])
        == slot + 1 + k && position_holds(got[k]) == 0 by {
        lemma_digits(got[k]);
        lemma_counts(got[k]);
    }
    assert forall|k: int| 0 <= k < n implies #[trigger] leads_slot(
        store,
        source,
        got,
        k,
        now_ms,
    ) by {
        let s = slot + 1 + k;
        assert(got[k] == cards[k]);
        assert forall|j: int| 0 <= j < k implies slot_no(#[trigger] cards[j]) < s by {
            assert(got[j] == cards[j]);
        }
        lemma_first_at_slot(store, root, branch, index, now_ms, s, k);
    }
    assert forall|s: int| slot < s < slot + n implies #[trigger] at_most_one(members, side, s) by {
        let k = s - slot - 1;
        assert(got[k] == cards[k] && got[k + 1] == cards[k + 1]);
        lemma_slot_as_listed(store, root, branch, index, now_ms, s);
        if !at_most_one(members, side, s) {
            let (i, j) = choose|i: int, j: int|
                0 <= i < j < members.len() && lives_at(side, s)(#[trigger] members[i]) && lives_at(
                    side,
                    s,
                )(#[trigger] members[j]);
            lemma_filter_two(members, lives_at(side, s), i, j);
            let (a, b) = lemma_filter_back(cards, at_slot(s));
            assert(at_slot(s)(cards[a]) && at_slot(s)(cards[b]));
            assert(slot_no(cards[a]) == s && slot_no(cards[b]) == s);
            assert(b <= k) by {
                if b > k {
                    assert(slot_no(cards[k + 1]) <= slot_no(cards[b]));
                }
            }
            assert(got[a] == cards[a]);
        }
    }
    let past = slot + 1 + n;
    if n > 0 && !at_most_one(members, side, slot + n) {
    } else {
        assert forall|i: int| #[trigger] first_listed(members, side, past, i) implies position_holds(
            members[i],
        ) > 0 by {
            lemma_slot_as_listed(store, root, branch, index, now_ms, past);
            lemma_filter_first(members, lives_at(side, past), i);
            let (a, b) = lemma_filter_back(cards, at_slot(past));
            lemma_filter_first(cards, at_slot(past), a);
            assert(cards[a] == members[i]);
            assert(slot_no(cards[a]) == past);
            assert(a >= n) by {
                if a < n {
                    assert(got[a] == cards[a]);
                }
            }
            assert(slot_no(cards[n]) <= past);
            lemma_digits(cards[n]);
            lemma_counts(cards[n]);
            if slot_no(cards[n]) < past {
                assert(n > 0);
                assert(got[n - 1] == cards[n - 1]);
                assert(slot_no(cards[n - 1]) == slot + n);
                assert(slot_no(cards[n]) == slot + n);
                lemma_slot_as_listed(store, root, branch, index, now_ms, slot + n);
                lemma_filter_two(cards, at_slot(slot + n), n - 1, n);
                let (p, q) = lemma_filter_back(members, lives_at(side, slot + n));
                assert(lives_at(side, slot + n)(members[p]) && lives_at(side, slot + n)(members[q]));
                assert(!at_most_one(members, side, slot + n));
            } else {
                assert(a == n) by {
                    if a > n {
                        assert(at_slot(past)(cards[n]));
                    }
                }
            }
        }
    }
}

/// The first of the outward cards at a slot is the first listed that lives there.
proof fn lemma_first_at_slot<S: StackStore>(
    store: &S,
    root: u32,
    branch: u8,
    index: u8,
    now_ms: u64,
    slot: int,
    k: int,
)
    requires
        slot > index,
        0 <= k < outward_cards(store, root, branch, index, now_ms).len(),
        slot_no(outward_cards(store, root, branch, index, now_ms)[k]) == slot,
        forall|j: int|
            0 <= j < k ==> slot_no(
                #[trigger] outward_cards(store, root, branch, index, now_ms)[j],
            ) < slot,
    ensures
        exists|i: int| #[trigger]
            first_listed(store.members(root, now_ms), branch as int, slot, i) && store.members(
                root,
                now_ms,
            )[i] == outward_cards(store, root, branch, index, now_ms)[k],
{
    let members = store.members(root, now_ms);
    let cards = outward_cards(store, root, branch, index, now_ms);
    lemma_slot_as_listed(store, root, branch, index, now_ms, slot);
    lemma_filter_first(cards, at_slot(slot), k);
    let (i, _) = lemma_filter_back(members, lives_at(branch as int, slot));
    lemma_filter_first(members, lives_at(branch as int, slot), i);
    assert(first_listed(members, branch as int, slot, i));
}

/// There is one run.
proof fn lemma_run_is_carried<S: StackStore>(
    store: &S,
    source: CardView,
    run: Seq<CardView>,
    now_ms: u64,
)
    requires
        stack_no(source) != 0,
        is_run(store, source, run, now_ms),
    ensures
        carried(store, source, now_ms) == run,
{
    let got = carried(store, source, now_ms);
    lemma_carried_is_run(store, source, now_ms);
    lemma_runs_agree(store, source, got, run, now_ms);
    lemma_runs_agree(store, source, run, got, now_ms);
    assert(got =~= run);
}

/// A run is no longer than another, and agrees with it.
proof fn lemma_runs_agree<S: StackStore>(
    store: &S,
    source: CardView,
    a: Seq<CardView>,
    b: Seq<CardView>,
    now_ms: u64,
)
    requires
        is_run(store, source, a, now_ms),
        is_run(store, source, b, now_ms),
    ensures
        a.len() <= b.len(),
        forall|k: int| 0 <= k < a.len() ==> #[trigger] a[k] == b[k],
{
    let members = store.members(row_root(source), now_ms);
    let side = side_no(source);
    let slot = slot_no(source);
    let n = b.len() as int;
    if a.len() > n {
        assert(leads_slot(store, source, a, n, now_ms));
        let i = choose|i: int| #[trigger]
            first_listed(members, side, slot + 1 + n, i) && members[i] == a[n];
        assert(first_listed(members, side, slot + 1 + n, i));
        assert(at_most_one(members, side, slot + n) || n == 0);
    }
    assert forall|k: int| 0 <= k < a.len() implies #[trigger] a[k] == b[k] by {
        assert(leads_slot(store, source, a, k, now_ms) && leads_slot(store, source, b, k, now_ms));
        let i = choose|i: int| #[trigger]
            first_listed(members, side, slot + 1 + k, i) && members[i] == a[k];
        let j = choose|j: int| #[trigger]
            first_listed(members, side, slot + 1 + k, j) && members[j] == b[k];
        assert(i == j) by {
            if i < j {
                assert(!lives_at(side, slot + 1 + k)(members[i]));
            } else if j < i {
                assert(!lives_at(side, slot + 1 + k)(members[j]));
            }
        }
    }
}

/// A drag of a member off its chain writes the card, then the run it carries, each card
/// of it on the dragged card, on the side that the dragged card was on, numbered from 0
/// and in the same zone; then it closes the chain behind them. It goes through only if the
/// card and its run may move.
pub proof fn law_drag_carries_its_side<S: StackStore>(
    store: &S,
    card_id: u32,
    source: CardView,
    run: Seq<CardView>,
    placement: Placement,
    caller: u32,
    now_ms: u64,
    bits: spec_fn(u16) -> StackBits,
)
    requires
        store.card(card_id, now_ms) == Some(source),
        stack_no(source) != 0,
        placement is Loose,
        is_run(store, source, run, now_ms),
    ensures
        travelers(store, card_id, source, placement, now_ms) == run,
        placed(store, card_id, placement, caller, now_ms, bits) is Ok ==> may_move(
            store,
            card_id,
            source,
            run,
            caller,
            now_ms,
        ),
        placed(store, card_id, placement, caller, now_ms, bits) matches Ok(rows) ==> {
            let gone = seq![card_id] + run.map_values(|c: CardView| c.card_id);
            &&& rows.len() >= 1 + run.len()
            &&& rows[0].card_id == card_id
            &&& forall|k: int|
                0 <= k < run.len() ==> #[trigger] rows[k + 1] == (Write {
                    card_id: run[k].card_id,
                    macro_zone: rows[0].macro_zone,
                    micro: Micro::Stacked {
                        root: card_id,
                        branch: (stack_no(source) - 1) as u8,
                        index: k as u8,
                    },
                })
            &&& rows.skip(1 + run.len() as int) == splice(store, gone, now_ms)
        },
{
    lemma_run_is_carried(store, source, run, now_ms);
    lemma_digits(source);
    law_drag_reroots_and_closes(store, card_id, source, placement, caller, now_ms, bits);
    assert(travelers(store, card_id, source, placement, now_ms) == run);
    if let Ok(rows) = placed(store, card_id, placement, caller, now_ms, bits) {
        lemma_counts(source);
        law_only_free_own_cards_move(
            store,
            card_id,
            placement,
            caller,
            now_ms,
            bits,
        );
        assert forall|j: int| 0 <= j < run.len() implies !kept_in_place(#[trigger] run[j]) by {
            lemma_counts(run[j]);
            assert(!pinned(
                travelers(store, card_id, source, placement, now_ms)[j],
            ));
        }
        assert(departed(card_id, run) =~= seq![card_id] + run.map_values(|c: CardView| c.card_id));
        assert forall|k: int| 0 <= k < run.len() implies #[trigger] rows[k + 1] == (Write {
            card_id: run[k].card_id,
            macro_zone: rows[0].macro_zone,
            micro: Micro::Stacked {
                root: card_id,
                branch: (stack_no(source) - 1) as u8,
                index: k as u8,
            },
        }) by {
            lemma_digits(run[k]);
            assert(leads_slot(store, source, run, k, now_ms));
        }
    }
}

} // verus!
