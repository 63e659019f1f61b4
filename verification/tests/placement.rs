use resonantdust::codec::card_model::{increment_hold, HoldField, Micro};
use resonantdust::codec::flags::flag_bit;
use resonantdust::codec::packed::{
    with_owner, with_surface, INVENTORY_LAYER, PLAYER_SOUL_PACKED, STACK_DIR_DOWN, STACK_DIR_HEX, STACK_DIR_UP,
    WORLD_LAYER,
};
use resonantdust::codec::stacking::{default_bits, tile_bits, StackBits};
use resonantdust::state::chain::{chain_root_of, sort_cards, Order, StackStore, Write};
use resonantdust::state::recipe_state::{owning_player, validate_bindings, CardStore, CardView};
use resonantdust::state::splice::plan_splice;
use resonantdust::state::stack::{plan_place, Placement};
use std::collections::BTreeMap;

const P: u32 = 7; // caller
const SOUL: u32 = 1; // the caller's soul
const OTHER: u32 = 2; // the soul of player 9

struct Mock(BTreeMap<u32, CardView>);
impl CardStore for Mock {
    fn card_at(&self, id: u32, _t: u64) -> Option<CardView> {
        self.0.get(&id).cloned()
    }
}
impl StackStore for Mock {
    fn members_of(&self, root_id: u32, _now: u64) -> Vec<CardView> {
        let stacked = |v: &&CardView| {
            matches!(Micro::of(v.micro_location, v.flags), Micro::Stacked { root, .. } if root == root_id)
        };
        self.0.values().filter(stacked).cloned().collect()
    }
}

fn zone() -> u64 {
    with_surface(0, WORLD_LAYER)
}
fn card(card_id: u32, owner_id: u32, micro: Micro, more: u32) -> CardView {
    let (micro_location, flags) = micro.apply(more);
    CardView { card_id, owner_id, micro_location, macro_zone: zone(), packed_definition: 0, flags, stock: 0 }
}
fn loose(card_id: u32) -> CardView {
    card(card_id, SOUL, Micro::snap(1, 1), 0)
}
fn member(card_id: u32, root: u32, branch: u8, index: u8) -> CardView {
    card(card_id, SOUL, Micro::Stacked { root, branch, index }, 0)
}
fn soul(card_id: u32, player: u32) -> CardView {
    CardView { packed_definition: PLAYER_SOUL_PACKED, ..card(card_id, player, Micro::snap(0, 0), 0) }
}
fn held(mut c: CardView, field: HoldField) -> CardView {
    c.flags = increment_hold(c.flags, field);
    c
}
fn dead(mut c: CardView) -> CardView {
    c.flags |= 1 << flag_bit("flags", "dead").unwrap();
    c
}
fn of(mut c: CardView, owner_id: u32) -> CardView {
    c.owner_id = owner_id;
    c
}
fn kind(mut c: CardView, packed_definition: u16) -> CardView {
    c.packed_definition = packed_definition;
    c
}
fn store(cards: &[CardView]) -> Mock {
    let souls = [soul(SOUL, P), soul(OTHER, 9)];
    Mock(cards.iter().chain(souls.iter()).map(|c| (c.card_id, *c)).collect())
}
fn stack(parent_id: u32, direction: u8) -> Placement {
    Placement::Stack { parent_id, direction }
}
fn drop_at(q: u8, r: u8) -> Placement {
    Placement::Loose { surface: WORLD_LAYER, macro_zone: zone(), q, r, x: 0, y: 0 }
}
// Definition 1 is a tile; all others are regular.
fn bits(packed: u16) -> StackBits {
    if packed == 1 { tile_bits() } else { default_bits() }
}
fn refusal(cards: &[CardView], card_id: u32, placement: Placement) -> String {
    plan_place(&store(cards), card_id, placement, P, 0, &bits).unwrap_err()
}
fn writes(cards: &[CardView], card_id: u32, placement: Placement) -> Vec<Write> {
    plan_place(&store(cards), card_id, placement, P, 0, &bits).unwrap().writes
}
fn row(card_id: u32, micro: Micro) -> Write {
    Write { card_id, macro_zone: zone(), micro }
}
fn at(root: u32, branch: u8, index: u8) -> Micro {
    Micro::Stacked { root, branch, index }
}

#[test]
fn source_refusals() {
    let go = drop_at(2, 2);
    assert_eq!(refusal(&[], 10, go), "place: card 10 not found");
    assert_eq!(refusal(&[dead(loose(10))], 10, go), "place: card 10 is dead");
    assert_eq!(refusal(&[of(loose(10), OTHER)], 10, go), "place: card 10 is owned by player 9 (not 7)");
    // A broken owner chain counts as the world's.
    assert_eq!(refusal(&[of(loose(10), 500)], 10, go), "place: card 10 is owned by player 0 (not 7)");
    let pins = [
        (HoldField::SlotClaim, "exclusively held"),
        (HoldField::SlotBorrow, "borrow-held"),
        (HoldField::PositionHold, "position-held"),
    ];
    for (field, words) in pins {
        assert_eq!(
            refusal(&[held(loose(10), field)], 10, go),
            format!("place: card 10 is {words} by an in-flight action")
        );
        assert_eq!(
            refusal(&[loose(10), held(member(11, 10, STACK_DIR_UP, 0), field)], 10, go),
            format!("place: descendant 11 is {words} by an in-flight action")
        );
    }
    // Other holds do not pin.
    let free = held(held(held(loose(10), HoldField::Touch), HoldField::DropHold), HoldField::Server);
    assert_eq!(writes(&[free], 10, go).len(), 1);
}

#[test]
fn parent_refusals() {
    let up = |id: u32| stack(id, STACK_DIR_UP);
    assert_eq!(refusal(&[loose(10)], 10, up(0)), "place: Stack placement with parent_id == 0");
    assert_eq!(refusal(&[loose(10)], 10, up(10)), "place: card 10 can't stack onto itself");
    assert_eq!(
        refusal(&[loose(10), loose(20)], 10, stack(20, 3)),
        "place: invalid direction 3 (expected UP=1, DOWN=2, HEX=0)"
    );
    assert_eq!(refusal(&[loose(10)], 10, up(20)), "place: parent card 20 not found");
    assert_eq!(refusal(&[loose(10), dead(loose(20))], 10, up(20)), "place: parent card 20 is dead");
    assert_eq!(
        refusal(&[loose(10), held(loose(20), HoldField::DropHold)], 10, up(20)),
        "place: parent card 20 blocks stacking (drop_hold_count > 0)"
    );
    assert_eq!(
        refusal(&[loose(10), member(20, 10, STACK_DIR_UP, 0)], 10, up(20)),
        "place: stacking would form a cycle (source 10 is the root of parent 20's chain)"
    );
    assert_eq!(
        refusal(&[loose(10), of(loose(20), OTHER)], 10, up(20)),
        "place: parent 20's chain is owned by player 9 (not 7)"
    );
    assert_eq!(
        refusal(&[kind(loose(10), 1), kind(loose(20), 1)], 10, up(20)),
        "place: card 10 can't stack onto 20 — no stack it joins, and the inverse drop isn't available"
    );
    // The world's chains are open to all.
    assert_eq!(
        writes(&[loose(10), of(loose(20), 0)], 10, up(20)),
        [row(10, at(20, STACK_DIR_UP, 0))]
    );
}

#[test]
fn loose_refusals() {
    assert_eq!(refusal(&[loose(10)], 10, drop_at(8, 0)), "place: cell (8, 0) out of range (0..=7 each)");
    assert_eq!(refusal(&[loose(10)], 10, drop_at(0, 9)), "place: cell (0, 9) out of range (0..=7 each)");
    let chest = with_owner(with_surface(0, INVENTORY_LAYER), 30);
    let go = Placement::Loose { surface: INVENTORY_LAYER, macro_zone: chest, q: 0, r: 0, x: 0, y: 0 };
    assert_eq!(
        refusal(&[loose(10), of(loose(30), OTHER)], 10, go),
        format!("place: container {chest} (owner 30) not owned by caller 7")
    );
    // The caller's own container is open.
    let rows = writes(&[loose(10), loose(30)], 10, go);
    assert_eq!(rows, [Write { card_id: 10, macro_zone: chest, micro: Micro::snap(0, 0) }]);
}

#[test]
fn loose_root_takes_members_along() {
    let go = Placement::Loose { surface: INVENTORY_LAYER, macro_zone: zone(), q: 3, r: 4, x: -5, y: 6 };
    let rows = writes(&[loose(10), member(11, 10, STACK_DIR_UP, 0), member(12, 10, STACK_DIR_DOWN, 3)], 10, go);
    let to = with_surface(zone(), INVENTORY_LAYER);
    assert_eq!(
        rows,
        [
            Write { card_id: 10, macro_zone: to, micro: Micro::Loose { local_q: 3, local_r: 4, x: -5, y: 6 } },
            Write { card_id: 11, macro_zone: to, micro: at(10, STACK_DIR_UP, 0) },
            Write { card_id: 12, macro_zone: to, micro: at(10, STACK_DIR_DOWN, 3) },
        ]
    );
}

#[test]
fn stack_move_lands_in_the_parents_zone() {
    let mut parent = loose(20);
    parent.macro_zone = with_owner(with_surface(5, INVENTORY_LAYER), SOUL);
    let rows = writes(&[loose(10), parent, member(11, 10, STACK_DIR_UP, 2)], 10, stack(20, STACK_DIR_DOWN));
    assert_eq!(
        rows,
        [
            Write { card_id: 10, macro_zone: parent.macro_zone, micro: at(20, STACK_DIR_DOWN, 0) },
            Write { card_id: 11, macro_zone: parent.macro_zone, micro: at(20, STACK_DIR_UP, 2) },
        ]
    );
}

#[test]
fn drop_onto_a_member_appends_to_its_root() {
    let rows = writes(&[loose(10), loose(20), member(21, 20, STACK_DIR_UP, 4)], 10, stack(21, STACK_DIR_UP));
    assert_eq!(rows, [row(10, at(20, STACK_DIR_UP, 5))]);
}

#[test]
fn append_slot_stops_at_the_last() {
    let rows = writes(&[loose(10), loose(20), member(21, 20, STACK_DIR_UP, 15)], 10, stack(20, STACK_DIR_UP));
    assert_eq!(rows, [row(10, at(20, STACK_DIR_UP, 15))]);
    // Members elsewhere do not count.
    let mut away = member(21, 20, STACK_DIR_UP, 4);
    away.macro_zone = 99;
    let rows = writes(&[loose(10), loose(20), away], 10, stack(20, STACK_DIR_UP));
    assert_eq!(rows, [row(10, at(20, STACK_DIR_UP, 0))]);
}

#[test]
fn card_onto_tile_turns_around() {
    let rows = writes(&[loose(10), kind(loose(20), 1)], 10, stack(20, STACK_DIR_UP));
    assert_eq!(rows, [row(20, at(10, STACK_DIR_HEX, 0))]);
    // Not where the source is a member.
    let cards = [loose(9), member(10, 9, STACK_DIR_UP, 0), kind(loose(20), 1)];
    assert!(refusal(&cards, 10, stack(20, STACK_DIR_UP)).contains("can't stack onto 20"));
    // Not where the tile has members.
    let cards = [loose(10), kind(loose(20), 1), member(21, 20, STACK_DIR_UP, 0)];
    let capped = |p: u16| if p == 1 { tile_bits() } else { StackBits { hosts: 0b0010, joins: 0b1100 } };
    let err = plan_place(&store(&cards), 10, stack(20, STACK_DIR_UP), P, 0, &capped).unwrap_err();
    assert!(err.contains("can't stack onto 20"), "{err}");
}

#[test]
fn drag_carries_the_run_and_closes_the_chain() {
    let cards = [
        loose(20),
        member(21, 20, STACK_DIR_UP, 0),
        member(22, 20, STACK_DIR_UP, 1),
        member(23, 20, STACK_DIR_UP, 2),
        held(member(24, 20, STACK_DIR_UP, 3), HoldField::PositionHold),
        member(25, 20, STACK_DIR_UP, 4),
        member(26, 20, STACK_DIR_DOWN, 0),
    ];
    assert_eq!(
        writes(&cards, 22, drop_at(5, 6)),
        [
            row(22, Micro::snap(5, 6)),
            row(23, at(22, STACK_DIR_UP, 0)),
            row(24, at(20, STACK_DIR_UP, 1)),
            row(25, at(20, STACK_DIR_UP, 2)),
        ]
    );
    // A gap ends the run too.
    let cards = [
        loose(20),
        member(21, 20, STACK_DIR_UP, 0),
        member(22, 20, STACK_DIR_UP, 1),
        member(23, 20, STACK_DIR_UP, 3),
    ];
    assert_eq!(
        writes(&cards, 21, drop_at(0, 0)),
        [row(21, Micro::snap(0, 0)), row(22, at(21, STACK_DIR_UP, 0)), row(23, at(20, STACK_DIR_UP, 0))]
    );
}

#[test]
fn splice_leaves_a_closed_chain_alone() {
    let s = store(&[loose(20), member(21, 20, STACK_DIR_UP, 0), member(22, 20, STACK_DIR_UP, 1)]);
    assert_eq!(plan_splice(&s, &[], 0), []);
    assert_eq!(plan_splice(&s, &[22], 0), []);
    assert_eq!(plan_splice(&s, &[99], 0), []);
    assert_eq!(plan_splice(&s, &[21], 0), [row(22, at(20, STACK_DIR_UP, 0))]);
    // The whole chain gone leaves nothing to write.
    assert_eq!(plan_splice(&s, &[20, 21, 22], 0), []);
}

#[test]
fn splice_promotes_up_then_hex_then_down() {
    let root = loose(20);
    let (up, hex, down) = (
        member(23, 20, STACK_DIR_UP, 2),
        member(22, 20, STACK_DIR_HEX, 1),
        member(21, 20, STACK_DIR_DOWN, 0),
    );
    let place = Micro::snap(1, 1);
    assert_eq!(
        plan_splice(&store(&[root, up, hex, down]), &[20], 0),
        [row(23, place), row(22, at(23, STACK_DIR_HEX, 0)), row(21, at(23, STACK_DIR_DOWN, 0))]
    );
    assert_eq!(
        plan_splice(&store(&[root, hex, down]), &[20], 0),
        [row(22, place), row(21, at(22, STACK_DIR_DOWN, 0))]
    );
    assert_eq!(plan_splice(&store(&[root, down]), &[20], 0), [row(21, place)]);
    // The dead are passed over.
    assert_eq!(
        plan_splice(&store(&[root, dead(up), hex, down]), &[20], 0),
        [row(22, place), row(21, at(22, STACK_DIR_DOWN, 0))]
    );
}

#[test]
fn splice_takes_the_chains_in_order() {
    let s = store(&[
        loose(30),
        member(31, 30, STACK_DIR_UP, 0),
        member(32, 30, STACK_DIR_UP, 1),
        loose(20),
        member(41, 20, STACK_DIR_UP, 0),
        member(42, 20, STACK_DIR_UP, 1),
    ]);
    assert_eq!(
        plan_splice(&s, &[31, 41, 31], 0),
        [row(42, at(20, STACK_DIR_UP, 0)), row(32, at(30, STACK_DIR_UP, 0))]
    );
}

#[test]
fn fickle_claims_decide_only_borrowed_cards() {
    let calls = std::cell::Cell::new(0);
    let fickle = |_: u32| {
        calls.set(calls.get() + 1);
        calls.get() % 2 == 0
    };
    let s = store(&[loose(50), dead(loose(51)), held(loose(52), HoldField::SlotBorrow)]);
    // Fine even if claimed, and refused even if not.
    assert_eq!(validate_bindings(&s, 1, 50, &[vec![50]], P, 0, fickle), Ok(()));
    assert!(validate_bindings(&s, 1, 50, &[vec![51]], P, 0, fickle).is_err());
    // The root is asked about apart from the bindings.
    calls.set(0);
    let err = validate_bindings(&s, 1, 52, &[vec![52]], P, 0, fickle).unwrap_err();
    assert_eq!(err, "card 52 is borrow-held by another in-flight action; cannot claim");
}

#[test]
fn chain_roots() {
    assert_eq!(chain_root_of(&loose(10)), 10);
    assert_eq!(chain_root_of(&member(11, 10, STACK_DIR_UP, 0)), 10);
}

#[test]
fn cards_sort_by_slot_and_card() {
    let cards = vec![
        member(3, 20, STACK_DIR_UP, 1),
        member(2, 20, STACK_DIR_UP, 0),
        member(1, 20, STACK_DIR_UP, 1),
    ];
    let ids = |order: Order| -> Vec<u32> { sort_cards(&cards, order).iter().map(|c| c.card_id).collect() };
    assert_eq!(ids(Order::Index), [2, 3, 1]);
    assert_eq!(ids(Order::IndexThenCard), [2, 1, 3]);
}

#[test]
fn owners_resolve_through_the_chain() {
    let s = store(&[loose(10), of(loose(11), 10), of(loose(12), 0), of(loose(13), 500), of(loose(14), 14)]);
    assert_eq!(owning_player(&s, SOUL, 0), Some(P));
    assert_eq!(owning_player(&s, 11, 0), Some(P));
    assert_eq!(owning_player(&s, 12, 0), Some(0));
    assert_eq!(owning_player(&s, 13, 0), None);
    assert_eq!(owning_player(&s, 14, 0), None); // a chain that never ends
    assert_eq!(owning_player(&s, 99, 0), None);
    // 31 cards up to the soul are within reach, 32 are not.
    let long: Vec<CardView> = (0..40).map(|i| of(loose(100 + i), if i == 0 { SOUL } else { 99 + i })).collect();
    assert_eq!(owning_player(&store(&long), 130, 0), Some(P));
    assert_eq!(owning_player(&store(&long), 131, 0), None);
}

#[test]
fn binding_refusals() {
    let check = |cards: &[CardView], root: u32, bound: &[Vec<u32>], claim: u32| {
        validate_bindings(&store(cards), 1, root, bound, P, 0, |id| id == claim)
    };
    let says = |cards: &[CardView], root: u32, bound: &[Vec<u32>], claim: u32| {
        check(cards, root, bound, claim).unwrap_err()
    };
    assert_eq!(says(&[], 50, &[], 0), "root card 50 not found");
    assert_eq!(says(&[], 0, &[vec![0, 51]], 0), "card 51 not found");
    let a = loose(50);
    assert_eq!(says(&[a], 0, &[vec![50], vec![0, 50]], 0), "card 50 appears more than once in bindings");
    assert_eq!(says(&[dead(a)], 50, &[], 0), "card 50 unavailable: dead");
    assert_eq!(
        says(&[held(a, HoldField::SlotClaim)], 0, &[vec![50]], 0),
        "card 50 unavailable: exclusively held by another in-flight action"
    );
    let borrowed = held(a, HoldField::SlotBorrow);
    assert_eq!(
        says(&[borrowed], 50, &[], 50),
        "card 50 is borrow-held by another in-flight action; cannot claim"
    );
    assert_eq!(check(&[borrowed], 50, &[], 0), Ok(()));
    let twice = held(held(a, HoldField::Touch), HoldField::Touch);
    assert_eq!(check(&[twice], 0, &[vec![50]], 0), Ok(()));
    assert_eq!(
        says(&[held(twice, HoldField::Touch)], 0, &[vec![50]], 0),
        "card 50 has too many concurrent in-flight actions (cap 3)"
    );
    assert_eq!(
        says(&[held(a, HoldField::DropHold)], 0, &[vec![50]], 0),
        "card 50 blocks stacking (drop_hold_count > 0)"
    );
    // The root may be bound as well, and empty slots are passed over.
    assert_eq!(check(&[a], 50, &[vec![0, 0], vec![], vec![50]], 50), Ok(()));
    // The root comes first.
    assert_eq!(says(&[dead(a)], 51, &[vec![50]], 0), "root card 51 not found");
}

// The cards of a store once rows are applied to them.
fn applied(cards: &[CardView], rows: &[Write]) -> BTreeMap<u32, Micro> {
    let mut places: BTreeMap<u32, Micro> =
        cards.iter().map(|c| (c.card_id, Micro::of(c.micro_location, c.flags))).collect();
    for w in rows {
        let before = cards.iter().find(|c| c.card_id == w.card_id).unwrap();
        let (location, flags) = w.micro.apply(before.flags);
        places.insert(w.card_id, Micro::of(location, flags));
    }
    places
}

#[test]
fn spliced_chains_have_no_gap_and_each_card_one_row() {
    let cards = [
        loose(20),
        member(21, 20, STACK_DIR_UP, 0),
        member(22, 20, STACK_DIR_UP, 2),
        member(23, 20, STACK_DIR_UP, 5),
        member(24, 20, STACK_DIR_DOWN, 1),
        loose(30),
        member(31, 30, STACK_DIR_HEX, 0),
        member(32, 30, STACK_DIR_UP, 3),
        member(33, 30, STACK_DIR_UP, 7),
    ];
    let rows = plan_splice(&store(&cards), &[21, 30], 0);
    let mut ids: Vec<u32> = rows.iter().map(|w| w.card_id).collect();
    ids.sort();
    assert_eq!(ids, [22, 23, 24, 31, 32, 33]);
    let places = applied(&cards, &rows);
    assert_eq!(places[&22], at(20, STACK_DIR_UP, 0));
    assert_eq!(places[&23], at(20, STACK_DIR_UP, 1));
    assert_eq!(places[&24], at(20, STACK_DIR_DOWN, 0));
    assert_eq!(places[&32], Micro::snap(1, 1));
    assert_eq!(places[&33], at(32, STACK_DIR_UP, 0));
    assert_eq!(places[&31], at(32, STACK_DIR_HEX, 0));
}

#[test]
fn dragged_cards_read_back_as_planned() {
    let cards: Vec<CardView> =
        std::iter::once(loose(20)).chain((0..16).map(|i| member(40 + i as u32, 20, STACK_DIR_UP, i))).collect();
    let rows = writes(&cards, 40, drop_at(7, 7));
    assert_eq!(rows.len(), 16);
    let places = applied(&cards, &rows);
    assert_eq!(places[&40], Micro::snap(7, 7));
    for i in 1..16u8 {
        assert_eq!(places[&(40 + i as u32)], at(40, STACK_DIR_UP, i - 1));
    }
}
