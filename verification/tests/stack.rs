use resonantdust::codec::card_model::{increment_hold, HoldField, Micro};
use resonantdust::codec::packed::{
    with_owner, with_surface, INVENTORY_LAYER, PLAYER_SOUL_PACKED, STACK_DIR_DOWN, STACK_DIR_UP,
    WORLD_LAYER,
};
use resonantdust::codec::stacking::{default_bits, StackBits};
use resonantdust::state::chain::StackStore;
use resonantdust::state::recipe_state::{CardStore, CardView};
use resonantdust::state::splice::plan_splice;
use resonantdust::state::stack::{plan_place, Placement};
use std::collections::HashMap;

// Build a CardView via the codec so flags are laid out exactly as on the wire.
fn loose(card_id: u32, owner_id: u32, surface: u8, q: u8, r: u8) -> CardView {
    let (micro_location, flags) = Micro::snap(q, r).apply(0);
    let macro_zone = with_surface(0, surface);
    CardView { card_id, owner_id, micro_location, macro_zone, packed_definition: 0, flags, stock: 0 }
}
fn stacked(card_id: u32, owner_id: u32, macro_zone: u64, root: u32, branch: u8, index: u8) -> CardView {
    let (micro_location, flags) = Micro::Stacked { root, branch, index }.apply(0);
    CardView { card_id, owner_id, micro_location, macro_zone, packed_definition: 0, flags, stock: 0 }
}
/// A player_soul (identified by definition 0xFFFF): owner_id is the player_id,
/// terminates the owner walk.
fn soul(card_id: u32, player_id: u32) -> CardView {
    let (micro_location, flags) = Micro::snap(0, 0).apply(0);
    CardView {
        card_id,
        owner_id: player_id,
        micro_location,
        macro_zone: 0,
        packed_definition: PLAYER_SOUL_PACKED,
        flags,
        stock: 0,
    }
}

#[derive(Default)]
struct Mock(HashMap<u32, CardView>);
impl Mock {
    fn with(mut self, v: CardView) -> Self {
        self.0.insert(v.card_id, v);
        self
    }
}
impl CardStore for Mock {
    fn card_at(&self, id: u32, _t: u64) -> Option<CardView> {
        self.0.get(&id).cloned()
    }
}
impl StackStore for Mock {
    fn members_of(&self, root_id: u32, _now: u64) -> Vec<CardView> {
        self.0
            .values()
            .filter(|v| matches!(Micro::of(v.micro_location, v.flags), Micro::Stacked { root, .. } if root == root_id))
            .cloned()
            .collect()
    }
}

const P: u32 = 7; // caller player_id

#[test]
fn stack_onto_loose_root_picks_first_index() {
    // soul(1024) owns parent(1025, loose on world) and source(1026, loose).
    let store = Mock::default()
        .with(soul(1024, P))
        .with({ let mut c = loose(1025, 1024, WORLD_LAYER, 1, 1); c.macro_zone = with_surface(0, WORLD_LAYER); c })
        .with({ let mut c = loose(1026, 1024, WORLD_LAYER, 2, 2); c.macro_zone = with_surface(0, WORLD_LAYER); c });
    let plan = plan_place(&store, 1026, Placement::Stack { parent_id: 1025, direction: STACK_DIR_UP }, P, 0, &|_| default_bits()).unwrap();
    assert_eq!(plan.writes.len(), 1);
    let w = plan.writes[0];
    assert_eq!(w.card_id, 1026);
    assert_eq!(w.micro, Micro::Stacked { root: 1025, branch: STACK_DIR_UP, index: 0 });
}

#[test]
fn second_stack_appends_next_index() {
    let mz = with_surface(0, WORLD_LAYER);
    let store = Mock::default()
        .with(soul(1024, P))
        .with({ let mut c = loose(1025, 1024, WORLD_LAYER, 1, 1); c.macro_zone = mz; c })
        .with(stacked(1027, 1024, mz, 1025, STACK_DIR_UP, 0)) // existing member at index 0
        .with({ let mut c = loose(1026, 1024, WORLD_LAYER, 2, 2); c.macro_zone = mz; c });
    let plan = plan_place(&store, 1026, Placement::Stack { parent_id: 1025, direction: STACK_DIR_UP }, P, 0, &|_| default_bits()).unwrap();
    assert_eq!(plan.writes[0].micro, Micro::Stacked { root: 1025, branch: STACK_DIR_UP, index: 1 });
}

#[test]
fn members_travel_and_reroot_on_stack_move() {
    let mz = with_surface(0, WORLD_LAYER);
    // source 1026 is a loose root with a member 1028 stacked on it.
    let store = Mock::default()
        .with(soul(1024, P))
        .with({ let mut c = loose(1025, 1024, WORLD_LAYER, 1, 1); c.macro_zone = mz; c })
        .with({ let mut c = loose(1026, 1024, WORLD_LAYER, 2, 2); c.macro_zone = mz; c })
        .with(stacked(1028, 1024, mz, 1026, STACK_DIR_UP, 0));
    let plan = plan_place(&store, 1026, Placement::Stack { parent_id: 1025, direction: STACK_DIR_DOWN }, P, 0, &|_| default_bits()).unwrap();
    assert_eq!(plan.writes.len(), 2, "source + its member");
    // source becomes member of 1025; its member re-roots onto 1025 keeping branch/index.
    assert_eq!(plan.writes[0].micro, Micro::Stacked { root: 1025, branch: STACK_DIR_DOWN, index: 0 });
    let member = plan.writes.iter().find(|w| w.card_id == 1028).unwrap();
    assert_eq!(member.micro, Micro::Stacked { root: 1025, branch: STACK_DIR_UP, index: 0 });
}

#[test]
fn rejects_cycle_self_and_foreign_owner() {
    let mz = with_surface(0, WORLD_LAYER);
    let store = Mock::default()
        .with(soul(1024, P))
        .with({ let mut c = loose(1025, 1024, WORLD_LAYER, 1, 1); c.macro_zone = mz; c })
        .with(stacked(1026, 1024, mz, 1025, STACK_DIR_UP, 0)) // 1026 is a member of 1025
        .with(soul(2000, 9))
        .with({ let mut c = loose(3000, 2000, WORLD_LAYER, 3, 3); c.macro_zone = mz; c }); // owned by player 9
    // self-stack
    assert!(plan_place(&store, 1025, Placement::Stack { parent_id: 1025, direction: STACK_DIR_UP }, P, 0, &|_| default_bits()).is_err());
    // cycle: stacking root 1025 onto its own member 1026
    let err = plan_place(&store, 1025, Placement::Stack { parent_id: 1026, direction: STACK_DIR_UP }, P, 0, &|_| default_bits()).unwrap_err();
    assert!(err.contains("cycle"), "{err}");
    // foreign-owned source
    let err = plan_place(&store, 3000, Placement::Stack { parent_id: 1025, direction: STACK_DIR_UP }, P, 0, &|_| default_bits()).unwrap_err();
    assert!(err.contains("owned by player 9"), "{err}");
}

#[test]
fn loose_world_placement_lands_at_cell() {
    let store = Mock::default()
        .with(soul(1024, P))
        .with({ let mut c = loose(1026, 1024, WORLD_LAYER, 2, 2); c.macro_zone = with_surface(0, WORLD_LAYER); c });
    let plan = plan_place(
        &store,
        1026,
        Placement::Loose { surface: WORLD_LAYER, macro_zone: with_surface(0, WORLD_LAYER), q: 5, r: 6, x: 0, y: 0 },
        P,
        0,
        &|_| default_bits(),
    )
    .unwrap();
    assert_eq!(plan.writes[0].micro, Micro::Loose { local_q: 5, local_r: 6, x: 0, y: 0 });
}

#[test]
fn loose_into_unowned_container_rejected() {
    // A container macro_zone owned by player 9's soul; caller P may not place.
    let other_soul = 5000u32;
    let inv = with_owner(with_surface(0, INVENTORY_LAYER), other_soul);
    let store = Mock::default()
        .with(soul(2000, 9))
        .with({ let mut c = loose(other_soul, 2000, INVENTORY_LAYER, 0, 0); c.owner_id = 2000; c })
        .with(soul(1024, P))
        .with({ let mut c = loose(1026, 1024, WORLD_LAYER, 2, 2); c.macro_zone = with_surface(0, WORLD_LAYER); c });
    let err = plan_place(
        &store,
        1026,
        Placement::Loose { surface: INVENTORY_LAYER, macro_zone: inv, q: 0, r: 0, x: 0, y: 0 },
        P,
        0,
        &|_| default_bits(),
    )
    .unwrap_err();
    assert!(err.contains("not owned by caller"), "{err}");
}

// ── leaf-aware host/join stacking (test_dust / log scenario) ──────────────
//
// Three card kinds, resolved by `packed_definition` through the test `BITS`:
//   LOG  (10): hosts top+bottom, joins top+bottom — a normal host.
//   DUST (20): hosts NOTHING, joins top+bottom — a leaf that caps a stack.
//   CORPUS(30): DEFAULT (hosts hex+top+bottom, joins top+bottom).
const LOG: u16 = 10;
const DUST: u16 = 20;
const CORPUS: u16 = 30;
const TOP_BOTTOM: u8 = 0b1100;

fn bits_for(p: u16) -> StackBits {
    match p {
        LOG => StackBits { hosts: TOP_BOTTOM, joins: TOP_BOTTOM },
        DUST => StackBits { hosts: 0, joins: TOP_BOTTOM },
        _ => default_bits(), // CORPUS + anything else
    }
}

fn card(id: u32, packed: u16) -> CardView {
    let mut c = loose(id, 1024, WORLD_LAYER, 2, 2);
    c.macro_zone = with_surface(0, WORLD_LAYER);
    c.packed_definition = packed;
    c
}

#[test]
fn forward_dust_joins_log_top() {
    // Drop dust onto a loose log: log hosts top, dust joins it → dust on top.
    let store = Mock::default().with(soul(1024, P)).with(card(1100, LOG)).with(card(1200, DUST));
    let plan = plan_place(
        &store,
        1200,
        Placement::Stack { parent_id: 1100, direction: STACK_DIR_UP },
        P,
        0,
        &|p| bits_for(p),
    )
    .unwrap();
    assert_eq!(plan.writes.len(), 1);
    assert_eq!(plan.writes[0].card_id, 1200);
    assert_eq!(plan.writes[0].micro, Micro::Stacked { root: 1100, branch: STACK_DIR_UP, index: 0 });
}

#[test]
fn invert_log_onto_dust_reroots_dust_onto_log() {
    // Drop log onto a LONE dust: forward fails (dust hosts nothing), so the
    // drop inverts — the dust re-roots onto the (stationary) log at top. Same
    // end state as `forward_dust_joins_log_top`, reached the other way.
    let store = Mock::default().with(soul(1024, P)).with(card(1100, LOG)).with(card(1200, DUST));
    let plan = plan_place(
        &store,
        1100,
        Placement::Stack { parent_id: 1200, direction: STACK_DIR_UP },
        P,
        0,
        &|p| bits_for(p),
    )
    .unwrap();
    // Only the parent (dust) is written; the source (log) stays put as root.
    assert_eq!(plan.writes.len(), 1);
    assert_eq!(plan.writes[0].card_id, 1200);
    assert_eq!(plan.writes[0].micro, Micro::Stacked { root: 1100, branch: STACK_DIR_UP, index: 0 });
}

#[test]
fn invert_rejected_when_parent_is_a_member() {
    // dust is already stacked on log (top). Dropping corpus onto the dust must
    // REJECT: forward fails (dust hosts nothing) and the inverse is disallowed
    // because dust can't be torn out of log's chain.
    let mz = with_surface(0, WORLD_LAYER);
    let store = Mock::default()
        .with(soul(1024, P))
        .with(card(1100, LOG))
        .with({ let mut c = stacked(1200, 1024, mz, 1100, STACK_DIR_UP, 0); c.packed_definition = DUST; c })
        .with(card(1300, CORPUS));
    let err = plan_place(
        &store,
        1300,
        Placement::Stack { parent_id: 1200, direction: STACK_DIR_UP },
        P,
        0,
        &|p| bits_for(p),
    )
    .unwrap_err();
    assert!(err.contains("can't stack onto 1200"), "{err}");
}

#[test]
fn leaf_fallback_corpus_skips_capped_top_for_bottom() {
    // log's top is capped by a dust leaf (hosts nothing). Dropping corpus onto
    // the log root asking for UP can't extend top (the leaf won't host it), so
    // it falls through to the bottom stack, which the log hosts.
    let mz = with_surface(0, WORLD_LAYER);
    let store = Mock::default()
        .with(soul(1024, P))
        .with(card(1100, LOG))
        .with({ let mut c = stacked(1200, 1024, mz, 1100, STACK_DIR_UP, 0); c.packed_definition = DUST; c })
        .with(card(1300, CORPUS));
    let plan = plan_place(
        &store,
        1300,
        Placement::Stack { parent_id: 1100, direction: STACK_DIR_UP },
        P,
        0,
        &|p| bits_for(p),
    )
    .unwrap();
    assert_eq!(plan.writes[0].card_id, 1300);
    assert_eq!(plan.writes[0].micro, Micro::Stacked { root: 1100, branch: STACK_DIR_DOWN, index: 0 });
}

#[test]
fn two_non_hosting_cards_cannot_stack_either_way() {
    // Two dusts: neither hosts anything, so forward AND inverse both fail.
    let store = Mock::default().with(soul(1024, P)).with(card(1200, DUST)).with(card(1201, DUST));
    let err = plan_place(
        &store,
        1200,
        Placement::Stack { parent_id: 1201, direction: STACK_DIR_UP },
        P,
        0,
        &|p| bits_for(p),
    )
    .unwrap_err();
    assert!(err.contains("can't stack onto 1201"), "{err}");
}

// ── splice index-collapse ─────────────────────────────────────────────────

#[test]
fn splice_collapses_branch_after_member_destroy() {
    // top branch on root 100: 200@0,201@1,202@2,203@3,204@4. Destroy 202 (a
    // mid-stack member) → 203,204 shift down to 2,3; 200,201 unchanged (no
    // writes). Mirrors corpus_b_top destroying a mid-stack corpus so the
    // survivor's index becomes the card-below's index + 1.
    let mz = with_surface(0, WORLD_LAYER);
    let store = Mock::default()
        .with(soul(1024, P))
        .with({ let mut c = loose(100, 1024, WORLD_LAYER, 1, 1); c.macro_zone = mz; c })
        .with(stacked(200, 1024, mz, 100, STACK_DIR_UP, 0))
        .with(stacked(201, 1024, mz, 100, STACK_DIR_UP, 1))
        .with(stacked(202, 1024, mz, 100, STACK_DIR_UP, 2))
        .with(stacked(203, 1024, mz, 100, STACK_DIR_UP, 3))
        .with(stacked(204, 1024, mz, 100, STACK_DIR_UP, 4));
    let writes = plan_splice(&store, &[202], 0);
    let mut got: Vec<(u32, u8)> = writes
        .iter()
        .map(|w| match w.micro {
            Micro::Stacked { index, root, .. } => {
                assert_eq!(root, 100, "root unchanged on member destroy");
                (w.card_id, index)
            }
            _ => panic!("expected stacked write"),
        })
        .collect();
    got.sort();
    assert_eq!(got, vec![(203, 2), (204, 3)], "only the cards above the hole shift down");
}

#[test]
fn splice_promotes_successor_and_collapses_on_root_destroy() {
    // root 100 destroyed; members 200@up0, 201@up1, 202@down0. Successor =
    // 200 (rank up<down, lowest index) → loose root; 201 collapses to up0 on
    // it; 202 re-roots to down0.
    let mz = with_surface(0, WORLD_LAYER);
    let store = Mock::default()
        .with(soul(1024, P))
        .with({ let mut c = loose(100, 1024, WORLD_LAYER, 2, 2); c.macro_zone = mz; c })
        .with(stacked(200, 1024, mz, 100, STACK_DIR_UP, 0))
        .with(stacked(201, 1024, mz, 100, STACK_DIR_UP, 1))
        .with(stacked(202, 1024, mz, 100, STACK_DIR_DOWN, 0));
    let writes = plan_splice(&store, &[100], 0);
    let w200 = writes.iter().find(|w| w.card_id == 200).expect("successor write");
    assert!(matches!(w200.micro, Micro::Loose { .. }), "successor becomes loose root");
    let w201 = writes.iter().find(|w| w.card_id == 201).expect("201 write");
    assert_eq!(w201.micro, Micro::Stacked { root: 200, branch: STACK_DIR_UP, index: 0 });
    let w202 = writes.iter().find(|w| w.card_id == 202).expect("202 write");
    assert_eq!(w202.micro, Micro::Stacked { root: 200, branch: STACK_DIR_DOWN, index: 0 });
}

// ── drag-carry on a loose move of a stack member ─────────────────────────

#[test]
fn loose_move_member_carries_whole_run_when_no_lock() {
    // root 100; top: 200@0, 201@1, 202@2 (no holds). Move 200 loose → it carries
    // 201,202 (the run above it); they re-root onto 200 as a fresh top stack.
    let mz = with_surface(0, WORLD_LAYER);
    let store = Mock::default()
        .with(soul(1024, P))
        .with({ let mut c = loose(100, 1024, WORLD_LAYER, 1, 1); c.macro_zone = mz; c })
        .with(stacked(200, 1024, mz, 100, STACK_DIR_UP, 0))
        .with(stacked(201, 1024, mz, 100, STACK_DIR_UP, 1))
        .with(stacked(202, 1024, mz, 100, STACK_DIR_UP, 2));
    let plan = plan_place(
        &store,
        200,
        Placement::Loose { surface: WORLD_LAYER, macro_zone: with_surface(0, WORLD_LAYER), q: 5, r: 6, x: 0, y: 0 },
        P,
        0,
        &|_| default_bits(),
    )
    .unwrap();
    let m = |id: u32| plan.writes.iter().find(|w| w.card_id == id).map(|w| w.micro);
    assert!(matches!(m(200), Some(Micro::Loose { .. })), "leader becomes a loose root");
    assert_eq!(m(201), Some(Micro::Stacked { root: 200, branch: STACK_DIR_UP, index: 0 }));
    assert_eq!(m(202), Some(Micro::Stacked { root: 200, branch: STACK_DIR_UP, index: 1 }));
    // root 100 has no top survivors → no collapse writes for it.
    assert_eq!(plan.writes.len(), 3, "leader + 2 carried, no old-chain writes");
}

#[test]
fn loose_move_member_run_terminates_at_position_lock_and_old_chain_collapses() {
    // root 100; top: 200@0, 201@1, 202@2 (POSITION-HELD), 203@3. Move 200 loose:
    // the run carries 201 only (it stops at the held 202); 202+203 stay and
    // collapse to 0,1 on root 100. Mirrors jim moving axe1 with dust locked.
    let mz = with_surface(0, WORLD_LAYER);
    let held = {
        let mut c = stacked(202, 1024, mz, 100, STACK_DIR_UP, 2);
        c.flags = increment_hold(c.flags, HoldField::PositionHold);
        c
    };
    let store = Mock::default()
        .with(soul(1024, P))
        .with({ let mut c = loose(100, 1024, WORLD_LAYER, 1, 1); c.macro_zone = mz; c })
        .with(stacked(200, 1024, mz, 100, STACK_DIR_UP, 0))
        .with(stacked(201, 1024, mz, 100, STACK_DIR_UP, 1))
        .with(held)
        .with(stacked(203, 1024, mz, 100, STACK_DIR_UP, 3));
    let plan = plan_place(
        &store,
        200,
        Placement::Loose { surface: WORLD_LAYER, macro_zone: with_surface(0, WORLD_LAYER), q: 5, r: 6, x: 0, y: 0 },
        P,
        0,
        &|_| default_bits(),
    )
    .unwrap();
    let m = |id: u32| plan.writes.iter().find(|w| w.card_id == id).map(|w| w.micro);
    assert!(matches!(m(200), Some(Micro::Loose { .. })), "axe1 lifts off as a loose root");
    assert_eq!(m(201), Some(Micro::Stacked { root: 200, branch: STACK_DIR_UP, index: 0 }), "axe2 carried");
    // the held dust stays on 100 but its index collapses 2→0;
    assert_eq!(m(202), Some(Micro::Stacked { root: 100, branch: STACK_DIR_UP, index: 0 }), "locked dust stays, index shifts");
    // corpus3 stays above dust, collapses 3→1 (dust's index + 1).
    assert_eq!(m(203), Some(Micro::Stacked { root: 100, branch: STACK_DIR_UP, index: 1 }));
}
