use resonantdust::codec::card_model::Micro;
use resonantdust::codec::packed::{pack_macro_zone_full, INVENTORY_LAYER};
use resonantdust::codec::plan::{ActionPlan, Effect, HoldKinds, StockOp};
use resonantdust::dsl::bridge::Card;
use resonantdust::dsl::loader::{BlueprintDef, Bundle, CardDef, Hook, PackedName, Recipe, StockSlot};
use resonantdust::dsl::recipe::{Frame, Placed};
use resonantdust::dsl::vm::{Hold, MatchOutcome, PlanOutcome, VmEffect};
use resonantdust::rules::dsl_recipe::{accept, bound_card, resolve_target, run, synthetic_card, translate, Lookup};
use resonantdust::state::recipe_state::{CardStore, CardView};
use std::collections::{BTreeMap, HashMap};

const GRASS: u16 = 0x0701;
const FURNACE: u16 = 0x0102;
const UNNAMED: u16 = 0x0BAD;
const UNDEFINED: u16 = 0x0701 + 1;

fn slot(aspect: &str, shift: u8, width: u8) -> StockSlot {
    StockSlot { aspect: aspect.to_string(), shift, width }
}

const MATCH: [&str; 2] = ["a log", "a fire"];
const PLAN: [&str; 1] = ["burn the log"];

fn bundle() -> Bundle<&'static str> {
    Bundle {
        packed: vec![
            PackedName { packed: GRASS, name: "grass".to_string() },
            PackedName { packed: FURNACE, name: "furnace".to_string() },
            PackedName { packed: UNDEFINED, name: "ghost".to_string() },
        ],
        cards: vec![
            CardDef {
                name: "grass".to_string(),
                def_id: 3,
                aspects: Vec::new(),
                stock: vec![slot("seed", 0, 2), slot("water", 2, 2)],
            },
            CardDef {
                name: "furnace".to_string(),
                def_id: 4,
                aspects: Vec::new(),
                stock: vec![slot("ash", 0, 4), slot("heat", 4, 8), slot("all", 0, 32)],
            },
        ],
        blueprints: vec![BlueprintDef {
            key: "nd_furnace".to_string(),
            id: 9,
            card: "blueprint_nd_furnace".to_string(),
        }],
        recipes: vec![
            Recipe {
                name: "brew".to_string(),
                hooks: vec![
                    Hook { name: "output".to_string(), body: PLAN.to_vec() },
                    Hook { name: "input".to_string(), body: MATCH.to_vec() },
                ],
            },
            Recipe { name: "wait".to_string(), hooks: Vec::new() },
        ],
    }
}

struct Mock(HashMap<u32, CardView>);
impl CardStore for Mock {
    fn card_at(&self, id: u32, _t: u64) -> Option<CardView> {
        self.0.get(&id).cloned()
    }
}

fn card(card_id: u32, owner_id: u32, packed_definition: u16, stock: u32, micro: Micro) -> CardView {
    let (micro_location, flags) = micro.apply(0);
    CardView { card_id, owner_id, micro_location, macro_zone: 0, packed_definition, flags, stock }
}

// 10 a furnace owned by 20, 11 stacked on 10, 12 ownerless, 13 and 14 of unknown definitions.
fn store() -> Mock {
    let loose = Micro::snap(1, 1);
    let cards = [
        card(10, 20, FURNACE, 0x0FF3, loose),
        card(11, 10, GRASS, 0b1101, Micro::Stacked { root: 10, branch: 1, index: 0 }),
        card(12, 0, GRASS, 0, loose),
        card(13, 20, UNNAMED, 0, loose),
        card(14, 20, UNDEFINED, 0, loose),
        card(20, 30, GRASS, 0, loose),
    ];
    Mock(cards.into_iter().map(|c| (c.card_id, c)).collect())
}

fn frame() -> Frame {
    let at = |path: &str, card_id: u32| Placed { path: path.to_string(), card_id };
    Frame {
        placed: vec![
            at("root", 10),
            at("root.top", 11),
            at("free", 12),
            at("odd", 13),
            at("vague", 14),
            at("lost", 99),
        ],
    }
}

fn effect_plan(effects: Vec<VmEffect>, tile: Option<Card>) -> Result<ActionPlan, String> {
    let report = PlanOutcome { styles: Vec::new(), effects, duration: 0 };
    translate(&bundle(), &store(), &frame(), &Vec::new(), &report, &tile, 0)
}

fn one(effect: VmEffect) -> Effect {
    let mut plan = effect_plan(vec![effect], tile()).unwrap();
    assert_eq!(plan.effects.len(), 1);
    plan.effects.remove(0)
}

fn refused(effect: VmEffect) -> String {
    effect_plan(vec![effect], tile()).unwrap_err()
}

fn tile() -> Option<Card> {
    Some(Card { def_id: 3, stock: vec![1, 2] })
}

fn destroy(slot: &str) -> VmEffect {
    VmEffect::Destroy { slot: slot.to_string() }
}
fn create(def: &str, target: &str) -> VmEffect {
    VmEffect::Create { def: def.to_string(), target: target.to_string() }
}
fn stock(slot: &str, aspect: &str, delta: i64, abs: bool) -> VmEffect {
    VmEffect::Stock { slot: slot.to_string(), aspect: aspect.to_string(), delta, abs }
}
fn unlock(def: &str, target: &str) -> VmEffect {
    VmEffect::Blueprint { def: def.to_string(), target: target.to_string() }
}

#[test]
fn destroy_needs_a_bound_card() {
    assert_eq!(one(destroy("root.top")), Effect::Destroy { card_id: 11 });
    assert_eq!(refused(destroy("tile")), "destroy: \"tile\" is not a bound card");
}

#[test]
fn create_lands_in_the_owners_inventory() {
    assert_eq!(
        one(create("card::corpus_dim", "root.owner.inventory")),
        Effect::Create {
            def_key: "corpus_dim".to_string(),
            surface: INVENTORY_LAYER,
            macro_zone: pack_macro_zone_full(20, INVENTORY_LAYER, 0, 0),
            owner_id: 20,
        }
    );
    assert_eq!(refused(create("card::x", "root.owner")), "create target must end in .inventory; got \"root.owner\"");
    assert_eq!(
        refused(create("card::x", "root.blueprint")),
        "create target must end in .inventory; got \"root.blueprint\""
    );
    // A placed path is the card itself, with no container.
    assert_eq!(refused(create("card::x", "root")), "create target must end in .inventory; got \"root\"");
}

#[test]
fn targets_walk_owners_and_parents() {
    let (s, f) = (store(), frame());
    let at = |path: &str| resolve_target(&f, &s, path, 0);
    assert_eq!(at("root.top"), Ok((11, None)));
    assert_eq!(at("root.top.parent"), Ok((10, None)));
    assert_eq!(at("root.top.parent.owner"), Ok((20, None)));
    assert_eq!(at("root.top.owner.owner.inventory"), Ok((20, Some("inventory".to_string()))));
    assert_eq!(at("root.inventory.blueprint"), Ok((10, Some("blueprint".to_string()))));
    assert_eq!(at("root..owner"), Ok((20, None)));
    assert_eq!(at("nowhere.owner"), Err("unresolved target path \"nowhere.owner\"".to_string()));
    assert_eq!(at("free.owner"), Err("owner step: card 12 has no owner".to_string()));
    assert_eq!(at("lost.owner"), Err("owner step: card 99 has no owner".to_string()));
    assert_eq!(at("lost.parent"), Err("parent step: card 99 not in store".to_string()));
    assert_eq!(at("root.parent"), Err("parent step: card 10 is not stacked".to_string()));
    assert_eq!(at("root.x.owner"), Err("unsupported target step \"x\" in \"root.x.owner\"".to_string()));
}

#[test]
fn card_stock_changes_one_slot() {
    let after = |aspect: &str, delta: i64, abs: bool| match one(stock("root", aspect, delta, abs)) {
        Effect::SetCardStock { card_id: 10, stock } => stock,
        other => panic!("{other:?}"),
    };
    // 10 holds 0x0FF3: ash 3, heat 0xFF.
    assert_eq!(after("ash", 5, false), 0x0FF8);
    assert_eq!(after("ash", -9, false), 0x0FF0);
    assert_eq!(after("ash", 100, false), 0x0FFF);
    assert_eq!(after("ash", 7, true), 0x0FF7);
    assert_eq!(after("ash", -7, true), 0x0FF0);
    assert_eq!(after("heat", -0x0F, false), 0x0F03);
    assert_eq!(after("heat", 1 << 40, true), 0x0FF3);
    assert_eq!(after("all", i64::MAX, false), u32::MAX);
    assert_eq!(after("all", i64::MIN, false), 0);
    assert_eq!(after("all", 0, false), 0x0FF3);
}

#[test]
fn card_stock_errors() {
    assert_eq!(refused(stock("lost", "ash", 1, false)), "stock op: bound card 99 not found");
    assert_eq!(refused(stock("odd", "ash", 1, false)), "stock op: card 13 packed not in bundle");
    assert_eq!(
        refused(stock("root", "seed", 1, false)),
        "card \"furnace\" declares no stock slot for aspect \"seed\""
    );
    assert_eq!(
        refused(stock("vague", "seed", 1, false)),
        "card \"ghost\" declares no stock slot for aspect \"seed\""
    );
}

#[test]
fn unplaced_slots_change_the_tile() {
    let op = |delta: i64, abs: bool| one(stock("tile", "water", delta, abs));
    let expected = |op: StockOp, delta: u8| Effect::ModifyTileStock { slot: 1, op, delta };
    assert_eq!(op(2, false), expected(StockOp::Add, 2));
    assert_eq!(op(0, false), expected(StockOp::Add, 0));
    assert_eq!(op(-3, false), expected(StockOp::Sub, 3));
    assert_eq!(op(-300, false), expected(StockOp::Sub, 255));
    assert_eq!(op(i64::MIN, false), expected(StockOp::Sub, 255));
    assert_eq!(op(300, true), expected(StockOp::Assign, 255));
    assert_eq!(op(-1, true), expected(StockOp::Assign, 0));
    assert_eq!(
        effect_plan(vec![stock("tile", "water", 1, false)], None).unwrap_err(),
        "tile stock op but no synthetic tile"
    );
    let strange = Some(Card { def_id: 77, stock: Vec::new() });
    assert_eq!(
        effect_plan(vec![stock("tile", "water", 1, false)], strange).unwrap_err(),
        "tile def has no name"
    );
    assert_eq!(
        refused(stock("tile", "heat", 1, false)),
        "tile \"grass\" declares no stock slot for aspect \"heat\""
    );
}

#[test]
fn blueprints_go_by_key_or_by_spawned_card() {
    let expected = Effect::UnlockBlueprint { blueprint_id: 9, target_card_id: 20 };
    assert_eq!(one(unlock("blueprint::nd_furnace", "root.owner.blueprint")), expected);
    assert_eq!(one(unlock("card::blueprint_nd_furnace", "root.owner")), expected);
    assert_eq!(
        refused(unlock("blueprint::nope", "root")),
        "recipe unlocks unknown blueprint \"nope\" (no <blueprint> def)"
    );
    assert_eq!(refused(unlock("blueprint::nope", "away.x")), "unresolved target path \"away.x\"");
}

#[test]
fn effects_keep_their_order_and_the_first_error_counts() {
    let plan = effect_plan(vec![destroy("free"), destroy("root"), destroy("free")], None).unwrap();
    let ids: Vec<u32> = plan
        .effects
        .iter()
        .map(|e| match e {
            Effect::Destroy { card_id } => *card_id,
            other => panic!("{other:?}"),
        })
        .collect();
    assert_eq!(ids, [12, 10, 12]);
    let err = effect_plan(vec![destroy("free"), destroy("a"), destroy("b")], None).unwrap_err();
    assert_eq!(err, "destroy: \"a\" is not a bound card");
}

fn holds(list: &[(&str, Hold)]) -> Vec<(String, Hold)> {
    list.iter().map(|(path, hold)| (path.to_string(), *hold)).collect()
}

fn kinds(slot_hold: bool, slot_share: bool, position_hold: bool) -> HoldKinds {
    HoldKinds { slot_hold, slot_share, position_hold }
}

#[test]
fn holds_styles_and_duration_carry_through() {
    let style = |path: &str, name: &str| (path.to_string(), name.to_string());
    let report = PlanOutcome {
        styles: vec![
            style("root", "rtl"),
            style("free", "rtl"),
            style("free", "ltr"),
            style("odd", "none"),
            style("tile", "ltr"),
        ],
        effects: Vec::new(),
        duration: 1500,
    };
    let given = holds(&[
        ("root", Hold::Use),
        ("free", Hold::Claim),
        ("odd", Hold::Share),
        ("vague", Hold::Borrow),
        ("root", Hold::Share),
        ("tile", Hold::Borrow),
        ("cell", Hold::Claim),
    ]);
    let plan = translate(&bundle(), &store(), &frame(), &given, &report, &None, 0).unwrap();
    assert_eq!(plan.duration, 1500);
    assert_eq!(plan.styles, BTreeMap::from([(10, 2), (12, 1), (13, 0)]));
    assert_eq!(
        plan.holds,
        BTreeMap::from([
            (10, kinds(true, true, true)),
            (12, kinds(true, false, true)),
            (13, kinds(false, true, true)),
            (14, kinds(false, true, false)),
        ])
    );
    assert_eq!(plan.tile_holds, Some(kinds(true, true, true)));
}

#[test]
fn a_lone_use_does_not_pin() {
    let report = PlanOutcome { styles: Vec::new(), effects: Vec::new(), duration: 0 };
    let plan = translate(&bundle(), &store(), &frame(), &holds(&[("root", Hold::Use)]), &report, &None, 0).unwrap();
    assert_eq!(plan.holds, BTreeMap::from([(10, kinds(true, false, false))]));
    assert_eq!(plan.tile_holds, None);
}

#[test]
fn durations_are_not_negative_and_keep_32_bits() {
    for (given, expected) in [(-5i64, 0u32), (0, 0), (7, 7), (0x1_0000_0002, 2), (0xFFFF_FFFF, 0xFFFF_FFFF)] {
        let report = PlanOutcome { styles: Vec::new(), effects: Vec::new(), duration: given };
        let plan = translate(&bundle(), &store(), &frame(), &Vec::new(), &report, &None, 0).unwrap();
        assert_eq!(plan.duration, expected);
    }
}

#[test]
fn bound_cards_read_their_live_stock() {
    let (b, s) = (bundle(), store());
    assert_eq!(bound_card(&b, &s, 11, 0), Some(Card { def_id: 3, stock: vec![1, 3] }));
    assert_eq!(bound_card(&b, &s, 10, 0), Some(Card { def_id: 4, stock: vec![3, 0xFF, 0x0FF3] }));
    assert_eq!(bound_card(&b, &s, 99, 0), None);
    assert_eq!(bound_card(&b, &s, 13, 0), None);
    assert_eq!(bound_card(&b, &s, 14, 0), None);
}

#[test]
fn synthetic_tiles_must_be_defined() {
    let b = bundle();
    assert_eq!(synthetic_card(&b, GRASS, 2, 3), Ok(Card { def_id: 3, stock: vec![2, 3] }));
    assert_eq!(synthetic_card(&b, UNNAMED, 0, 0), Err("tile packed 0x0bad not in DSL bundle".to_string()));
    assert_eq!(synthetic_card(&b, UNDEFINED, 0, 0), Err("tile \"ghost\" not in DSL bundle".to_string()));
}

#[test]
fn only_a_match_is_accepted() {
    let given = holds(&[("root", Hold::Use)]);
    let verdict = MatchOutcome { matched: true, holds: given.clone() };
    assert_eq!(accept("brew", Ok(verdict)), Ok(given.clone()));
    let verdict = MatchOutcome { matched: false, holds: given };
    assert_eq!(accept("brew", Ok(verdict)), Err("recipe \"brew\" input not satisfied by bindings".to_string()));
    assert_eq!(accept("brew", Err("bad predicate".to_string())), Err("bad predicate".to_string()));
}

fn evaluate(
    name: &str,
    synthetic: Option<(u16, (u8, u8))>,
    matched: Result<bool, String>,
    planned: Result<Vec<VmEffect>, String>,
) -> Result<ActionPlan, String> {
    run(
        &bundle(),
        &store(),
        name,
        10,
        &[vec![11], vec![12]],
        synthetic,
        0,
        |bundle: &Bundle<&str>,
         recipe: &Recipe<&str>,
         root: u32,
         bindings: &[Vec<u32>],
         tile: &Option<Card>,
         lookup: &Lookup<&str, Mock>| {
            assert_eq!(recipe.name, name);
            assert_eq!(root, 10);
            assert_eq!(bindings, [vec![11], vec![12]]);
            assert_eq!(lookup.card(11), bound_card(bundle, &store(), 11, 0));
            assert_eq!(lookup.card(99), None);
            (frame(), tile.as_ref().map(|t| t.stock.clone()))
        },
        |body: &[&str], state: Option<Vec<i64>>, _bundle: &Bundle<&str>| {
            assert_eq!(body, if name == "brew" { &MATCH[..] } else { &[] });
            (state, matched.map(|matched| MatchOutcome { matched, holds: holds(&[("root", Hold::Claim)]) }))
        },
        |body: &[&str], state: Option<Vec<i64>>, _bundle: &Bundle<&str>| {
            assert_eq!(body, if name == "brew" { &PLAN[..] } else { &[] });
            assert_eq!(state, synthetic.map(|(_, (s0, s1))| vec![s0 as i64, s1 as i64]));
            planned.map(|effects| PlanOutcome { styles: Vec::new(), effects, duration: 4 })
        },
    )
}

#[test]
fn run_gives_the_translated_plan() {
    let effects = vec![destroy("free"), stock("tile", "seed", 1, false)];
    let plan = evaluate("brew", Some((GRASS, (2, 3))), Ok(true), Ok(effects)).unwrap();
    assert_eq!(plan.duration, 4);
    assert_eq!(plan.holds, BTreeMap::from([(10, kinds(true, false, true))]));
    assert_eq!(
        plan.effects,
        [Effect::Destroy { card_id: 12 }, Effect::ModifyTileStock { slot: 0, op: StockOp::Add, delta: 1 }]
    );
}

#[test]
fn a_recipe_without_hooks_runs_empty_bodies() {
    let plan = evaluate("wait", None, Ok(true), Ok(Vec::new())).unwrap();
    assert_eq!(plan.effects, []);
}

#[test]
fn run_reports_the_first_obstacle() {
    let fail = |name: &str, synthetic, matched, planned| evaluate(name, synthetic, matched, planned).unwrap_err();
    assert_eq!(fail("st\"ew\n", None, Ok(true), Ok(Vec::new())), "DSL recipe \"st\\\"ew\\n\" not found");
    assert_eq!(
        fail("brew", Some((UNNAMED, (0, 0))), Ok(true), Ok(Vec::new())),
        "tile packed 0x0bad not in DSL bundle"
    );
    assert_eq!(fail("brew", None, Err("bad predicate".to_string()), Ok(Vec::new())), "bad predicate");
    assert_eq!(
        fail("brew", None, Ok(false), Ok(Vec::new())),
        "recipe \"brew\" input not satisfied by bindings"
    );
    assert_eq!(fail("brew", None, Ok(true), Err("bad output".to_string())), "bad output");
    assert_eq!(
        fail("brew", None, Ok(true), Ok(vec![destroy("x")])),
        "destroy: \"x\" is not a bound card"
    );
}
