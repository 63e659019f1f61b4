use resonantdust::dsl::bridge::{stock_slot_bits, stock_slot_for_aspect, stock_to_vec};
use resonantdust::dsl::defs::aspect_value;
use resonantdust::dsl::loader::{Aspect, BlueprintDef, Bundle, CardDef, Hook, PackedName, Recipe, StockSlot};
use resonantdust::dsl::recipe::{Frame, Placed};

fn slot(aspect: &str, shift: u8, width: u8) -> StockSlot {
    StockSlot { aspect: aspect.to_string(), shift, width }
}

fn hook(name: &str, body: &[u8]) -> Hook<u8> {
    Hook { name: name.to_string(), body: body.to_vec() }
}

fn bundle() -> Bundle<u8> {
    Bundle {
        packed: vec![
            PackedName { packed: 0x0701, name: "grass".to_string() },
            PackedName { packed: 0x0102, name: "furnace".to_string() },
            PackedName { packed: 0x0102, name: "grass".to_string() },
        ],
        cards: vec![
            CardDef {
                name: "grass".to_string(),
                def_id: 3,
                aspects: vec![Aspect { name: "height".to_string(), value: -4 }],
                stock: vec![slot("seed", 0, 2), slot("water", 2, 2)],
            },
            CardDef {
                name: "furnace".to_string(),
                def_id: 4,
                aspects: Vec::new(),
                stock: vec![slot("heat", 4, 8), slot("all", 0, 32), slot("wider", 0, 200)],
            },
        ],
        blueprints: vec![BlueprintDef {
            key: "nd_furnace".to_string(),
            id: 9,
            card: "blueprint_nd_furnace".to_string(),
        }],
        recipes: vec![
            Recipe {
                name: "brew".to_string(),
                hooks: vec![hook("output", &[7]), hook("input", &[1, 2]), hook("input", &[3])],
            },
            Recipe { name: "brew".to_string(), hooks: Vec::new() },
            Recipe { name: "wait".to_string(), hooks: Vec::new() },
        ],
    }
}

#[test]
fn lookups_find_the_first_entry() {
    let b = bundle();
    assert_eq!(b.name_for_packed(0x0701), Some("grass"));
    assert_eq!(b.name_for_packed(0x0102), Some("furnace"));
    assert_eq!(b.name_for_packed(0), None);
    assert_eq!(b.card_def_id("furnace"), Some(4));
    assert_eq!(b.card_def_id("nope"), None);
    assert_eq!(b.card_name(3), Some("grass"));
    assert_eq!(b.card_name(5), None);
    assert_eq!(b.card("grass").map(|d| d.def_id), Some(3));
    assert_eq!(b.blueprint_def_id("nd_furnace"), Some(9));
    assert_eq!(b.blueprint_def_id("blueprint_nd_furnace"), None);
    assert_eq!(b.blueprint_id_for_card("blueprint_nd_furnace"), Some(9));
    assert_eq!(b.blueprint_id_for_card("nd_furnace"), None);
    assert_eq!(b.recipe("brew").map(|r| r.name.as_str()), Some("brew"));
    assert!(b.recipe("stew").is_none());
}

#[test]
fn hooks_are_found_by_name() {
    let b = bundle();
    let brew = b.recipe("brew").unwrap();
    assert_eq!(brew.hooks.len(), 3);
    assert_eq!(brew.hook("output"), Some(&hook("output", &[7])));
    assert_eq!(brew.hook("input"), Some(&hook("input", &[1, 2])));
    assert_eq!(brew.hook("render"), None);
    assert_eq!(brew.body_at("input"), [1, 2]);
    assert_eq!(brew.body_at("output"), [7]);
    assert_eq!(brew.body_at("render"), []);
    assert_eq!(b.recipe("wait").unwrap().body_at("input"), []);
}

#[test]
fn slots_must_start_inside_the_word() {
    let mut b = bundle();
    assert!(b.is_wf());
    b.cards[1].stock.push(slot("late", 31, 4));
    assert!(b.is_wf());
    b.cards[1].stock.push(slot("out", 32, 1));
    assert!(!b.is_wf());
    b.cards.clear();
    assert!(b.is_wf());
}

#[test]
fn aspects_are_read_through_the_packed_name() {
    let b = bundle();
    assert_eq!(aspect_value(&b, 0x0701, "height"), Some(-4));
    assert_eq!(aspect_value(&b, 0x0701, "width"), None);
    assert_eq!(aspect_value(&b, 0x0102, "height"), None);
    assert_eq!(aspect_value(&b, 0x9999, "height"), None);
}

#[test]
fn stock_decodes_slot_by_slot() {
    let b = bundle();
    assert_eq!(stock_to_vec(&b, "grass", 0b1101), vec![1, 3]);
    assert_eq!(stock_to_vec(&b, "furnace", 0xABCD_1234), vec![0x23, 0xABCD_1234, 0xABCD_1234]);
    assert_eq!(stock_to_vec(&b, "nope", 0xFF), Vec::<i64>::new());
    assert_eq!(stock_slot_bits(&b, "furnace", "heat"), Some((4, 8)));
    assert_eq!(stock_slot_bits(&b, "furnace", "seed"), None);
    assert_eq!(stock_slot_bits(&b, "nope", "heat"), None);
    assert_eq!(stock_slot_for_aspect(&b, "grass", "water"), Some(1));
    assert_eq!(stock_slot_for_aspect(&b, "grass", "heat"), None);
    assert_eq!(stock_slot_for_aspect(&b, "nope", "water"), None);
}

#[test]
fn frame_finds_cards_and_the_longest_prefix() {
    let at = |path: &str, card_id: u32| Placed { path: path.to_string(), card_id };
    let frame = Frame { placed: vec![at("root", 1), at("root.slot", 2), at("ro", 3), at("root.slot", 4)] };
    assert_eq!(frame.card_at("root.slot"), Some(2));
    assert_eq!(frame.card_at("root.slots"), None);
    assert_eq!(frame.longest_prefix("root.slot.owner"), Some(("root.slot", 2, "owner")));
    // A prefix ends at a dot.
    assert_eq!(frame.longest_prefix("root.slots.owner"), Some(("root", 1, "slots.owner")));
    assert_eq!(frame.longest_prefix("root."), Some(("root", 1, "")));
    assert_eq!(frame.longest_prefix("root"), None);
    assert_eq!(frame.longest_prefix("other.owner"), None);
}
