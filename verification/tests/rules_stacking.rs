use resonantdust::codec::packed::{STACK_DIR_DOWN, STACK_DIR_HEX, STACK_DIR_UP};
use resonantdust::dsl::loader::{Aspect, Bundle, CardDef, PackedName};
use resonantdust::rules::stacking::{
    default_bits, match_stack, resolve_stack_drop, stack_bits, StackBits, StackResolution,
};

const TILE: StackBits = StackBits { hosts: 0, joins: 0b001 }; // hosts nothing, joins stack 0

#[test]
fn regular_onto_regular_uses_drop_dir_for_top_bottom() {
    // dragged joins target; both up+down open, so drop_dir picks.
    let up = resolve_stack_drop(default_bits(), default_bits(), STACK_DIR_UP).unwrap();
    assert_eq!(up, StackResolution { dragged_is_member: true, stack: STACK_DIR_UP });
    let down = resolve_stack_drop(default_bits(), default_bits(), STACK_DIR_DOWN).unwrap();
    assert_eq!(down, StackResolution { dragged_is_member: true, stack: STACK_DIR_DOWN });
}

#[test]
fn card_onto_tile_pushes_tile_into_card_stack0() {
    // Forward fails (tile hosts nothing); reverse makes the card the root and
    // the tile joins its stack 0.
    let r = resolve_stack_drop(default_bits(), TILE, STACK_DIR_UP).unwrap();
    assert_eq!(r, StackResolution { dragged_is_member: false, stack: STACK_DIR_HEX });
}

#[test]
fn dragging_tile_onto_card_joins_stack0_forward() {
    // Tile dragged onto a card: forward (tile joins card's hex slot).
    let r = resolve_stack_drop(TILE, default_bits(), STACK_DIR_UP).unwrap();
    assert_eq!(r, StackResolution { dragged_is_member: true, stack: STACK_DIR_HEX });
}

#[test]
fn two_tiles_cannot_stack() {
    assert_eq!(resolve_stack_drop(TILE, TILE, STACK_DIR_UP), None);
}

#[test]
fn one_open_side_ignores_the_direction() {
    let host = StackBits { hosts: 0b100, joins: 0 };
    let joiner = StackBits { hosts: 0, joins: 0b110 };
    for dir in [STACK_DIR_HEX, STACK_DIR_UP, STACK_DIR_DOWN] {
        assert_eq!(match_stack(host, joiner, dir), Some(STACK_DIR_DOWN));
    }
    assert_eq!(match_stack(StackBits { hosts: 0b010, joins: 0 }, joiner, STACK_DIR_DOWN), Some(STACK_DIR_UP));
    let odd = StackBits { hosts: 0b1111_1000, joins: 0b1111_1000 };
    assert_eq!(match_stack(odd, odd, STACK_DIR_UP), None);
}

fn def(name: &str, def_id: u32, aspects: &[(&str, i64)]) -> CardDef {
    CardDef {
        name: name.to_string(),
        def_id,
        aspects: aspects.iter().map(|(n, v)| Aspect { name: n.to_string(), value: *v }).collect(),
        stock: Vec::new(),
    }
}

#[test]
fn bits_come_from_the_definition() {
    let names = ["log", "grass", "pedestal", "wide"];
    let bundle: Bundle<String> = Bundle {
        packed: names
            .iter()
            .enumerate()
            .map(|(i, n)| PackedName { packed: 0x10 + i as u16, name: n.to_string() })
            .collect(),
        cards: vec![
            def("log", 1, &[("weight", 3), ("stack_hosts", 0)]),
            def("grass", 2, &[("stack_joins", 1)]),
            def("pedestal", 3, &[("stack_hosts", 0b010), ("stack_joins", 0b100)]),
            def("wide", 4, &[("stack_joins", 0x102), ("stack_hosts", -1)]),
        ],
        blueprints: Vec::new(),
        recipes: Vec::new(),
    };
    // `stack_joins` absent: the regular default, whatever else is declared.
    assert_eq!(stack_bits(&bundle, 0x10), default_bits());
    assert_eq!(stack_bits(&bundle, 0x11), TILE);
    assert_eq!(stack_bits(&bundle, 0x12), StackBits { hosts: 0b010, joins: 0b100 });
    // Only the low eight bits count.
    assert_eq!(stack_bits(&bundle, 0x13), StackBits { hosts: 0xFF, joins: 0b010 });
    assert_eq!(stack_bits(&bundle, 0x99), default_bits());
}
