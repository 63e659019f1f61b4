use resonantdust::codec::flags::{flag_bit, flag_field, FlagField};

#[test]
fn known_bits_and_fields() {
    assert_eq!(flag_bit("flags", "dead"), Some(26));
    assert_eq!(flag_bit("flags", "player_owned"), Some(24));
    assert_eq!(flag_bit("flags_bk", "position_dirty"), Some(0));
    assert_eq!(flag_bit("flags", "ghost"), None);
    let f = flag_field("flags", "slot_claim_count").unwrap();
    assert_eq!((f.shift, f.width), (8, 3));
    assert_eq!(f.mask(), 0b111 << 8);
    assert_eq!(f.pack(5), 5 << 8);
    let s = flag_field("flags", "stack").unwrap();
    assert_eq!((s.shift, s.width), (0, 4));
    let st = flag_field("stock", "stock_1").unwrap();
    assert_eq!((st.shift, st.width), (2, 2));
}

#[test]
fn flags_word_fits_u32() {
    // The propagating word's highest declared bit must be < 32.
    for name in ["player_owned", "surface_locked", "dead", "pos_need", "pos_want", "zone_born"] {
        assert!(flag_bit("flags", name).unwrap() < 32);
    }
    for name in [
        "stack",
        "index",
        "slot_claim_count",
        "slot_borrow_count",
        "position_hold_count",
        "drop_hold_count",
        "touch_count",
        "server_count",
    ] {
        let f = flag_field("flags", name).unwrap();
        assert!(f.shift + f.width <= 32, "{name} overflows u32");
    }
}

#[test]
fn every_declared_bit() {
    let flags = [
        ("player_owned", 24),
        ("surface_locked", 25),
        ("dead", 26),
        ("pos_need", 27),
        ("pos_want", 28),
        ("zone_born", 29),
    ];
    for (name, bit) in flags {
        assert_eq!(flag_bit("flags", name), Some(bit));
        assert_eq!(flag_bit("flags_bk", name), None);
    }
    let bookkeeping = [("position_dirty", 0), ("position_preserve", 1), ("data_dirty", 2), ("data_preserve", 3)];
    for (name, bit) in bookkeeping {
        assert_eq!(flag_bit("flags_bk", name), Some(bit));
        assert_eq!(flag_bit("stock", name), None);
    }
}

#[test]
fn every_declared_field_is_disjoint_from_the_others() {
    let fields = [
        ("stack", 0, 4),
        ("index", 4, 4),
        ("slot_claim_count", 8, 3),
        ("slot_borrow_count", 11, 3),
        ("position_hold_count", 14, 3),
        ("drop_hold_count", 17, 3),
        ("touch_count", 20, 2),
        ("server_count", 22, 2),
    ];
    let mut seen: u32 = 0;
    for (name, shift, width) in fields {
        let f = flag_field("flags", name).unwrap();
        assert_eq!(f, FlagField { shift, width });
        assert_eq!(seen & f.mask(), 0);
        seen |= f.mask();
    }
    assert_eq!(seen, 0x00FF_FFFF);
    assert_eq!(flag_field("flags", "stock_0"), None);
    assert_eq!(flag_field("flags_bk", "stack"), None);
}

#[test]
fn wide_fields_keep_to_the_word() {
    assert_eq!(FlagField { shift: 0, width: 32 }.mask(), 0xFFFF_FFFF);
    assert_eq!(FlagField { shift: 28, width: 40 }.mask(), 0xF000_0000);
    assert_eq!(FlagField { shift: 4, width: 0 }.mask(), 0);
    assert_eq!(FlagField { shift: 4, width: 2 }.pack(0xFF), 0x30);
}
