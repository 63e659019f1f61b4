use resonantdust::codec::packed::{
    is_player_soul, owner_of, pack_macro_zone_full, pack_micro_loose, surface_of, unpack_micro_loose, with_owner,
    with_surface, INVENTORY_LAYER, PLAYER_SOUL_FIRST, PLAYER_SOUL_PACKED, WORLD_LAYER,
};

#[test]
fn loose_micro_has_its_exact_word() {
    assert_eq!(pack_micro_loose(2, 5, -3, 7), (2 << 29) | (5 << 26) | (0x1FFD << 13) | 7);
    assert_eq!(pack_micro_loose(0, 0, 0, -1), 0x1FFF);
}

#[test]
fn loose_micro_reads_back() {
    for q in 0..8u8 {
        for (x, y) in [(0i16, 0i16), (-4096, 4095), (-1, 1), (4095, -4096)] {
            let word = pack_micro_loose(q, 7 - q, x, y);
            assert_eq!(unpack_micro_loose(word), (q, 7 - q, x, y));
        }
    }
}

#[test]
fn zone_parts_read_back() {
    let zone = pack_macro_zone_full(0xDEAD_BEEF, INVENTORY_LAYER, -1, 2);
    assert_eq!(zone, 0xDEAD_BEEF_01FF_F002);
    assert_eq!(owner_of(zone), 0xDEAD_BEEF);
    assert_eq!(surface_of(zone), INVENTORY_LAYER);
    assert_eq!(with_surface(zone, WORLD_LAYER), 0xDEAD_BEEF_40FF_F002);
    assert_eq!(with_surface(zone, surface_of(zone)), zone);
    assert_eq!(with_owner(zone, 7), 0x0000_0007_01FF_F002);
}

#[test]
fn souls_are_a_range_of_definitions() {
    assert!(is_player_soul(PLAYER_SOUL_PACKED));
    assert!(is_player_soul(PLAYER_SOUL_FIRST));
    assert!(!is_player_soul(PLAYER_SOUL_FIRST - 1));
    assert!(!is_player_soul(0));
}
