use resonantdust::dsl::inspect::{
    card_flag_bit, card_flag_field_shape, card_flag_field_value_any, card_flag_field_value_in, card_type_id,
    has_card_flag, is_hex_type,
};

#[test]
fn flag_bit_searches_both_fields() {
  // `dead` lives in flags (bit 26); `position_dirty` in flags_bk (bit 0).
  assert_eq!(card_flag_bit("dead"), Some(26));
  assert_eq!(card_flag_bit("position_dirty"), Some(0));
  assert_eq!(card_flag_bit("nope"), None);
}

#[test]
fn has_flag_routes_to_the_right_host() {
  let dead = 1u32 << 26; // flags.dead
  let dirty = 1u32 << 0; // flags_bk.position_dirty
  assert!(has_card_flag(dead, 0, "dead"));
  assert!(!has_card_flag(0, dead, "dead"));
  assert!(has_card_flag(0, dirty, "position_dirty"));
  assert!(!has_card_flag(0xFFFF_FFFF, 0xFFFF_FFFF, "nope"));
}

#[test]
fn multi_bit_field_value_reads() {
  // slot_claim_count is flags (shift 8, width 3); pack a 5.
  let host = 5u32 << 8;
  assert_eq!(card_flag_field_shape("flags", "slot_claim_count"), Some((8, 3)));
  assert_eq!(card_flag_field_value_in("flags", host, "slot_claim_count"), Some(5));
  assert_eq!(card_flag_field_value_any(host, 0, "slot_claim_count"), Some(5));
  assert_eq!(card_flag_field_value_in("flags", host, "nope"), None);
  // stock fields route to the stock host.
  let stock = 3u32 << 2; // stock_1
  assert_eq!(card_flag_field_value_any(0, stock, "stock_1"), Some(3));
}

#[test]
fn type_id_and_hex() {
  assert_eq!(card_type_id("tile"), Some(7));
  assert_eq!(card_type_id("requisite"), Some(0));
  assert_eq!(card_type_id("nope"), None);
  assert!(is_hex_type(7)); // tile
  assert!(!is_hex_type(0)); // requisite → rect
}
