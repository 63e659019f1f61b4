use resonantdust::codec::flags::{flag_bit, flag_field};
use resonantdust::state::recipe_state::{validate_bindings, CardStore, CardView};
use std::collections::HashMap;

// Build flag values from the real layout (the same source card_model reads),
// so the tests exercise the live bit positions.
fn state_bit(name: &str) -> u32 {
  1u32 << flag_bit("flags", name).unwrap()
}
fn hold_one(field: &str) -> u32 {
  let f = flag_field("flags", field).unwrap();
  (1u32 << f.shift) & f.mask()
}

struct Mock(HashMap<u32, CardView>);
impl CardStore for Mock {
  fn card_at(&self, id: u32, _t: u64) -> Option<CardView> {
    self.0.get(&id).cloned()
  }
}
fn card(id: u32, owner: u32, flags: u32) -> CardView {
  CardView { card_id: id, owner_id: owner, micro_location: 0, macro_zone: 0, packed_definition: 0, flags, stock: 0 }
}
fn store(cards: &[CardView]) -> Mock {
  Mock(cards.iter().cloned().map(|c| (c.card_id, c)).collect())
}
fn no_excl(_: u32) -> bool {
  false
}

#[test]
fn world_owned_ok() {
  let s = store(&[card(50, 0, 0)]);
  validate_bindings(&s, 1, 0, &[vec![50]], 7, 0, no_excl).expect("ok");
}

#[test]
fn dup_rejected() {
  let s = store(&[card(50, 0, 0)]);
  let err = validate_bindings(&s, 1, 0, &[vec![50, 50]], 7, 0, no_excl).unwrap_err();
  assert!(err.contains("more than once"), "{err}");
}

#[test]
fn dead_rejected() {
  let s = store(&[card(50, 0, state_bit("dead"))]);
  let err = validate_bindings(&s, 1, 0, &[vec![50]], 7, 0, no_excl).unwrap_err();
  assert!(err.contains("dead"), "{err}");
}

#[test]
fn foreign_owner_allowed() {
  // Ownership is not checked here: a card owned by
  // player 9 binds fine for caller 7, as long as its state is otherwise valid.
  let s = store(&[card(50, 9, 0)]);
  validate_bindings(&s, 1, 0, &[vec![50]], 7, 0, no_excl).expect("foreign owner allowed");
}

#[test]
fn exclusive_held_always_rejected() {
  let s = store(&[card(50, 0, hold_one("slot_claim_count"))]);
  let err = validate_bindings(&s, 1, 0, &[vec![50]], 7, 0, no_excl).unwrap_err();
  assert!(err.contains("exclusively held"), "{err}");
}

#[test]
fn borrow_held_rejected_only_when_claiming_exclusive() {
  let s = store(&[card(50, 0, hold_one("slot_borrow_count"))]);
  // not claiming exclusive → borrow hold is fine
  validate_bindings(&s, 1, 0, &[vec![50]], 7, 0, no_excl).expect("borrow ok");
  // claiming exclusive on 50 → conflict
  let err = validate_bindings(&s, 1, 0, &[vec![50]], 7, 0, |id| id == 50).unwrap_err();
  assert!(err.contains("borrow-held"), "{err}");
}
