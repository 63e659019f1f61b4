# resonantdust

The shared core of a card game: the bit layout of card rows, the rules for stacking
and moving cards, the checks on a recipe's bindings, and the translation of a
recipe's outcome into the plan that is applied. All of it is verified with Verus.

- `src/codec`: flag registry, packed addresses, card placement and holds, stacking
  bits, action plans.
- `src/dsl`: loaded definitions, stock decoding, the frame of a running recipe.
- `src/state`: card stores, owner walks, binding validation, placements
  (`plan_place`) and chain splicing (`plan_splice`).
- `src/rules`: stacking by definition and recipe evaluation (`run`).
- `src/**/*_laws.rs`: what the operations guarantee together.
- `tests`: scenarios with exact values.
- `app`: drives a recipe machine through `run`.
