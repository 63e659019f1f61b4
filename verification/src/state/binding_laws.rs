//! Binding validation and owner walks, told from the rows alone.

use vstd::prelude::*;
use crate::state::recipe_state::{BindError, CardStore};

verus! {

use crate::codec::word_laws::{law_word_bits, law_word_digits};
use crate::sequences::{lemma_filter_contains, lemma_filter_ends, lemma_filter_next};
use crate::state::recipe_state::{
    bindings_fault,
    bound_ids,
    card_fault,
    first_fault,
    law_bindings_pass,
    lemma_first_fault_stays,
    responsible_player,
    walked_owner,
};

/// Whether a flag word leaves its card free for a binding: it is alive, not claimed,
/// not borrowed if it is wanted exclusively, touched less than three times, and not
/// closed to drops.
pub open spec fn word_is_free(flags: u32, exclusive: bool) -> bool {
    &&& flags as int / 0x400_0000 % 2 == 0
    &&& flags as int / 0x100 % 8 == 0
    &&& exclusive ==> flags as int / 0x800 % 8 == 0
    &&& flags as int / 0x10_0000 % 4 < 3
    &&& flags as int / 0x2_0000 % 8 == 0
}

/// Whether a card exists and is free for a binding.
pub open spec fn card_is_free<S: CardStore>(
    store: &S,
    card_id: u32,
    exclusive: bool,
    now_ms: u64,
) -> bool {
    store.card(card_id, now_ms) matches Some(c) && word_is_free(c.flags, exclusive)
}

/// A word that is not free is at fault for the first reason that applies: death, a
/// claim, a borrow under an exclusive want, three touches, a drop hold.
pub proof fn law_reason_for_a_word(flags: u32, card_id: u32, exclusive: bool)
    ensures
        card_fault(flags, card_id, exclusive) is None <==> word_is_free(flags, exclusive),
        ({
            let dead = flags as int / 0x400_0000 % 2 == 1;
            let claimed = flags as int / 0x100 % 8 > 0;
            let borrowed = exclusive && flags as int / 0x800 % 8 > 0;
            let worn = flags as int / 0x10_0000 % 4 == 3;
            let closed = flags as int / 0x2_0000 % 8 > 0;
            let fault = card_fault(flags, card_id, exclusive);
            &&& dead ==> fault == Some(BindError::Dead(card_id))
            &&& !dead && claimed ==> fault == Some(BindError::Claimed(card_id))
            &&& !dead && !claimed && borrowed ==> fault == Some(BindError::Borrowed(card_id))
            &&& !dead && !claimed && !borrowed && worn ==> fault == Some(
                BindError::TouchedTooOften(card_id),
            )
            &&& !dead && !claimed && !borrowed && !worn && closed ==> fault == Some(
                BindError::DropHeld(card_id),
            )
        }),
{
    law_word_digits(flags);
    law_word_bits(flags);
}

/// Adding a row of slots adds the ids in its filled slots, in order; adding a slot to
/// the last row adds its id, unless the slot is empty.
pub proof fn law_bound_ids_row_by_row(rows: Seq<Vec<u32>>, row: Vec<u32>, longer: Vec<u32>, id: u32)
    ensures
        bound_ids(Seq::<Vec<u32>>::empty()) == Seq::<u32>::empty(),
        row@.len() == 0 ==> bound_ids(rows.push(row)) == bound_ids(rows),
        longer@ == row@.push(id) ==> bound_ids(rows.push(longer)) == if id == 0 {
            bound_ids(rows.push(row))
        } else {
            bound_ids(rows.push(row)).push(id)
        },
{
    let nonzero = |id: u32| id != 0;
    assert(rows.push(row).drop_last() =~= rows);
    assert(rows.push(longer).drop_last() =~= rows);
    lemma_filter_ends(row@, nonzero);
    if row@.len() == 0 {
        assert(row@.take(0) =~= row@);
        assert(bound_ids(rows) + Seq::<u32>::empty() =~= bound_ids(rows));
    }
    if longer@ == row@.push(id) {
        let n = row@.len() as int;
        lemma_filter_next(longer@, nonzero, n);
        lemma_filter_ends(longer@, nonzero);
        assert(longer@.take(n) =~= row@);
        assert(longer@.take(n + 1) =~= longer@);
        assert(bound_ids(rows) + row@.filter(nonzero).push(id) =~= (bound_ids(rows) + row@.filter(
            nonzero,
        )).push(id));
    }
}

/// Whether a slot is filled.
pub open spec fn filled(rows: Seq<Vec<u32>>, r: int, c: int) -> bool {
    0 <= r < rows.len() && 0 <= c < rows[r]@.len() && rows[r]@[c] != 0
}

/// The bound ids are those in the filled slots.
proof fn lemma_bound_contains(rows: Seq<Vec<u32>>)
    ensures
        forall|id: u32| #[trigger]
            bound_ids(rows).contains(id) <==> exists|r: int, c: int| #[trigger]
                filled(rows, r, c) && rows[r]@[c] == id,
    decreases rows.len(),
{
    if rows.len() > 0 {
        let front = rows.drop_last();
        let last = rows.last()@;
        let nonzero = |id: u32| id != 0;
        lemma_bound_contains(front);
        lemma_filter_contains(last, nonzero);
        let own = last.filter(nonzero);
        let all = bound_ids(rows);
        assert forall|id: u32| #[trigger] all.contains(id) <==> exists|r: int, c: int| #[trigger]
            filled(rows, r, c) && rows[r]@[c] == id by {
            if all.contains(id) {
                let k = choose|k: int| 0 <= k < all.len() && all[k] == id;
                if k < bound_ids(front).len() {
                    assert(bound_ids(front)[k] == id);
                    assert(bound_ids(front).contains(id));
                    let (r, c) = choose|r: int, c: int| #[trigger]
                        filled(front, r, c) && front[r]@[c] == id;
                    assert(front[r] == rows[r]);
                    assert(filled(rows, r, c));
                } else {
                    assert(own[k - bound_ids(front).len()] == id);
                    assert(own.contains(id));
                    let c = choose|c: int| 0 <= c < last.len() && last[c] == id;
                    assert(filled(rows, rows.len() - 1, c));
                }
            }
            if exists|r: int, c: int| #[trigger] filled(rows, r, c) && rows[r]@[c] == id {
                let (r, c) = choose|r: int, c: int| #[trigger]
                    filled(rows, r, c) && rows[r]@[c] == id;
                if r < front.len() {
                    assert(front[r] == rows[r]);
                    assert(filled(front, r, c));
                    assert(bound_ids(front).contains(id));
                    let k = choose|k: int|
                        0 <= k < bound_ids(front).len() && bound_ids(front)[k] == id;
                    assert(all[k] == id);
                } else {
                    assert(last.contains(last[c]));
                    assert(own.contains(id));
                    let k = choose|k: int| 0 <= k < own.len() && own[k] == id;
                    assert(all[bound_ids(front).len() + k] == id);
                }
            }
        }
    }
}

/// Whether two filled slots never hold the same id.
pub open spec fn bound_once(rows: Seq<Vec<u32>>) -> bool {
    forall|r: int, c: int, s: int, d: int| #[trigger]
        filled(rows, r, c) && #[trigger] filled(rows, s, d) && (r != s || c != d) ==> rows[r]@[c]
            != rows[s]@[d]
}

/// The filled slots of one row are distinct if and only if their ids are.
proof fn lemma_row_distinct(row: Seq<u32>)
    ensures
        row.filter(|id: u32| id != 0).no_duplicates() <==> forall|c: int, d: int|
            #![trigger row[c], row[d]]
            0 <= c < d < row.len() && row[c] != 0 ==> row[c] != row[d],
    decreases row.len(),
{
    let nonzero = |id: u32| id != 0;
    reveal(Seq::filter);
    if row.len() > 0 {
        let front = row.drop_last();
        let last = row.len() - 1;
        lemma_row_distinct(front);
        lemma_filter_contains(front, nonzero);
        let before = front.filter(nonzero);
        let all = row.filter(nonzero);
        assert forall|c: int| 0 <= c < last implies front[c] == row[c] by {}
        if row.last() != 0 {
            assert(all =~= before.push(row.last()));
            if all.no_duplicates() {
                assert(before.no_duplicates()) by {
                    assert forall|i: int, j: int|
                        0 <= i < before.len() && 0 <= j < before.len() && i != j implies before[i]
                        != before[j] by {
                        assert(all[i] == before[i] && all[j] == before[j]);
                    }
                }
                assert forall|c: int, d: int|
                    #![trigger row[c], row[d]]
                    0 <= c < d < row.len() && row[c] != 0 implies row[c] != row[d] by {
                    if d == last {
                        if row[c] == row[d] {
                            assert(front.contains(front[c]));
                            assert(before.contains(row[c]));
                            let k = choose|k: int| 0 <= k < before.len() && before[k] == row[c];
                            assert(all[k] == all[before.len() as int]);
                        }
                    } else {
                        assert(front[c] != front[d]);
                    }
                }
            } else if forall|c: int, d: int|
                #![trigger row[c], row[d]]
                0 <= c < d < row.len() && row[c] != 0 ==> row[c] != row[d] {
                assert(!before.contains(row.last())) by {
                    if before.contains(row.last()) {
                        assert(front.contains(row.last()));
                        let c = choose|c: int| 0 <= c < front.len() && front[c] == row.last();
                        assert(row[c] == row[last]);
                    }
                }
                assert(before.no_duplicates());
                assert(false);
            }
        } else {
            assert(all =~= before);
        }
    }
}

/// The bound ids are distinct if and only if no two filled slots hold the same id.
proof fn lemma_bound_once(rows: Seq<Vec<u32>>)
    ensures
        bound_ids(rows).no_duplicates() <==> bound_once(rows),
    decreases rows.len(),
{
    if rows.len() > 0 {
        let front = rows.drop_last();
        let row = rows.last()@;
        let at = rows.len() - 1;
        let nonzero = |id: u32| id != 0;
        lemma_bound_once(front);
        lemma_bound_contains(front);
        lemma_row_distinct(row);
        lemma_filter_contains(row, nonzero);
        let a = bound_ids(front);
        let b = row.filter(nonzero);
        let all = a + b;
        assert forall|r: int, c: int| 0 <= r < at implies #[trigger] filled(rows, r, c) == filled(
            front,
            r,
            c,
        ) by {
            assert(front[r] == rows[r]);
        }
        assert forall|r: int, c: int| #[trigger] filled(front, r, c) implies filled(rows, r, c)
            && rows[r] == front[r] by {
            assert(front[r] == rows[r]);
        }
        if all.no_duplicates() {
            assert(a.no_duplicates()) by {
                assert forall|i: int, j: int|
                    0 <= i < a.len() && 0 <= j < a.len() && i != j implies a[i] != a[j] by {
                    assert(all[i] == a[i] && all[j] == a[j]);
                }
            }
            assert(b.no_duplicates()) by {
                assert forall|i: int, j: int|
                    0 <= i < b.len() && 0 <= j < b.len() && i != j implies b[i] != b[j] by {
                    assert(all[a.len() + i] == b[i] && all[a.len() + j] == b[j]);
                }
            }
            assert forall|r: int, c: int, s: int, d: int| #[trigger]
                filled(rows, r, c) && #[trigger] filled(rows, s, d) && (r != s || c
                    != d) implies rows[r]@[c] != rows[s]@[d] by {
                if r < at && s < at {
                    assert(filled(front, r, c) && filled(front, s, d));
                    assert(front[r] == rows[r] && front[s] == rows[s]);
                } else if r == at && s == at {
                    if c < d {
                        assert(row[c] != row[d]);
                    } else {
                        assert(row[d] != row[c]);
                    }
                } else {
                    let (p, q) = if r < at {
                        (r, c)
                    } else {
                        (s, d)
                    };
                    let e = if r < at {
                        d
                    } else {
                        c
                    };
                    assert(filled(front, p, q));
                    assert(front[p] == rows[p]);
                    assert(a.contains(rows[p]@[q]));
                    assert(row.contains(row[e]));
                    assert(b.contains(row[e]));
                    let i = choose|i: int| 0 <= i < a.len() && a[i] == rows[p]@[q];
                    let j = choose|j: int| 0 <= j < b.len() && b[j] == row[e];
                    assert(all[i] != all[a.len() + j]);
                }
            }
        }
        if bound_once(rows) {
            assert(bound_once(front)) by {
                assert forall|r: int, c: int, s: int, d: int| #[trigger]
                    filled(front, r, c) && #[trigger] filled(front, s, d) && (r != s || c
                        != d) implies front[r]@[c] != front[s]@[d] by {
                    assert(filled(rows, r, c) && filled(rows, s, d));
                    assert(front[r] == rows[r] && front[s] == rows[s]);
                }
            }
            assert forall|c: int, d: int|
                #![trigger row[c], row[d]]
                0 <= c < d < row.len() && row[c] != 0 implies row[c] != row[d] by {
                if row[d] != 0 {
                    assert(filled(rows, at, c) && filled(rows, at, d));
                }
            }
            assert(b.no_duplicates());
            assert forall|i: int, j: int|
                0 <= i < all.len() && 0 <= j < all.len() && i != j implies all[i] != all[j] by {
                if i < a.len() && j < a.len() {
                    assert(a[i] != a[j]);
                } else if i >= a.len() && j >= a.len() {
                    assert(b[i - a.len()] != b[j - a.len()]);
                } else {
                    let x = if i < a.len() {
                        i
                    } else {
                        j
                    };
                    let y = if i < a.len() {
                        j - a.len()
                    } else {
                        i - a.len()
                    };
                    assert(a.contains(a[x]));
                    let (r, c) = choose|r: int, c: int| #[trigger]
                        filled(front, r, c) && front[r]@[c] == a[x];
                    assert(b.contains(b[y]));
                    let e = choose|e: int| 0 <= e < row.len() && row[e] == b[y];
                    assert(filled(rows, r, c) && filled(rows, at, e));
                    assert(rows[r]@[c] != rows[at]@[e]);
                }
            }
        }
    }
}

/// Bindings pass if and only if the root, if there is one, and every card in a filled
/// slot exist and are free (a card wanted exclusively also of borrows), and no two
/// filled slots hold the same card.
pub proof fn law_bindings_pass_by_the_rows<S: CardStore>(
    store: &S,
    root: u32,
    rows: Seq<Vec<u32>>,
    now_ms: u64,
    wants_exclusive: spec_fn(u32) -> bool,
)
    ensures
        bindings_fault(store, root, bound_ids(rows), now_ms, wants_exclusive) is None <==> {
            &&& root != 0 ==> card_is_free(store, root, wants_exclusive(root), now_ms)
            &&& forall|r: int, c: int| #[trigger]
                filled(rows, r, c) ==> card_is_free(
                    store,
                    rows[r]@[c],
                    wants_exclusive(rows[r]@[c]),
                    now_ms,
                )
            &&& bound_once(rows)
        },
{
    let ids = bound_ids(rows);
    law_bindings_pass(store, root, ids, now_ms, wants_exclusive);
    lemma_bound_once(rows);
    lemma_bound_contains(rows);
    assert forall|flags: u32, id: u32, x: bool| #[trigger]
        card_fault(flags, id, x) is None <==> word_is_free(flags, x) by {
        law_reason_for_a_word(flags, id, x);
    }
    if forall|r: int, c: int| #[trigger]
        filled(rows, r, c) ==> card_is_free(
            store,
            rows[r]@[c],
            wants_exclusive(rows[r]@[c]),
            now_ms,
        ) {
        assert forall|i: int| 0 <= i < ids.len() implies (store.card(#[trigger] ids[i], now_ms) matches Some(c)
            && card_fault(c.flags, ids[i], wants_exclusive(ids[i])) is None) by {
            assert(ids.contains(ids[i]));
            let (r, c) = choose|r: int, c: int| #[trigger]
                filled(rows, r, c) && rows[r]@[c] == ids[i];
        }
    }
    if forall|i: int|
        0 <= i < ids.len() ==> (store.card(#[trigger] ids[i], now_ms) matches Some(c) && card_fault(
            c.flags,
            ids[i],
            wants_exclusive(ids[i]),
        ) is None) {
        assert forall|r: int, c: int| #[trigger] filled(rows, r, c) implies card_is_free(
            store,
            rows[r]@[c],
            wants_exclusive(rows[r]@[c]),
            now_ms,
        ) by {
            assert(ids.contains(rows[r]@[c]));
            let i = choose|i: int| 0 <= i < ids.len() && ids[i] == rows[r]@[c];
            assert(store.card(ids[i], now_ms) is Some);
        }
    }
}

/// The fault that is reported is that of the root, if it has one, else that of the
/// first id that was bound before, does not exist, or is not free; in that order.
pub proof fn law_first_fault_is_reported<S: CardStore>(
    store: &S,
    root: u32,
    ids: Seq<u32>,
    k: int,
    now_ms: u64,
    wants_exclusive: spec_fn(u32) -> bool,
)
    ensures
        root != 0 && store.card(root, now_ms) is None ==> bindings_fault(
            store,
            root,
            ids,
            now_ms,
            wants_exclusive,
        ) == Some(BindError::RootNotFound(root)),
        root != 0 ==> (store.card(root, now_ms) matches Some(c) ==> !word_is_free(
            c.flags,
            wants_exclusive(root),
        ) ==> bindings_fault(store, root, ids, now_ms, wants_exclusive) == card_fault(
            c.flags,
            root,
            wants_exclusive(root),
        )),
        (root == 0 || card_is_free(store, root, wants_exclusive(root), now_ms)) && 0 <= k
            < ids.len() && (forall|i: int|
            0 <= i < k ==> card_is_free(
                store,
                #[trigger] ids[i],
                wants_exclusive(ids[i]),
                now_ms,
            )) && ids.take(k).no_duplicates() ==> {
            let fault = bindings_fault(store, root, ids, now_ms, wants_exclusive);
            &&& ids.take(k).contains(ids[k]) ==> fault == Some(BindError::Repeated(ids[k]))
            &&& !ids.take(k).contains(ids[k]) && store.card(ids[k], now_ms) is None ==> fault
                == Some(BindError::NotFound(ids[k]))
            &&& !ids.take(k).contains(ids[k]) ==> (store.card(ids[k], now_ms) matches Some(c)
                ==> !word_is_free(c.flags, wants_exclusive(ids[k])) ==> fault == card_fault(
                c.flags,
                ids[k],
                wants_exclusive(ids[k]),
            ))
        },
{
    assert forall|flags: u32, id: u32, x: bool| #[trigger]
        card_fault(flags, id, x) is None <==> word_is_free(flags, x) by {
        law_reason_for_a_word(flags, id, x);
    }
    if 0 <= k < ids.len() {
        let part = ids.take(k);
        law_bindings_pass(store, 0, part, now_ms, wants_exclusive);
        if (forall|i: int|
            0 <= i < k ==> card_is_free(
                store,
                #[trigger] ids[i],
                wants_exclusive(ids[i]),
                now_ms,
            )) && part.no_duplicates() {
            assert forall|i: int| 0 <= i < part.len() implies (store.card(
                #[trigger] part[i],
                now_ms,
            ) matches Some(c) && card_fault(c.flags, part[i], wants_exclusive(part[i])) is None) by {
                assert(part[i] == ids[i]);
            }
            assert(first_fault(store, part, now_ms, wants_exclusive) is None);
            let next = ids.take(k + 1);
            assert(next.drop_last() =~= part);
            assert(next.last() == ids[k]);
            assert(next.is_prefix_of(ids));
            lemma_first_fault_stays(store, next, ids, now_ms, wants_exclusive);
        }
    }
}

/// Whether a walk over owners leads from `card_id` to a player: each card on the way
/// exists, is no player soul and has an owner, which is the next card; the last is a
/// soul, whose owner the player is, or has no owner, and the player is the world.
pub open spec fn owner_path<S: CardStore>(
    store: &S,
    card_id: u32,
    path: Seq<u32>,
    player: u32,
    now_ms: u64,
) -> bool {
    &&& path.len() > 0 && path[0] == card_id
    &&& forall|i: int|
        0 <= i < path.len() - 1 ==> (store.card(#[trigger] path[i], now_ms) matches Some(c)
            && c.packed_definition < 0xFFF0 && c.owner_id != 0 && path[i + 1] == c.owner_id)
    &&& store.card(path.last(), now_ms) matches Some(c) && if c.packed_definition >= 0xFFF0 {
        player == c.owner_id
    } else {
        c.owner_id == 0 && player == 0
    }
}

proof fn lemma_walk_finds_path<S: CardStore>(store: &S, card_id: u32, now_ms: u64, steps: nat) -> (
    path: Seq<u32>)
    requires
        walked_owner(store, card_id, now_ms, steps) is Some,
    ensures
        path.len() <= steps,
        owner_path(store, card_id, path, walked_owner(store, card_id, now_ms, steps)->0, now_ms),
    decreases steps,
{
    let row = store.card(card_id, now_ms)->0;
    if row.packed_definition >= 0xFFF0 || row.owner_id == 0 {
        seq![card_id]
    } else {
        let rest = lemma_walk_finds_path(store, row.owner_id, now_ms, (steps - 1) as nat);
        let path = seq![card_id] + rest;
        assert(path.last() == rest.last());
        assert forall|i: int| 0 <= i < path.len() - 1 implies (store.card(
            #[trigger] path[i],
            now_ms,
        ) matches Some(c) && c.packed_definition < 0xFFF0 && c.owner_id != 0 && path[i + 1]
            == c.owner_id) by {
            if i > 0 {
                assert(path[i] == rest[i - 1] && path[i + 1] == rest[i]);
            }
        }
        path
    }
}

proof fn lemma_path_is_walked<S: CardStore>(
    store: &S,
    card_id: u32,
    path: Seq<u32>,
    player: u32,
    now_ms: u64,
    steps: nat,
)
    requires
        owner_path(store, card_id, path, player, now_ms),
        path.len() <= steps,
    ensures
        walked_owner(store, card_id, now_ms, steps) == Some(player),
    decreases steps,
{
    if path.len() > 1 {
        assert(store.card(path[0], now_ms) is Some);
        let rest = path.drop_first();
        assert(rest.last() == path.last());
        assert forall|i: int| 0 <= i < rest.len() - 1 implies (store.card(
            #[trigger] rest[i],
            now_ms,
        ) matches Some(c) && c.packed_definition < 0xFFF0 && c.owner_id != 0 && rest[i + 1]
            == c.owner_id) by {
            assert(rest[i] == path[i + 1] && rest[i + 1] == path[i + 2]);
            assert(store.card(path[i + 1], now_ms) is Some);
        }
        lemma_path_is_walked(store, rest[0], rest, player, now_ms, (steps - 1) as nat);
    }
}

/// A player is responsible for a card if and only if a walk over at most 32 owners leads
/// from the card to the player.
pub proof fn law_owner_is_at_the_end_of_a_path<S: CardStore>(
    store: &S,
    card_id: u32,
    player: u32,
    now_ms: u64,
)
    ensures
        responsible_player(store, card_id, now_ms) == Some(player) <==> exists|path: Seq<u32>|
            path.len() <= 32 && #[trigger] owner_path(store, card_id, path, player, now_ms),
{
    if responsible_player(store, card_id, now_ms) == Some(player) {
        let path = lemma_walk_finds_path(store, card_id, now_ms, 32);
        assert(owner_path(store, card_id, path, player, now_ms));
    }
    if exists|path: Seq<u32>|
        path.len() <= 32 && #[trigger] owner_path(store, card_id, path, player, now_ms) {
        let path = choose|path: Seq<u32>|
            path.len() <= 32 && #[trigger] owner_path(store, card_id, path, player, now_ms);
        lemma_path_is_walked(store, card_id, path, player, now_ms, 32);
    }
}

} // verus!
