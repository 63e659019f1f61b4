//! Recipe binding state validation: the stack/world checks orthogonal to recipe
//! semantics: every bound card exists, is not dead, is not held by a conflicting
//! in-flight action, and appears only once.
//!
//! Ownership is not checked here: any valid recipe may bind any cards regardless
//! of who owns them. (Ownership is enforced for moving and stacking cards.)
//!
//! Card reads go through the [`CardStore`] trait. Flag reads delegate to
//! [`crate::codec::card_model`], the single owner of the bit layout.

use std::collections::BTreeSet;
use vstd::prelude::*;
use crate::codec::card_model::{bind_blocked, drop_hold_count, hold_count, is_dead, HoldField};
use crate::codec::packed::{is_player_soul, PLAYER_SOUL_FIRST};
use crate::text::decimal;

verus! {

use crate::codec::card_model::{blocked, hold_value};
use crate::codec::flags::has_bit;
use crate::codec::flags::DEAD_BIT;
use crate::sequences::{lemma_filter_ends, lemma_filter_next};
use crate::text::decimal_text;

broadcast use vstd::laws_cmp::group_laws_cmp;

/// The card fields state validation reads. `flags` is the propagating word (state
/// bits + refcount holds).
#[derive(Clone, Copy, Debug)]
pub struct CardView {
    pub card_id: u32,
    pub owner_id: u32,
    pub micro_location: u32,
    pub macro_zone: u64,
    pub packed_definition: u16,
    pub flags: u32,
    /// Per-card variable data, decoded per the definition's stock schema into
    /// recipe-readable aspects.
    pub stock: u32,
}

/// Point-in-time card reads: reading one card at one time twice gives the same
/// answer.
pub trait CardStore {
    /// The card's state as of `time_ms`. An implementor that says nothing else
    /// stands for an empty store.
    open spec fn card(&self, card_id: u32, time_ms: u64) -> Option<CardView> {
        None
    }

    /// The card's state as of `time_ms` (latest version at or before it), or `None`.
    fn card_at(&self, card_id: u32, time_ms: u64) -> (r: Option<CardView>)
        ensures
            r == self.card(card_id, time_ms),
    ;
}

/// World-anonymous player id (cards whose owner chain bottoms out at 0).
pub const WORLD_PLAYER_ID: u32 = 0;

pub const OWNER_WALK_DEPTH_CAP: u32 = 32;

pub const TOUCH_COUNT_CLIENT_CAP: u32 = 3;

/// Whether every answer of `f` is the one `model` gives.
pub open spec fn behaves_as<A, B, F: Fn(A) -> B>(f: F, model: spec_fn(A) -> B) -> bool {
    forall|a: A, b: B| #[trigger] call_ensures(f, (a,), b) ==> b == model(a)
}

/// The player an owner chain from `card_id` leads to within `steps` cards.
pub open spec fn walked_owner<S: CardStore>(
    store: &S,
    card_id: u32,
    now_ms: u64,
    steps: nat,
) -> Option<u32>
    decreases steps,
{
    if steps == 0 {
        None
    } else {
        match store.card(card_id, now_ms) {
            None => None,
            Some(row) => if row.packed_definition >= PLAYER_SOUL_FIRST {
                Some(row.owner_id)
            } else if row.owner_id == 0 {
                Some(WORLD_PLAYER_ID)
            } else {
                walked_owner(store, row.owner_id, now_ms, (steps - 1) as nat)
            },
        }
    }
}

/// The player responsible for `card_id`, `None` where its owner chain breaks off
/// or runs past the depth cap.
pub open spec fn responsible_player<S: CardStore>(store: &S, card_id: u32, now_ms: u64) -> Option<
    u32,
> {
    walked_owner(store, card_id, now_ms, OWNER_WALK_DEPTH_CAP as nat)
}

/// Walk a card's `owner_id` chain to the responsible player. A player soul
/// (identified by definition, [`is_player_soul`]) names its player directly in
/// `owner_id`; otherwise the owner is another card and the walk goes on. A chain
/// bottoming out at owner 0 resolves to [`WORLD_PLAYER_ID`]. `None` only on a
/// missing row or a chain past the depth cap.
pub fn owning_player<S: CardStore>(store: &S, card_id: u32, now_ms: u64) -> (r: Option<u32>)
    ensures
        r == responsible_player(store, card_id, now_ms),
{
    let mut cur: u32 = card_id;
    let mut left: u32 = OWNER_WALK_DEPTH_CAP;
    while left > 0
        invariant
            responsible_player(store, card_id, now_ms) == walked_owner(
                store,
                cur,
                now_ms,
                left as nat,
            ),
        decreases left,
    {
        let row = match store.card_at(cur, now_ms) {
            Some(row) => row,
            None => {
                return None;
            },
        };
        if is_player_soul(row.packed_definition) {
            return Some(row.owner_id);
        }
        if row.owner_id == 0 {
            return Some(WORLD_PLAYER_ID);
        }
        cur = row.owner_id;
        left -= 1;
    }
    None
}

/// Why a set of bindings is refused.
#[derive(Clone, Copy, Debug, PartialEq, Eq, Structural)]
pub enum BindError {
    RootNotFound(u32),
    NotFound(u32),
    Repeated(u32),
    Dead(u32),
    Claimed(u32),
    Borrowed(u32),
    TouchedTooOften(u32),
    DropHeld(u32),
}

impl BindError {
    /// The reason in words.
    pub open spec fn text(self) -> Seq<char> {
        match self {
            BindError::RootNotFound(id) => "root card "@ + decimal_text(id as nat) + " not found"@,
            BindError::NotFound(id) => "card "@ + decimal_text(id as nat) + " not found"@,
            BindError::Repeated(id) => "card "@ + decimal_text(id as nat)
                + " appears more than once in bindings"@,
            BindError::Dead(id) => "card "@ + decimal_text(id as nat) + " unavailable: dead"@,
            BindError::Claimed(id) => "card "@ + decimal_text(id as nat)
                + " unavailable: exclusively held by another in-flight action"@,
            BindError::Borrowed(id) => "card "@ + decimal_text(id as nat)
                + " is borrow-held by another in-flight action; cannot claim"@,
            BindError::TouchedTooOften(id) => "card "@ + decimal_text(id as nat)
                + " has too many concurrent in-flight actions (cap 3)"@,
            BindError::DropHeld(id) => "card "@ + decimal_text(id as nat)
                + " blocks stacking (drop_hold_count > 0)"@,
        }
    }

    /// The reason in words.
    pub fn message(self) -> (r: String)
        ensures
            r@ == self.text(),
    {
        let (head, id, tail): (&str, u32, &str) = match self {
            BindError::RootNotFound(id) => ("root card ", id, " not found"),
            BindError::NotFound(id) => ("card ", id, " not found"),
            BindError::Repeated(id) => ("card ", id, " appears more than once in bindings"),
            BindError::Dead(id) => ("card ", id, " unavailable: dead"),
            BindError::Claimed(id) => (
                "card ",
                id,
                " unavailable: exclusively held by another in-flight action",
            ),
            BindError::Borrowed(id) => (
                "card ",
                id,
                " is borrow-held by another in-flight action; cannot claim",
            ),
            BindError::TouchedTooOften(id) => (
                "card ",
                id,
                " has too many concurrent in-flight actions (cap 3)",
            ),
            BindError::DropHeld(id) => ("card ", id, " blocks stacking (drop_hold_count > 0)"),
        };
        let mut r = head.to_owned();
        r.append(decimal(id as u64).as_str());
        r.append(tail);
        r
    }
}

/// What makes a card with these flags unfit for a binding, if anything.
pub open spec fn card_fault(flags: u32, card_id: u32, wants_exclusive: bool) -> Option<BindError> {
    if has_bit(flags, DEAD_BIT) {
        Some(BindError::Dead(card_id))
    } else if hold_value(flags, HoldField::SlotClaim) > 0 {
        Some(BindError::Claimed(card_id))
    } else if wants_exclusive && hold_value(flags, HoldField::SlotBorrow) > 0 {
        Some(BindError::Borrowed(card_id))
    } else if hold_value(flags, HoldField::Touch) >= TOUCH_COUNT_CLIENT_CAP {
        Some(BindError::TouchedTooOften(card_id))
    } else if hold_value(flags, HoldField::DropHold) > 0 {
        Some(BindError::DropHeld(card_id))
    } else {
        None
    }
}

/// The per-card dead / hold-conflict / touch / drop check, shared by the root and
/// the binding rows.
fn check_card(card: &CardView, card_id: u32, wants_exclusive: bool) -> (r: Result<(), BindError>)
    ensures
        match card_fault(card.flags, card_id, wants_exclusive) {
            Some(e) => r == Err::<(), BindError>(e),
            None => r is Ok,
        },
{
    // Verb-independent baseline (dead or exclusively claimed): the same predicate
    // the client matcher applies.
    if bind_blocked(card.flags) {
        return Err(
            if is_dead(card.flags) {
                BindError::Dead(card_id)
            } else {
                BindError::Claimed(card_id)
            },
        );
    }
    if wants_exclusive && hold_count(card.flags, HoldField::SlotBorrow) > 0 {
        return Err(BindError::Borrowed(card_id));
    }
    if hold_count(card.flags, HoldField::Touch) as u32 >= TOUCH_COUNT_CLIENT_CAP {
        return Err(BindError::TouchedTooOften(card_id));
    }
    if drop_hold_count(card.flags) > 0 {
        return Err(BindError::DropHeld(card_id));
    }
    Ok(())
}

/// The bound card ids, row by row, without the empty slots.
pub open spec fn bound_ids(bindings: Seq<Vec<u32>>) -> Seq<u32>
    decreases bindings.len(),
{
    if bindings.len() == 0 {
        Seq::empty()
    } else {
        bound_ids(bindings.drop_last()) + bindings.last()@.filter(|id: u32| id != 0)
    }
}

/// What is wrong with the root card, if anything.
pub open spec fn root_fault<S: CardStore>(
    store: &S,
    root: u32,
    now_ms: u64,
    wants_exclusive: spec_fn(u32) -> bool,
) -> Option<BindError> {
    if root == 0 {
        None
    } else {
        match store.card(root, now_ms) {
            None => Some(BindError::RootNotFound(root)),
            Some(card) => card_fault(card.flags, root, wants_exclusive(root)),
        }
    }
}

/// What is wrong with binding `id` after the ids in `earlier`, if anything.
pub open spec fn binding_fault<S: CardStore>(
    store: &S,
    earlier: Seq<u32>,
    id: u32,
    now_ms: u64,
    wants_exclusive: spec_fn(u32) -> bool,
) -> Option<BindError> {
    if earlier.contains(id) {
        Some(BindError::Repeated(id))
    } else {
        match store.card(id, now_ms) {
            None => Some(BindError::NotFound(id)),
            Some(card) => card_fault(card.flags, id, wants_exclusive(id)),
        }
    }
}

/// The first thing wrong among the bound ids, in order.
pub open spec fn first_fault<S: CardStore>(
    store: &S,
    ids: Seq<u32>,
    now_ms: u64,
    wants_exclusive: spec_fn(u32) -> bool,
) -> Option<BindError>
    decreases ids.len(),
{
    if ids.len() == 0 {
        None
    } else {
        match first_fault(store, ids.drop_last(), now_ms, wants_exclusive) {
            Some(e) => Some(e),
            None => binding_fault(store, ids.drop_last(), ids.last(), now_ms, wants_exclusive),
        }
    }
}

/// What is wrong with a proposal's root and bindings, if anything: the root is
/// checked first, then the bound cards in order.
pub open spec fn bindings_fault<S: CardStore>(
    store: &S,
    root: u32,
    ids: Seq<u32>,
    now_ms: u64,
    wants_exclusive: spec_fn(u32) -> bool,
) -> Option<BindError> {
    match root_fault(store, root, now_ms, wants_exclusive) {
        Some(e) => Some(e),
        None => first_fault(store, ids, now_ms, wants_exclusive),
    }
}

/// Stack-vs-world validation. `Ok(())` means every bound card passes; `Err` names
/// the failing card and the reason.
///
/// `wants_exclusive(card_id)`: does this recipe claim an exclusive (`use` /
/// `claim`) hold on the card? When true, a card already borrow-held by another
/// action is a conflict; an exclusive hold by another action always conflicts.
/// Whatever it answers, bindings at fault without any exclusive claim are refused,
/// and bindings without a fault under exclusive claims on all cards pass.
pub fn validate_bindings<S: CardStore>(
    store: &S,
    _recipe_id: u16,
    root: u32,
    bindings: &[Vec<u32>],
    _caller_player_id: u32,
    now_ms: u64,
    wants_exclusive: impl Fn(u32) -> bool,
) -> (r: Result<(), String>)
    requires
        forall|id: u32| call_requires(wants_exclusive, (id,)),
    ensures
        forall|model: spec_fn(u32) -> bool| #[trigger]
            behaves_as(wants_exclusive, model) ==> match bindings_fault(
                store,
                root,
                bound_ids(bindings@),
                now_ms,
                model,
            ) {
                Some(e) => r matches Err(text) && text@ == e.text(),
                None => r is Ok,
            },
        bindings_fault(store, root, bound_ids(bindings@), now_ms, |id: u32| false) is Some
            ==> r is Err,
        bindings_fault(store, root, bound_ids(bindings@), now_ms, |id: u32| true) is None
            ==> r is Ok,
{
    let ghost never = |id: u32| false;
    let ghost always = |id: u32| true;
    if root != 0 {
        let card = match store.card_at(root, now_ms) {
            Some(card) => card,
            None => {
                return Err(BindError::RootNotFound(root).message());
            },
        };
        if let Err(e) = check_card(&card, root, wants_exclusive(root)) {
            return Err(e.message());
        }
    }
    let mut seen: BTreeSet<u32> = BTreeSet::new();
    let ghost mut ids: Seq<u32> = Seq::empty();
    let mut row: usize = 0;
    while row < bindings.len()
        invariant
            forall|id: u32| call_requires(wants_exclusive, (id,)),
            row <= bindings.len(),
            ids == bound_ids(bindings@.take(row as int)),
            forall|id: u32| seen@.contains(id) <==> ids.contains(id),
            forall|model: spec_fn(u32) -> bool| #[trigger]
                behaves_as(wants_exclusive, model) ==> root_fault(store, root, now_ms, model)
                    is None && first_fault(store, ids, now_ms, model) is None,
            never == (|id: u32| false),
            always == (|id: u32| true),
            root_fault(store, root, now_ms, never) is None,
            first_fault(store, ids, now_ms, never) is None,
        decreases bindings.len() - row,
    {
        let slots = &bindings[row];
        let mut col: usize = 0;
        let ghost before = ids;
        let ghost nonzero = |id: u32| id != 0;
        proof {
            lemma_filter_ends(slots@, nonzero);
        }
        while col < slots.len()
            invariant
                forall|id: u32| call_requires(wants_exclusive, (id,)),
                row < bindings.len(),
                *slots == bindings@[row as int],
                col <= slots.len(),
                before == bound_ids(bindings@.take(row as int)),
                nonzero == (|id: u32| id != 0),
                ids == before + slots@.take(col as int).filter(nonzero),
                forall|id: u32| seen@.contains(id) <==> ids.contains(id),
                forall|model: spec_fn(u32) -> bool| #[trigger]
                    behaves_as(wants_exclusive, model) ==> root_fault(store, root, now_ms, model)
                        is None && first_fault(store, ids, now_ms, model) is None,
                never == (|id: u32| false),
                always == (|id: u32| true),
                root_fault(store, root, now_ms, never) is None,
                first_fault(store, ids, now_ms, never) is None,
            decreases slots.len() - col,
        {
            let card_id: u32 = slots[col];
            proof {
                lemma_filter_next(slots@, nonzero, col as int);
            }
            if card_id != 0 {
                proof {
                    lemma_bound_prefix(bindings@, row as int, col as int);
                    assert(before + slots@.take(col + 1).filter(nonzero) =~= ids.push(card_id));
                    assert(ids.push(card_id).drop_last() =~= ids);
                    let all = bound_ids(bindings@);
                    lemma_first_fault_stays(store, ids.push(card_id), all, now_ms, always);
                    assert forall|model: spec_fn(u32) -> bool| #[trigger]
                        behaves_as(wants_exclusive, model) implies (first_fault(
                        store,
                        ids.push(card_id),
                        now_ms,
                        model,
                    ) matches Some(e) ==> first_fault(store, all, now_ms, model) == Some(e)) by {
                        lemma_first_fault_stays(store, ids.push(card_id), all, now_ms, model);
                    }
                }
                if !seen.insert(card_id) {
                    return Err(BindError::Repeated(card_id).message());
                }
                let card = match store.card_at(card_id, now_ms) {
                    Some(card) => card,
                    None => {
                        return Err(BindError::NotFound(card_id).message());
                    },
                };
                if let Err(e) = check_card(&card, card_id, wants_exclusive(card_id)) {
                    return Err(e.message());
                }
                proof {
                    let longer = ids.push(card_id);
                    assert forall|id: u32| seen@.contains(id) <==> longer.contains(id) by {
                        if ids.contains(id) {
                            let k = choose|k: int| 0 <= k < ids.len() && ids[k] == id;
                            assert(longer[k] == id);
                        }
                        assert(longer[ids.len() as int] == card_id);
                    }
                    ids = longer;
                }
            }
            col += 1;
        }
        proof {
            lemma_filter_ends(slots@, nonzero);
            assert(bindings@.take(row + 1).drop_last() =~= bindings@.take(row as int));
        }
        row += 1;
    }
    assert(bindings@.take(bindings@.len() as int) =~= bindings@);
    Ok(())
}

/// The ids bound up to a slot are a prefix of all bound ids.
proof fn lemma_bound_prefix(bindings: Seq<Vec<u32>>, row: int, col: int)
    requires
        0 <= row < bindings.len(),
        0 <= col < bindings[row]@.len(),
    ensures
        (bound_ids(bindings.take(row)) + bindings[row]@.take(col + 1).filter(
            |id: u32| id != 0,
        )).is_prefix_of(bound_ids(bindings)),
    decreases bindings.len(),
{
    let nonzero = |id: u32| id != 0;
    let slots = bindings[row]@;
    let part = bound_ids(bindings.take(row)) + slots.take(col + 1).filter(nonzero);
    if row == bindings.len() - 1 {
        assert(bindings.take(row) =~= bindings.drop_last());
        assert(slots =~= slots.take(col + 1) + slots.skip(col + 1));
        Seq::filter_distributes_over_add(slots.take(col + 1), slots.skip(col + 1), nonzero);
        assert(bound_ids(bindings) =~= part + slots.skip(col + 1).filter(nonzero));
    } else {
        lemma_bound_prefix(bindings.drop_last(), row, col);
        assert(bindings.drop_last().take(row) =~= bindings.take(row));
        let shorter = bound_ids(bindings.drop_last());
        assert(bound_ids(bindings).subrange(0, part.len() as int) =~= shorter.subrange(
            0,
            part.len() as int,
        ));
    }
}

/// A fault among the first ids stays the first fault however many ids follow.
pub(crate) proof fn lemma_first_fault_stays<S: CardStore>(
    store: &S,
    part: Seq<u32>,
    all: Seq<u32>,
    now_ms: u64,
    wants_exclusive: spec_fn(u32) -> bool,
)
    requires
        part.is_prefix_of(all),
    ensures
        first_fault(store, part, now_ms, wants_exclusive) matches Some(e) ==> first_fault(
            store,
            all,
            now_ms,
            wants_exclusive,
        ) == Some(e),
    decreases all.len(),
{
    if part.len() == all.len() {
        assert(part =~= all);
    } else {
        assert(part =~= all.drop_last().subrange(0, part.len() as int));
        lemma_first_fault_stays(store, part, all.drop_last(), now_ms, wants_exclusive);
    }
}

/// Bindings pass exactly when the root (if any) and every bound card exist and
/// have no fault, and no card is bound twice.
pub proof fn law_bindings_pass<S: CardStore>(
    store: &S,
    root: u32,
    ids: Seq<u32>,
    now_ms: u64,
    wants_exclusive: spec_fn(u32) -> bool,
)
    ensures
        bindings_fault(store, root, ids, now_ms, wants_exclusive) is None <==> {
            &&& root != 0 ==> (store.card(root, now_ms) matches Some(c) && card_fault(
                c.flags,
                root,
                wants_exclusive(root),
            ) is None)
            &&& ids.no_duplicates()
            &&& forall|i: int|
                0 <= i < ids.len() ==> (store.card(#[trigger] ids[i], now_ms) matches Some(c)
                    && card_fault(c.flags, ids[i], wants_exclusive(ids[i])) is None)
        },
    decreases ids.len(),
{
    if ids.len() > 0 {
        let part = ids.drop_last();
        law_bindings_pass(store, root, part, now_ms, wants_exclusive);
        assert forall|i: int| 0 <= i < part.len() implies part[i] == ids[i] by {}
        if bindings_fault(store, root, ids, now_ms, wants_exclusive) is None {
            assert forall|i: int, j: int|
                0 <= i < ids.len() && 0 <= j < ids.len() && i != j implies ids[i] != ids[j] by {
                if i < part.len() && j < part.len() {
                    assert(part[i] != part[j]);
                } else if i < part.len() {
                    assert(part[i] == ids[i]);
                } else {
                    assert(part[j] == ids[j]);
                }
            }
            assert forall|i: int| 0 <= i < ids.len() implies (store.card(#[trigger] ids[i], now_ms) matches Some(c)
                && card_fault(c.flags, ids[i], wants_exclusive(ids[i])) is None) by {
                if i < part.len() {
                    assert(part[i] == ids[i]);
                } else {
                    assert(ids[i] == ids.last());
                }
            }
        } else if ids.no_duplicates() && first_fault(store, part, now_ms, wants_exclusive) is None {
            assert(!part.contains(ids.last())) by {
                if part.contains(ids.last()) {
                    let k = choose|k: int| 0 <= k < part.len() && part[k] == ids.last();
                    assert(ids[k] == ids[ids.len() - 1]);
                }
            }
            assert(ids[ids.len() - 1] == ids.last());
        } else if ids.no_duplicates() {
            assert(part.no_duplicates());
        }
    }
}

/// Whether two stores have the same cards with the same flags.
pub open spec fn same_flags<A: CardStore, B: CardStore>(a: &A, b: &B, now_ms: u64) -> bool {
    forall|id: u32|
        #![trigger a.card(id, now_ms)]
        #![trigger b.card(id, now_ms)]
        match (a.card(id, now_ms), b.card(id, now_ms)) {
            (Some(x), Some(y)) => x.flags == y.flags,
            (None, None) => true,
            _ => false,
        }
}

/// Nothing but the flags of the bound cards decides: who owns them, where they are
/// and what they are does not matter.
pub proof fn law_only_flags_decide<A: CardStore, B: CardStore>(
    a: &A,
    b: &B,
    root: u32,
    ids: Seq<u32>,
    now_ms: u64,
    wants_exclusive: spec_fn(u32) -> bool,
)
    requires
        same_flags(a, b, now_ms),
    ensures
        bindings_fault(a, root, ids, now_ms, wants_exclusive) == bindings_fault(
            b,
            root,
            ids,
            now_ms,
            wants_exclusive,
        ),
{
    assert(root_fault(a, root, now_ms, wants_exclusive) == root_fault(
        b,
        root,
        now_ms,
        wants_exclusive,
    ));
    lemma_same_first_fault(a, b, ids, now_ms, wants_exclusive);
}

proof fn lemma_same_first_fault<A: CardStore, B: CardStore>(
    a: &A,
    b: &B,
    ids: Seq<u32>,
    now_ms: u64,
    wants_exclusive: spec_fn(u32) -> bool,
)
    requires
        same_flags(a, b, now_ms),
    ensures
        first_fault(a, ids, now_ms, wants_exclusive) == first_fault(
            b,
            ids,
            now_ms,
            wants_exclusive,
        ),
    decreases ids.len(),
{
    if ids.len() > 0 {
        let part = ids.drop_last();
        lemma_same_first_fault(a, b, part, now_ms, wants_exclusive);
        assert(binding_fault(a, part, ids.last(), now_ms, wants_exclusive) == binding_fault(
            b,
            part,
            ids.last(),
            now_ms,
            wants_exclusive,
        ));
    }
}

/// A card the client matcher skips is refused as unavailable, whatever the recipe
/// wants of it; and a card refused as unavailable is one the matcher skips.
pub proof fn law_matcher_agrees_with_binding_check(flags: u32, card_id: u32, wants_exclusive: bool)
    ensures
        blocked(flags) <==> {
            ||| card_fault(flags, card_id, wants_exclusive) == Some(BindError::Dead(card_id))
            ||| card_fault(flags, card_id, wants_exclusive) == Some(BindError::Claimed(card_id))
        },
{
}

/// An owner chain that resolves within some number of steps resolves to the same
/// player within more.
pub proof fn law_owner_walk_is_stable<S: CardStore>(
    store: &S,
    card_id: u32,
    now_ms: u64,
    fewer: nat,
    more: nat,
)
    requires
        fewer <= more,
    ensures
        walked_owner(store, card_id, now_ms, fewer) matches Some(p) ==> walked_owner(
            store,
            card_id,
            now_ms,
            more,
        ) == Some(p),
    decreases fewer,
{
    if fewer > 0 {
        if let Some(row) = store.card(card_id, now_ms) {
            law_owner_walk_is_stable(
                store,
                row.owner_id,
                now_ms,
                (fewer - 1) as nat,
                (more - 1) as nat,
            );
        }
    }
}

/// A function behaves as a model if every answer it can give is the model's.
pub proof fn law_behaving_as_a_model<A, B, F: Fn(A) -> B>(f: F, model: spec_fn(A) -> B)
    requires
        forall|a: A, b: B| #[trigger] call_ensures(f, (a,), b) ==> b == model(a),
    ensures
        behaves_as(f, model),
{
}

} // verus!
