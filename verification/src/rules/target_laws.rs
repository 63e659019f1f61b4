//! Where a target path leads, step by step.

use vstd::prelude::*;
use crate::dsl::recipe::{Frame, Placed};
use crate::state::recipe_state::CardStore;

verus! {

use crate::codec::card_model::stack_value;
use crate::codec::word_laws::law_word_digits;
use crate::dsl::recipe::{at_path, is_longest, leads_to};
use crate::rules::dsl_recipe::{target, walked, RecipeError};
use crate::sequences::{is_first, lemma_filter_push, lemma_first_where};
use crate::text::{dotted_steps, split_dots};

/// Whether no card is placed at a path.
pub open spec fn is_free_path(frame: Frame, path: Seq<char>) -> bool {
    forall|i: int| 0 <= i < frame.placed@.len() ==> (#[trigger] frame.placed@[i]).path@ != path
}

/// Whether a card is the first that is placed at a path.
pub open spec fn stands_at(frame: Frame, path: Seq<char>, card_id: u32) -> bool {
    exists|i: int|
        0 <= i < frame.placed@.len() && (#[trigger] frame.placed@[i]).path@ == path
            && frame.placed@[i].card_id == card_id && forall|j: int|
            0 <= j < i ==> (#[trigger] frame.placed@[j]).path@ != path
}

/// A path that a card is placed at leads to that card, and names no container.
pub proof fn law_placed_path_leads_to_its_card<S: CardStore>(
    frame: Frame,
    store: &S,
    path: Seq<char>,
    card_id: u32,
    now_ms: u64,
)
    requires
        stands_at(frame, path, card_id),
    ensures
        frame.card(path) == Some(card_id),
        target(frame, store, path, now_ms) == Ok::<_, RecipeError>((card_id, None::<Seq<char>>)),
{
    let pred = at_path(path);
    let i = choose|i: int|
        0 <= i < frame.placed@.len() && (#[trigger] frame.placed@[i]).path@ == path
            && frame.placed@[i].card_id == card_id && forall|j: int|
            0 <= j < i ==> (#[trigger] frame.placed@[j]).path@ != path;
    assert(is_first(frame.placed@, pred, i));
    lemma_first_where(frame.placed@, pred, i);
}

/// At a free path there is no card.
pub proof fn law_free_path_has_no_card(frame: Frame, path: Seq<char>)
    ensures
        is_free_path(frame, path) <==> frame.card(path) is None,
        frame.card(path) matches Some(card_id) ==> stands_at(frame, path, card_id),
{
    let pred = at_path(path);
    lemma_first_where(frame.placed@, pred, 0);
    if frame.card(path) is Some {
        let i = choose|i: int| is_first(frame.placed@, pred, i);
        assert(is_first(frame.placed@, pred, i));
        assert(frame.placed@[i].path@ == path);
    } else if !is_free_path(frame, path) {
        lemma_some_first(frame.placed@, pred);
        let i = choose|i: int| is_first(frame.placed@, pred, i);
        lemma_first_where(frame.placed@, pred, i);
    }
}

/// Where an element passes, there is a first that does.
proof fn lemma_some_first<A>(s: Seq<A>, pred: spec_fn(A) -> bool)
    requires
        exists|i: int| 0 <= i < s.len() && pred(#[trigger] s[i]),
    ensures
        exists|i: int| is_first(s, pred, i),
    decreases s.len(),
{
    let front = s.drop_last();
    if exists|i: int| 0 <= i < front.len() && pred(#[trigger] front[i]) {
        lemma_some_first(front, pred);
        let i = choose|i: int| is_first(front, pred, i);
        assert forall|j: int| 0 <= j < i implies !pred(#[trigger] s[j]) by {
            assert(front[j] == s[j]);
        }
        assert(s[i] == front[i]);
        assert(is_first(s, pred, i));
    } else {
        let n = s.len() - 1;
        assert forall|j: int| 0 <= j < n implies !pred(#[trigger] s[j]) by {
            assert(front[j] == s[j]);
        }
        let i = choose|i: int| 0 <= i < s.len() && pred(#[trigger] s[i]);
        assert(i == n);
        assert(is_first(s, pred, n));
    }
}

/// A path without a dot at which no card is placed leads nowhere.
pub proof fn law_lone_name_leads_nowhere<S: CardStore>(
    frame: Frame,
    store: &S,
    path: Seq<char>,
    now_ms: u64,
)
    requires
        is_free_path(frame, path),
        !path.contains('.'),
    ensures
        target(frame, store, path, now_ms) == Err::<(u32, Option<Seq<char>>), _>(
            RecipeError::UnresolvedTarget { path },
        ),
{
    law_free_path_has_no_card(frame, path);
    if exists|i: int| is_longest(frame.placed@, path, i) {
        let i = choose|i: int| is_longest(frame.placed@, path, i);
        let n = frame.placed@[i].path@.len() as int;
        assert(path[n] == '.');
        assert(path.contains(path[n]));
    }
}

/// A text without dots has one part.
proof fn lemma_split_one(s: Seq<char>)
    requires
        !s.contains('.'),
    ensures
        split_dots(s) == seq![s],
    decreases s.len(),
{
    if s.len() > 0 {
        let front = s.drop_last();
        assert(s[s.len() - 1] == s.last());
        assert(s.contains(s.last()));
        assert(!front.contains('.')) by {
            if front.contains('.') {
                let k = choose|k: int| 0 <= k < front.len() && front[k] == '.';
                assert(s[k] == '.');
            }
        }
        lemma_split_one(front);
        assert(front.push(s.last()) =~= s);
        assert(seq![front].drop_last().push(front.push(s.last())) =~= seq![s]);
    } else {
        assert(s =~= Seq::<char>::empty());
    }
}

/// A dot and a text without dots add one part.
proof fn lemma_split_more(a: Seq<char>, s: Seq<char>)
    requires
        !s.contains('.'),
    ensures
        split_dots(a + seq!['.'] + s) == split_dots(a).push(s),
    decreases s.len(),
{
    let all = a + seq!['.'] + s;
    if s.len() == 0 {
        assert(all.drop_last() =~= a);
        assert(all.last() == '.');
        assert(s =~= Seq::<char>::empty());
    } else {
        let front = s.drop_last();
        assert(s[s.len() - 1] == s.last());
        assert(s.contains(s.last()));
        assert(!front.contains('.')) by {
            if front.contains('.') {
                let k = choose|k: int| 0 <= k < front.len() && front[k] == '.';
                assert(s[k] == '.');
            }
        }
        lemma_split_more(a, front);
        assert(all.drop_last() =~= a + seq!['.'] + front);
        assert(all.last() == s.last());
        let parts = split_dots(a).push(front);
        assert(parts.drop_last() =~= split_dots(a));
        assert(front.push(s.last()) =~= s);
    }
}

/// The steps of a text are what stands between its dots: a text without a dot is one step, a dot
/// and a text without one behind another text are one step more, and no text is no step.
pub proof fn law_steps_of_a_text(a: Seq<char>, s: Seq<char>)
    requires
        !s.contains('.'),
    ensures
        dotted_steps(a + seq!['.'] + s) == if s.len() > 0 {
            dotted_steps(a).push(s)
        } else {
            dotted_steps(a)
        },
        dotted_steps(s) == if s.len() > 0 {
            seq![s]
        } else {
            Seq::empty()
        },
{
    let keep = |part: Seq<char>| part.len() > 0;
    lemma_split_more(a, s);
    lemma_split_one(s);
    lemma_filter_push(split_dots(a), keep, s);
    reveal(Seq::filter);
    assert(seq![s] =~= Seq::<Seq<char>>::empty().push(s));
    lemma_filter_push(Seq::<Seq<char>>::empty(), keep, s);
    assert(Seq::<Seq<char>>::empty().filter(keep) =~= Seq::<Seq<char>>::empty());
    assert(Seq::<Seq<char>>::empty().push(s) =~= seq![s]);
}

/// A walk for another path differs only in the path that an unsupported step names.
proof fn lemma_walk_renamed<S: CardStore>(
    store: &S,
    from: u32,
    steps: Seq<Seq<char>>,
    p: Seq<char>,
    q: Seq<char>,
    now_ms: u64,
)
    ensures
        walked(store, from, steps, q, now_ms) == renamed(walked(store, from, steps, p, now_ms), q),
        !(walked(store, from, steps, p, now_ms) matches Err(RecipeError::UnresolvedTarget { .. })),
    decreases steps.len(),
{
    if steps.len() > 0 {
        lemma_walk_renamed(store, from, steps.drop_last(), p, q, now_ms);
    }
}

/// An outcome for another path: the path is named in an error that names it.
pub open spec fn renamed(
    r: Result<(u32, Option<Seq<char>>), RecipeError>,
    path: Seq<char>,
) -> Result<(u32, Option<Seq<char>>), RecipeError> {
    match r {
        Err(RecipeError::UnsupportedStep { step, .. }) => Err(
            RecipeError::UnsupportedStep { step, path },
        ),
        Err(RecipeError::UnresolvedTarget { .. }) => Err(RecipeError::UnresolvedTarget { path }),
        other => other,
    }
}

/// There is only one longest placed path.
proof fn lemma_longest_unique(placed: Seq<Placed>, path: Seq<char>, i: int, j: int)
    requires
        is_longest(placed, path, i),
        is_longest(placed, path, j),
    ensures
        i == j,
{
    assert(leads_to(placed[i].path@, path));
    assert(leads_to(placed[j].path@, path));
}

/// Which placed paths lead to a path with one step more.
proof fn lemma_leads_further(x: Seq<char>, p: Seq<char>, s: Seq<char>)
    requires
        !s.contains('.'),
    ensures
        leads_to(x, p + seq!['.'] + s) <==> leads_to(x, p) || x == p,
{
    let q = p + seq!['.'] + s;
    let n = x.len() as int;
    if leads_to(x, q) {
        if n > p.len() {
            assert(q[n] == s[n - p.len() - 1]);
            assert(s.contains(s[n - p.len() - 1]));
        }
        if n < p.len() {
            assert(q.take(n) =~= p.take(n));
            assert(q[n] == p[n]);
        } else {
            assert(q.take(n) =~= p);
        }
    }
    if leads_to(x, p) {
        assert(q.take(n) =~= p.take(n));
        assert(q[n] == p[n]);
    }
    if x == p {
        assert(q.take(n) =~= p);
    }
}

/// A path with one step more starts from the card of the path, if it has one.
proof fn lemma_longest_is_the_path(frame: Frame, p: Seq<char>, s: Seq<char>, card_id: u32)
    requires
        !s.contains('.'),
        stands_at(frame, p, card_id),
    ensures
        frame.prefix(p + seq!['.'] + s) == Some((p, card_id, s)),
{
    let q = p + seq!['.'] + s;
    let placed = frame.placed@;
    let i = choose|i: int|
        0 <= i < frame.placed@.len() && (#[trigger] frame.placed@[i]).path@ == p
            && frame.placed@[i].card_id == card_id && forall|j: int|
            0 <= j < i ==> (#[trigger] frame.placed@[j]).path@ != p;
    lemma_leads_further(p, p, s);
    assert forall|j: int|
        0 <= j < placed.len() && leads_to((#[trigger] placed[j]).path@, q) implies placed[j].path@.len()
        < placed[i].path@.len() || (placed[j].path@.len() == placed[i].path@.len() && i <= j) by {
        lemma_leads_further(placed[j].path@, p, s);
        if placed[j].path@ == p && j < i {
            assert(frame.placed@[j].path@ != p);
        }
    }
    assert(is_longest(placed, q, i));
    let k = choose|k: int| is_longest(placed, q, k);
    lemma_longest_unique(placed, q, i, k);
    assert(q.skip((p.len() + 1) as int) =~= s);
}

/// A path with one step more starts where the path does, if that has no card of its own.
proof fn lemma_longest_stays(frame: Frame, p: Seq<char>, s: Seq<char>)
    requires
        !s.contains('.'),
        is_free_path(frame, p),
    ensures
        match frame.prefix(p) {
            Some(start) => frame.prefix(p + seq!['.'] + s) == Some(
                (start.0, start.1, start.2 + seq!['.'] + s),
            ),
            None => frame.prefix(p + seq!['.'] + s) is None,
        },
{
    let q = p + seq!['.'] + s;
    let placed = frame.placed@;
    assert forall|j: int| 0 <= j < placed.len() implies leads_to(
        (#[trigger] placed[j]).path@,
        q,
    ) == leads_to(placed[j].path@, p) by {
        lemma_leads_further(placed[j].path@, p, s);
        assert(frame.placed@[j].path@ != p);
    }
    assert forall|i: int| #[trigger] is_longest(placed, q, i) == is_longest(placed, p, i) by {}
    if exists|i: int| is_longest(placed, p, i) {
        let a = choose|i: int| is_longest(placed, p, i);
        assert(is_longest(placed, q, a));
        let b = choose|i: int| is_longest(placed, q, i);
        lemma_longest_unique(placed, q, a, b);
        let n = placed[a].path@.len() as int;
        assert(leads_to(placed[a].path@, p));
        assert(q.skip(n + 1) =~= p.skip(n + 1) + seq!['.'] + s);
    } else {
        assert forall|i: int| !#[trigger] is_longest(placed, q, i) by {
            assert(!is_longest(placed, p, i));
        }
    }
}

/// Where a path with one step more, at which no card is placed, leads: from where the path
/// leads, an `owner` step goes to the card that its row names as its owner, a `parent` step
/// to the card that its row says it is stacked on, an `inventory` or `blueprint` step names
/// the container, an empty step does nothing, and any other is unsupported. A path that
/// leads nowhere leads nowhere with a step more.
pub proof fn law_one_step_more<S: CardStore>(
    frame: Frame,
    store: &S,
    path: Seq<char>,
    step: Seq<char>,
    now_ms: u64,
)
    requires
        !step.contains('.'),
        is_free_path(frame, path + seq!['.'] + step),
    ensures
        ({
            let longer = path + seq!['.'] + step;
            let r = target(frame, store, longer, now_ms);
            match target(frame, store, path, now_ms) {
                Ok((at, word)) => {
                    let row = store.card(at, now_ms);
                    &&& step.len() == 0 ==> r == Ok::<_, RecipeError>((at, word))
                    &&& step == "owner"@ ==> r == match row {
                        Some(c) => if c.owner_id != 0 {
                            Ok((c.owner_id, word))
                        } else {
                            Err(RecipeError::NoOwner { card_id: at })
                        },
                        None => Err(RecipeError::NoOwner { card_id: at }),
                    }
                    &&& step == "parent"@ ==> r == match row {
                        Some(c) => if c.flags as int % 16 != 0 {
                            Ok((c.micro_location, word))
                        } else {
                            Err(RecipeError::NotStacked { card_id: at })
                        },
                        None => Err(RecipeError::ParentMissing { card_id: at }),
                    }
                    &&& step == "inventory"@ || step == "blueprint"@ ==> r == Ok::<_, RecipeError>(
                        (at, Some(step)),
                    )
                    &&& step.len() > 0 && step != "owner"@ && step != "parent"@ && step
                        != "inventory"@ && step != "blueprint"@ ==> r == Err::<
                        (u32, Option<Seq<char>>),
                        _,
                    >(RecipeError::UnsupportedStep { step, path: longer })
                },
                Err(e) => r == renamed(Err(e), longer),
            }
        }),
{
    let longer = path + seq!['.'] + step;
    reveal_strlit("owner");
    reveal_strlit("parent");
    reveal_strlit("inventory");
    reveal_strlit("blueprint");
    assert("owner"@.len() == 5 && "parent"@.len() == 6 && "inventory"@.len() == 9
        && "blueprint"@.len() == 9);
    assert("inventory"@[0] != "blueprint"@[0]);
    law_free_path_has_no_card(frame, longer);
    law_free_path_has_no_card(frame, path);
    assert forall|flags: u32| #[trigger]
        stack_value(flags) == flags as int % 16 by {
        law_word_digits(flags);
    }
    match frame.card(path) {
        Some(card_id) => {
            lemma_longest_is_the_path(frame, path, step, card_id);
            law_steps_of_a_text(Seq::empty(), step);
            let steps = dotted_steps(step);
            if step.len() > 0 {
                assert(steps.drop_last() =~= Seq::<Seq<char>>::empty());
                assert(walked(store, card_id, steps.drop_last(), longer, now_ms) == Ok::<
                    (u32, Option<Seq<char>>),
                    RecipeError,
                >((card_id, None)));
                assert(steps.last() == step);
            }
        },
        None => {
            lemma_longest_stays(frame, path, step);
            if let Some(start) = frame.prefix(path) {
                law_steps_of_a_text(start.2, step);
                let steps = dotted_steps(start.2);
                lemma_walk_renamed(store, start.1, steps, path, longer, now_ms);
                assert(steps.push(step).drop_last() =~= steps);
                assert(steps.push(step).last() == step);
            }
        },
    }
}

/// A path that a card is placed at, followed by `parent`, leads to the root of the stack
/// that the card is a member of; followed by `owner`, to its owner.
pub proof fn law_parent_and_owner_of_a_placed_card<S: CardStore>(
    frame: Frame,
    store: &S,
    path: Seq<char>,
    card_id: u32,
    now_ms: u64,
)
    requires
        stands_at(frame, path, card_id),
        store.card(card_id, now_ms) is Some,
    ensures
        ({
            let row = store.card(card_id, now_ms)->0;
            let up = path + seq!['.'] + "parent"@;
            let over = path + seq!['.'] + "owner"@;
            &&& is_free_path(frame, up) && (row.micro() matches crate::codec::card_model::Micro::Stacked {
                root,
                ..
            }) ==> target(frame, store, up, now_ms) == Ok::<_, RecipeError>(
                (row.chain_root(), None::<Seq<char>>),
            )
            &&& is_free_path(frame, over) && row.owner_id != 0 ==> target(
                frame,
                store,
                over,
                now_ms,
            ) == Ok::<_, RecipeError>((row.owner_id, None::<Seq<char>>))
        }),
{
    let row = store.card(card_id, now_ms)->0;
    law_placed_path_leads_to_its_card(frame, store, path, card_id, now_ms);
    law_word_digits(row.flags);
    reveal_strlit("owner");
    reveal_strlit("parent");
    assert(!"parent"@.contains('.'));
    assert(!"owner"@.contains('.'));
    if is_free_path(frame, path + seq!['.'] + "parent"@) {
        law_one_step_more(frame, store, path, "parent"@, now_ms);
    }
    if is_free_path(frame, path + seq!['.'] + "owner"@) {
        law_one_step_more(frame, store, path, "owner"@, now_ms);
    }
}

/// Where a placed path leads to a path, some placed path is the first of the longest that do.
proof fn lemma_some_longest(placed: Seq<Placed>, path: Seq<char>)
    requires
        exists|j: int| 0 <= j < placed.len() && leads_to((#[trigger] placed[j]).path@, path),
    ensures
        exists|i: int| is_longest(placed, path, i),
    decreases placed.len(),
{
    let front = placed.drop_last();
    let n = placed.len() - 1;
    assert(forall|j: int| 0 <= j < n ==> #[trigger] front[j] == placed[j]);
    if exists|j: int| 0 <= j < n && leads_to((#[trigger] front[j]).path@, path) {
        lemma_some_longest(front, path);
        let i = choose|i: int| is_longest(front, path, i);
        assert(front[i] == placed[i]);
        let best = if leads_to(placed[n].path@, path) && placed[n].path@.len()
            > placed[i].path@.len() {
            n
        } else {
            i
        };
        assert forall|j: int|
            0 <= j < placed.len() && leads_to((#[trigger] placed[j]).path@, path) implies placed[j].path@.len()
            < placed[best].path@.len() || (placed[j].path@.len() == placed[best].path@.len() && best
            <= j) by {
            if j < n {
                assert(front[j] == placed[j]);
            }
        }
        assert(is_longest(placed, path, best));
    } else {
        assert forall|j: int| 0 <= j < placed.len() && leads_to((#[trigger] placed[j]).path@, path)
            implies j == n by {
            if j < n {
                assert(front[j] == placed[j]);
            }
        }
        assert(is_longest(placed, path, n));
    }
}

/// The longest placed prefix of a path is a placed path with its card, a dot, and the rest; no longer
/// placed path is followed by a dot in the path. Where there is none, no placed path is.
pub proof fn law_longest_placed_prefix(frame: Frame, path: Seq<char>, i: int, rest: Seq<char>)
    ensures
        frame.prefix(path) matches Some(found) ==> path == found.0 + seq!['.'] + found.2
            && stands_at(frame, found.0, found.1),
        0 <= i < frame.placed@.len() && path == frame.placed@[i].path@ + seq!['.'] + rest ==> (
        frame.prefix(path) matches Some(found) && frame.placed@[i].path@.len() <= found.0.len()),
{
    let placed = frame.placed@;
    if 0 <= i < placed.len() && path == placed[i].path@ + seq!['.'] + rest {
        let x = placed[i].path@;
        assert(path.take(x.len() as int) =~= x);
        assert(path[x.len() as int] == '.');
        assert(leads_to(placed[i].path@, path));
        lemma_some_longest(placed, path);
    }
    if let Some(found) = frame.prefix(path) {
        let k = choose|k: int| is_longest(placed, path, k);
        assert(is_longest(placed, path, k));
        assert(leads_to(placed[k].path@, path));
        assert(path =~= found.0 + seq!['.'] + found.2) by {
            let x = placed[k].path@;
            assert(path.take(x.len() as int) == x);
            assert forall|j: int| 0 <= j < x.len() implies path[j] == #[trigger] x[j] by {
                assert(path.take(x.len() as int)[j] == x[j]);
            }
        }
        assert forall|j: int| 0 <= j < k implies (#[trigger] placed[j]).path@ != found.0 by {
            if placed[j].path@ == found.0 {
                assert(leads_to(placed[j].path@, path));
            }
        }
        assert(stands_at(frame, found.0, found.1));
    }
}

} // verus!
