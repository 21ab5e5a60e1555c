//! What the client sends on its own account, and what it makes of what it hears.
use vstd::prelude::*;

use crate::codec::Codec;
use crate::matcher::{Frame, Subject};
use crate::queue::Site;
use crate::rows::{CardRow, Micro, RegionRow, RowOp, ZoneRow};
use crate::moves::Write;
use crate::realm::Known;
use crate::wire::{Command, GateMsg, RowData};
use crate::world::World;
use crate::zones::{Anchor, AnchorRadii, DataType};

verus! {

use crate::client::{clock_events, errors_in, kicked_roots, still_to_come, ClientState};
use crate::laws::contents::law_first_recipe_counts;
use crate::laws::firing::{law_most_specific_match_is_chosen, law_ready_is_due, wins};
use crate::laws::moving::{
    commits_rows, is_row_at, law_commit_carries_current_places, law_current_row_is_the_latest_due,
    law_plans_are_carried_out_in_order, law_watched_moves_are_committed_at_once,
    law_written_place_is_committed,
};
use crate::laws::tiers::{law_anchor_is_set, lemma_named_is_in};
use crate::moves::{cleared, move_call, places, root_in, row_in, Board, MovesState, Rows};
use crate::needs::{replied, Reply};
use crate::pulse::PulseState;
use crate::queue::{best_of, QueueState};
use crate::realm::{lemma_listing, lists_set, RealmState};
use crate::text::{decimal, law_decimal_round_trips};
use crate::wire::{text_of, CallView, EventView, MsgView};
use crate::world::Cards;
use crate::zones::named;

/// The recipe of that name has that id, and no recipe before it has that name.
pub open spec fn is_recipe_id<C: Codec>(s: ClientState<C>, recipe: Seq<char>, id: u16) -> bool {
    s.content matches Some(content) && exists|i: int|
        0 <= i < content.recipes().len() && (#[trigger] content.recipes()[i]).name@ == recipe
            && content.recipes()[i].id == id && forall|j: int|
            0 <= j < i ==> (#[trigger] content.recipes()[j]).name@ != recipe
}

/// The recipe is known.
pub open spec fn knows_recipe<C: Codec>(s: ClientState<C>, recipe: Seq<char>) -> bool {
    s.content matches Some(content) && exists|i: int|
        0 <= i < content.recipes().len() && (#[trigger] content.recipes()[i]).name@ == recipe
}

/// A recipe can be proposed exactly where content is loaded that knows it; what is said
/// otherwise tells the two cases apart.
pub proof fn law_only_known_recipes_are_proposed<C: Codec>(s: ClientState<C>, recipe: Seq<char>)
    ensures
        s.propose_error(recipe) is None <==> knows_recipe(s, recipe),
        s.content is None ==> s.propose_error(recipe)->0.text(recipe)
            == "propose: content bundle not loaded"@,
        s.content is Some && !knows_recipe(s, recipe) ==> s.propose_error(recipe)->0.text(recipe)
            == "propose: unknown recipe "@ + crate::text::quoted(recipe),
{
    if let Some(content) = s.content {
        law_first_recipe_counts(content.recipes(), recipe);
    }
}

/// The message proposes the recipe with that root and those bindings, at that cell, in the
/// name of the player and at the present time.
pub open spec fn proposes<C: Codec>(
    s: ClientState<C>,
    m: MsgView,
    cid: u32,
    recipe: Seq<char>,
    root: u32,
    bindings: Seq<Seq<u32>>,
    site: Site,
) -> bool {
    m matches MsgView::Call { cid: c, call } && c == cid && (call matches CallView::ProposeAction {
        recipe_id,
        surface,
        macro_zone,
        micro_location,
        root: r,
        bindings: b,
        caller_player_id,
        client_time_ms,
    } && is_recipe_id(s, recipe, recipe_id) && surface == site.surface && macro_zone
        == site.macro_zone && micro_location == site.micro_location && r == root && b == bindings
        && client_time_ms == s.pulse.ms && caller_player_id == match s.player_id {
        Some(id) => id,
        None => 0,
    })
}

/// A proposal goes out behind the commit of what is dirty, under the next number, and says
/// what is proposed.
pub proof fn law_proposal_says_what_is_proposed<C: Codec>(
    s: ClientState<C>,
    recipe: Seq<char>,
    root: u32,
    bindings: Seq<Seq<u32>>,
    site: Site,
)
    requires
        knows_recipe(s, recipe),
    ensures
        ({
            let (flushed, first) = s.flushed();
            let (after, out) = s.proposed(recipe, root, bindings, site);
            &&& out.len() == first.len() + 1
            &&& out.drop_last() == first
            &&& proposes(s, out.last(), flushed.pulse.next_cid, recipe, root, bindings, site)
            &&& (after.world, after.queue, after.realm, after.moves) == (
                flushed.world,
                flushed.queue,
                flushed.realm,
                flushed.moves,
            )
        }),
{
    let content = s.content->0;
    law_first_recipe_counts(content.recipes(), recipe);
    let (flushed, first) = s.flushed();
    let (after, out) = s.proposed(recipe, root, bindings, site);
    assert(out.drop_last() =~= first);
    let id = crate::content::recipe_id_in(content.recipes(), recipe)->0;
    assert(is_recipe_id(s, recipe, id));
}

/// A ready action is proposed if a live match with the same recipe and the same bindings is
/// there once more and the recipe is known: for its own root, bindings and cell, and it
/// counts as out under the number of the call. Otherwise it is dropped and nothing is sent.
pub proof fn law_ready_actions_are_proposed_if_they_stand<
    C: Codec,
    J: Fn(&Frame) -> bool,
    S: Fn(&String, &Subject) -> bool,
>(s: ClientState<C>, judge: J, shows: S, root: u64, other: u64)
    requires
        s.queue.actions.dom().contains(root),
        other != root,
    ensures
        ({
            let a = s.queue.actions[root];
            let v = s.matches_for(judge, shows, a.soul, root as u32, true);
            let stands = exists|i: int|
                0 <= i < v.len() && (#[trigger] v[i]).live && v[i].recipe == a.recipe
                    && v[i].bindings == a.bindings;
            let after = s.fired(judge, shows, root);
            let cid = s.flushed().0.pulse.next_cid;
            let first = s.flushed().1;
            let site = Site {
                surface: a.surface,
                macro_zone: a.macro_zone,
                micro_location: a.micro_location,
            };
            &&& stands && knows_recipe(s, a.recipe) ==> {
                &&& after.realm.out.len() == s.realm.out.len() + first.len() + 1
                &&& after.realm.out.drop_last() == s.realm.out + first
                &&& proposes(s, after.realm.out.last(), cid, a.recipe, a.root, a.bindings, site)
                &&& after.queue.actions.dom() == s.queue.actions.dom()
                &&& after.queue.actions[root].submit_cid == Some(cid)
                &&& after.queue.actions[root].recipe == a.recipe
            }
            &&& !(stands && knows_recipe(s, a.recipe)) ==> {
                &&& after.realm == s.realm
                &&& after.moves == s.moves
                &&& after.pulse == s.pulse
                &&& after.queue.actions.dom() == s.queue.actions.dom().remove(root)
            }
            &&& s.queue.actions.dom().contains(other) ==> after.queue.actions[other]
                == s.queue.actions[other]
            &&& after.queue.outcomes == s.queue.outcomes
            &&& after.world == s.world
        }),
{
    let a = s.queue.actions[root];
    let after = s.fired(judge, shows, root);
    law_only_known_recipes_are_proposed(s, a.recipe);
    let v = s.matches_for(judge, shows, a.soul, root as u32, true);
    let stands = exists|i: int|
        0 <= i < v.len() && (#[trigger] v[i]).live && v[i].recipe == a.recipe && v[i].bindings
            == a.bindings;
    if stands && knows_recipe(s, a.recipe) {
        let site = Site {
            surface: a.surface,
            macro_zone: a.macro_zone,
            micro_location: a.micro_location,
        };
        law_proposal_says_what_is_proposed(s, a.recipe, a.root, a.bindings, site);
        let (p, out) = s.proposed(a.recipe, a.root, a.bindings, site);
        assert(after.realm.out == s.realm.out + out);
        assert(after.realm.out.drop_last() =~= s.realm.out + out.drop_last());
        assert(after.realm.out.last() == out.last());
        assert(after.queue.actions.dom() =~= s.queue.actions.dom());
    } else {
        assert(after.queue.actions.dom() =~= s.queue.actions.dom().remove(root));
    }
}

/// A row whose time has come marks the root of its card's stack, which is the card itself
/// where it lies loose; rows still to come mark nothing, and go on waiting in their order.
pub proof fn law_due_rows_mark_their_roots(
    rows: Rows,
    roots: Set<u64>,
    promotions: Seq<(u64, u32)>,
    now: u64,
    k: u64,
)
    ensures
        kicked_roots(rows, roots, promotions, now).contains(k) <==> roots.contains(k)
            || exists|i: int|
            0 <= i < promotions.len() && (#[trigger] promotions[i]).0 <= now && is_root_of(
                rows,
                promotions[i].1,
                now,
                k,
            ),
        still_to_come(promotions, now) == promotions.filter(|p: (u64, u32)| p.0 > now),
    decreases promotions.len(),
{
    reveal(Seq::filter);
    if promotions.len() > 0 {
        let rest = promotions.drop_last();
        let n = promotions.len() - 1;
        law_due_rows_mark_their_roots(rows, roots, rest, now, k);
        assert(promotions[n] == promotions.last());
        assert(forall|i: int| 0 <= i < n ==> #[trigger] rest[i] == promotions[i]);
        assert(forall|i: int| 0 <= i < n ==> rest[i] == #[trigger] promotions[i]);
        lemma_root(rows, promotions.last().1, now, k);
        if exists|i: int|
            0 <= i < promotions.len() && (#[trigger] promotions[i]).0 <= now && is_root_of(
                rows,
                promotions[i].1,
                now,
                k,
            ) {
            let i = choose|i: int|
                0 <= i < promotions.len() && (#[trigger] promotions[i]).0 <= now && is_root_of(
                    rows,
                    promotions[i].1,
                    now,
                    k,
                );
            if i < n {
                assert(rest[i] == promotions[i]);
            }
        }
    }
}

/// `k` is the root of the card's stack at `now`.
pub open spec fn is_root_of(rows: Rows, id: u32, now: u64, k: u64) -> bool {
    exists|row: CardRow| #[trigger]
        is_row_at(rows, id, now, row) && match row.micro {
            Micro::Stacked { root, .. } => k == root as u64,
            Micro::Loose { .. } => k == id as u64,
        }
}

proof fn lemma_root(rows: Rows, id: u32, now: u64, k: u64)
    ensures
        (root_in(rows, id, now) matches Some(r) && r as u64 == k) <==> is_root_of(rows, id, now, k),
{
    if row_in(rows, id, now) is Some {
        law_current_row_is_the_latest_due(rows, id, now, row_in(rows, id, now)->0);
    }
    if is_root_of(rows, id, now, k) {
        let row = choose|row: CardRow| #[trigger]
            is_row_at(rows, id, now, row) && match row.micro {
                Micro::Stacked { root, .. } => k == root as u64,
                Micro::Loose { .. } => k == id as u64,
            };
        law_current_row_is_the_latest_due(rows, id, now, row);
    }
}

/// A tick first lets the time pass and marks what has come due.
pub proof fn law_tick_marks_what_came_due<C: Codec>(s: ClientState<C>, perf_us: u64, k: u64)
    ensures
        ({
            let after = s.kicked(perf_us);
            &&& after.pulse == s.pulse.ticked(perf_us)
            &&& after.roots.contains(k) <==> s.roots.contains(k) || exists|i: int|
                0 <= i < s.promotions.len() && (#[trigger] s.promotions[i]).0 <= after.pulse.ms
                    && is_root_of(s.world.cards@, s.promotions[i].1, after.pulse.ms, k)
            &&& after.promotions == s.promotions.filter(
                |p: (u64, u32)| p.0 > after.pulse.ms,
            )
            &&& (after.world, after.realm, after.queue, after.moves) == (
                s.world,
                s.realm,
                s.queue,
                s.moves,
            )
        }),
{
    let after = s.kicked(perf_us);
    law_due_rows_mark_their_roots(s.world.cards@, s.roots, s.promotions, after.pulse.ms, k);
}

/// Marked roots are matched again once a second has gone by since the last time, all of
/// them, and none is marked then; before that nothing happens.
pub proof fn law_marked_roots_are_matched_once_a_second<
    C: Codec,
    J: Fn(&Frame) -> bool,
    S: Fn(&String, &Subject) -> bool,
>(s: ClientState<C>, judge: J, shows: S, ids: Seq<u32>, r: u32, other: u64)
    requires
        lists_set(ids, s.roots),
        !s.roots.contains(other),
        s.roots.contains(r as u64),
    ensures
        ({
            let after = s.identified(judge, shows);
            let is_time = s.pulse.perf >= s.last_match + 1_000_000;
            let one = s.rematched(s.queue, judge, shows, r);
            let k = r as u64;
            &&& !is_time ==> after == s
            &&& is_time ==> {
                &&& after.last_match == s.pulse.perf
                &&& after.roots == Set::<u64>::empty()
                &&& after.queue.outcomes == s.queue.outcomes
                &&& after.queue.actions.dom().contains(other) <==> s.queue.actions.dom().contains(
                    other,
                )
                &&& s.queue.actions.dom().contains(other) ==> after.queue.actions[other]
                    == s.queue.actions[other]
                &&& after.queue.actions.dom().contains(k) <==> one.actions.dom().contains(k)
                &&& one.actions.dom().contains(k) ==> after.queue.actions[k] == one.actions[k]
            }
            &&& (after.world, after.realm, after.pulse, after.moves) == (
                s.world,
                s.realm,
                s.pulse,
                s.moves,
            )
        }),
{
    lemma_listing(ids, s.roots);
    lemma_rematched(s, judge, shows, ids, r, other);
    assert(ids.contains(r)) by {
        assert((r as u64) as u32 == r);
        assert(s.roots.contains(r as u64) <==> ids.contains((r as u64) as u32));
    }
    if ids.contains(other as u32) && other <= u32::MAX {
        assert(s.roots.contains(other));
    }
}

proof fn lemma_rematched<C: Codec, J: Fn(&Frame) -> bool, S: Fn(&String, &Subject) -> bool>(
    s: ClientState<C>,
    judge: J,
    shows: S,
    ids: Seq<u32>,
    r: u32,
    other: u64,
)
    requires
        forall|a: int, b: int| 0 <= a < b < ids.len() ==> #[trigger] ids[a] < #[trigger] ids[b],
        other > u32::MAX || !ids.contains(other as u32),
    ensures
        ({
            let q = s.rematched_all(judge, shows, ids);
            let one = s.rematched(s.queue, judge, shows, r);
            let k = r as u64;
            &&& q.outcomes == s.queue.outcomes
            &&& q.actions.dom().contains(other) <==> s.queue.actions.dom().contains(other)
            &&& s.queue.actions.dom().contains(other) ==> q.actions[other]
                == s.queue.actions[other]
            &&& ids.contains(r) ==> (q.actions.dom().contains(k) <==> one.actions.dom().contains(k))
            &&& ids.contains(r) && one.actions.dom().contains(k) ==> q.actions[k] == one.actions[k]
            &&& !ids.contains(r) ==> (q.actions.dom().contains(k)
                <==> s.queue.actions.dom().contains(k))
            &&& !ids.contains(r) && s.queue.actions.dom().contains(k) ==> q.actions[k]
                == s.queue.actions[k]
        }),
    decreases ids.len(),
{
    if ids.len() > 0 {
        let rest = ids.drop_last();
        let last = ids.last();
        let n = ids.len() - 1;
        assert(ids[n] == last);
        assert(ids.contains(last));
        assert(forall|i: int| 0 <= i < n ==> #[trigger] rest[i] == ids[i]);
        if other <= u32::MAX && rest.contains(other as u32) {
            let i = rest.index_of(other as u32);
            assert(ids[i] == other as u32);
        }
        assert(!rest.contains(last)) by {
            if rest.contains(last) {
                let i = rest.index_of(last);
                assert(ids[i] < ids[n]);
            }
        }
        if ids.contains(r) && r != last {
            let i = ids.index_of(r);
            assert(rest[i] == r);
        }
        if rest.contains(r) {
            let i = rest.index_of(r);
            assert(ids[i] == r);
        }
        lemma_rematched(s, judge, shows, rest, r, other);
        let before = s.rematched_all(judge, shows, rest);
        lemma_rematch_is_local(s, before, judge, shows, last, other);
        if r == last {
            lemma_rematch_depends_on_its_root(s, before, judge, shows, r);
        } else {
            lemma_rematch_is_local(s, before, judge, shows, last, r as u64);
        }
    }
}

proof fn lemma_rematch_is_local<C: Codec, J: Fn(&Frame) -> bool, S: Fn(&String, &Subject) -> bool>(
    s: ClientState<C>,
    q: QueueState,
    judge: J,
    shows: S,
    root: u32,
    other: u64,
)
    requires
        other != root as u64,
    ensures
        ({
            let after = s.rematched(q, judge, shows, root);
            &&& after.outcomes == q.outcomes
            &&& after.actions.dom().contains(other) <==> q.actions.dom().contains(other)
            &&& q.actions.dom().contains(other) ==> after.actions[other] == q.actions[other]
        }),
{
}

proof fn lemma_rematch_depends_on_its_root<
    C: Codec,
    J: Fn(&Frame) -> bool,
    S: Fn(&String, &Subject) -> bool,
>(s: ClientState<C>, q: QueueState, judge: J, shows: S, root: u32)
    requires
        q.actions.dom().contains(root as u64) <==> s.queue.actions.dom().contains(root as u64),
        s.queue.actions.dom().contains(root as u64) ==> q.actions[root as u64]
            == s.queue.actions[root as u64],
    ensures
        ({
            let a = s.rematched(q, judge, shows, root);
            let b = s.rematched(s.queue, judge, shows, root);
            let k = root as u64;
            &&& a.actions.dom().contains(k) <==> b.actions.dom().contains(k)
            &&& b.actions.dom().contains(k) ==> a.actions[k] == b.actions[k]
        }),
{
}

/// A root is matched as the soul that acts on it knows it, and the most specific live match
/// is queued at the root's own cell; where no soul of ours acts on it, or nothing live
/// matches, what is pending for it is dropped.
pub proof fn law_roots_are_matched_by_their_actor<
    C: Codec,
    J: Fn(&Frame) -> bool,
    S: Fn(&String, &Subject) -> bool,
>(s: ClientState<C>, judge: J, shows: S, root: u32, row: CardRow)
    requires
        is_row_at(s.world.cards@, root, s.pulse.ms, row),
        !(s.queue.actions.dom().contains(root as u64)
            && s.queue.actions[root as u64].submit_cid is Some),
    ensures
        ({
            let k = root as u64;
            let after = s.rematched(s.queue, judge, shows, root);
            let actor = s.realm.actor(s.world.cards, root, s.pulse.ms);
            &&& actor is None ==> !after.actions.dom().contains(k)
            &&& actor matches Some(soul) ==> {
                let v = s.matches_for(judge, shows, soul, root, true);
                let live = exists|i: int| 0 <= i < v.len() && (#[trigger] v[i]).live;
                &&& !live ==> !after.actions.dom().contains(k)
                &&& live ==> after.actions.dom().contains(k) && exists|i: int| #[trigger]
                    wins(v, i) && after.actions[k].recipe == v[i].recipe
                        && after.actions[k].bindings == v[i].bindings && after.actions[k].surface
                        == row.surface && after.actions[k].macro_zone == row.macro_zone
                        && after.actions[k].micro_location == row.micro_location && (
                    !s.queue.actions.dom().contains(k) ==> after.actions[k].soul == soul
                        && after.actions[k].root == v[i].root && after.actions[k].scheduled_at
                        == s.pulse.perf)
            }
        }),
{
    law_current_row_is_the_latest_due(s.world.cards@, root, s.pulse.ms, row);
    if let Some(soul) = s.realm.actor(s.world.cards, root, s.pulse.ms) {
        let v = s.matches_for(judge, shows, soul, root, true);
        law_most_specific_match_is_chosen(v);
        if best_of(v) is Some {
            let i = choose|i: int| #[trigger] wins(v, i) && v[i] == best_of(v)->0;
            assert(v[i].live);
        }
    }
}

/// Matching looks at the world through the eyes of a soul, now, and finds nothing without
/// content.
pub proof fn law_matching_is_what_the_scene_holds<
    C: Codec,
    J: Fn(&Frame) -> bool,
    S: Fn(&String, &Subject) -> bool,
>(s: &ClientState<C>, judge: J, shows: S, soul: u32, root: u32, use_filter: bool)
    ensures
        s.content is None ==> s.matches_for(judge, shows, soul, root, use_filter).len() == 0,
        s.content matches Some(content) ==> s.matches_for(judge, shows, soul, root, use_filter) == (
        crate::matcher::Scene {
            world: &s.world,
            zones: &s.realm.zones,
            content: &content,
            soul,
            now: s.pulse.ms,
        }).matches(judge, shows, root, use_filter),
{
}

/// The soul that acts on a root is the lowest of ours that sees its zone as it is now; where
/// none does, the first of ours up the chain of its owners.
pub proof fn law_present_souls_act_first<C: Codec>(
    s: RealmState<C>,
    cards: Cards,
    root: u32,
    now: u64,
    soul: u32,
)
    requires
        cards.at(root, now) is Some,
    ensures
        ({
            let zone = cards.at(root, now)->0.macro_zone;
            let sees = s.souls.dom().contains(soul as u64) && s.zones.card_view(soul, zone, now)
                == Some(now);
            let first = sees && forall|x: u32| #[trigger]
                s.souls.dom().contains(x as u64) && s.zones.card_view(x, zone, now) == Some(now)
                    ==> soul <= x;
            let none = forall|x: u32|
                !((#[trigger] s.souls.dom().contains(x as u64)) && s.zones.card_view(x, zone, now)
                    == Some(now));
            &&& first ==> s.actor(cards, root, now) == Some(soul)
            &&& none ==> s.actor(cards, root, now) == s.soul_above(cards, root, now, 32)
        }),
{
    let zone = cards.at(root, now)->0.macro_zone;
    if s.first_present(zone, now, soul) {
        let x = choose|x: u32| s.first_present(zone, now, x);
        assert(s.first_present(zone, now, x));
        assert(s.souls.dom().contains(x as u64));
        assert(s.souls.dom().contains(soul as u64));
        assert(x == soul);
    }
    if exists|x: u32| s.first_present(zone, now, x) {
        let x = choose|x: u32| s.first_present(zone, now, x);
        assert(s.souls.dom().contains(x as u64));
    }
}

/// Up the chain of owners: a soul of ours is its own; any other card is its owner's, unless
/// it has none or owns itself, or is not known.
pub proof fn law_owners_are_followed_upwards<C: Codec>(
    s: RealmState<C>,
    cards: Cards,
    id: u32,
    now: u64,
    steps: nat,
)
    requires
        steps > 0,
    ensures
        ({
            let above = s.soul_above(cards, id, now, steps);
            let ours = s.souls.dom().contains(id as u64);
            let row = cards.at(id, now);
            &&& ours ==> above == Some(id)
            &&& !ours && row is None ==> above is None
            &&& !ours && row is Some && (row->0.owner_id == 0 || row->0.owner_id == id)
                ==> above is None
            &&& !ours && row is Some && row->0.owner_id != 0 && row->0.owner_id != id ==> above
                == s.soul_above(cards, row->0.owner_id, now, (steps - 1) as nat)
            &&& s.soul_above(cards, id, now, 0) is None
        }),
{
}

/// A card row that lands is stored under its card and stamp, and one that is deleted is
/// gone; every other version stays. The card's root is to be matched again, and a row that
/// is still to come is waited for, unless it was deleted. An update counts for its zone.
pub proof fn law_landed_card_is_in_the_world<C: Codec>(
    s: ClientState<C>,
    after: ClientState<C>,
    op: RowOp,
    row: CardRow,
    k: u64,
)
    requires
        after.card_landed(s, op, row),
    ensures
        ({
            let id = row.card_id as u64;
            let due = row.valid_at / 0x1_0000;
            &&& op != RowOp::Delete ==> {
                &&& after.world.cards@.dom().contains(id)
                &&& after.world.cards@[id].dom().contains(row.valid_at)
                &&& after.world.cards@[id][row.valid_at] == row
                &&& after.roots.contains(k) <==> s.roots.contains(k) || is_root_of(
                    after.world.cards@,
                    row.card_id,
                    s.pulse.ms,
                    k,
                )
                &&& due > s.pulse.ms ==> after.promotions == s.promotions.push((due, row.card_id))
                &&& due <= s.pulse.ms ==> after.promotions == s.promotions
            }
            &&& op == RowOp::Delete ==> {
                &&& !(after.world.cards@.dom().contains(id) && after.world.cards@[id].dom().contains(
                    row.valid_at,
                ))
                &&& after.roots == s.roots
                &&& after.promotions == s.promotions
                &&& after.realm.zones.updated_from(
                    &s.realm.zones,
                    row.macro_zone,
                    DataType::Card,
                    s.pulse.ms,
                )
            }
            &&& k != id ==> (after.world.cards@.dom().contains(k)
                <==> s.world.cards@.dom().contains(k))
            &&& k != id && s.world.cards@.dom().contains(k) ==> after.world.cards@[k]
                == s.world.cards@[k]
            &&& after.world.zones == s.world.zones
            &&& (after.pulse, after.queue, after.moves, after.asks) == (
                s.pulse,
                s.queue,
                s.moves,
                s.asks,
            )
        }),
{
    lemma_root(after.world.cards@, row.card_id, s.pulse.ms, k);
}

/// A zone row that lands is stored under its zone and stamp, and one that is deleted is
/// gone; it counts as an update of the zone's tiles.
pub proof fn law_landed_zone_is_in_the_world<C: Codec>(
    s: ClientState<C>,
    after: ClientState<C>,
    op: RowOp,
    row: ZoneRow,
)
    requires
        after.zone_landed(s, op, row),
    ensures
        op != RowOp::Delete ==> after.world.zones@.dom().contains(row.macro_zone)
            && after.world.zones@[row.macro_zone].dom().contains(row.valid_at)
            && after.world.zones@[row.macro_zone][row.valid_at] == row,
        op == RowOp::Delete ==> !(after.world.zones@.dom().contains(row.macro_zone)
            && after.world.zones@[row.macro_zone].dom().contains(row.valid_at)),
        after.world.cards == s.world.cards,
        after.realm.zones.updated_from(
            &s.realm.zones,
            row.macro_zone,
            DataType::Zone,
            s.pulse.ms,
        ),
{
}

/// What a region row says of its zones is known from then on, and forgotten when it goes.
pub proof fn law_landed_region_is_known<C: Codec>(
    s: ClientState<C>,
    after: ClientState<C>,
    op: RowOp,
    row: RegionRow,
)
    requires
        after.region_landed(s, op, row),
    ensures
        after.realm.zones.bits().dom().contains(row.macro_region) <==> op != RowOp::Delete,
        op != RowOp::Delete ==> after.realm.zones.bits()[row.macro_region].presence
            == row.zone_presence && after.realm.zones.bits()[row.macro_region].available
            == row.zone_available && after.realm.zones.bits()[row.macro_region].distance
            == row.distance,
        after.world == s.world,
        after.realm.zones.subs() == s.realm.zones.subs(),
{
}

/// Our own row in the players' table tells who we are, once; then the roster of our player
/// souls is subscribed: the cards that we own with a definition from 0xFFF0 up. The rows of
/// others, and what is known already, change nothing.
pub proof fn law_we_learn_who_we_are<C: Codec>(
    s: ClientState<C>,
    name: Option<Seq<char>>,
    id: Option<u32>,
)
    ensures
        ({
            let after = s.introduced(name, id);
            let ours = name is Some && id is Some && s.name == name;
            &&& ours ==> after.player_id == id
            &&& ours && s.player_id != id && s.realm.links.next_sid < u32::MAX ==> {
                &&& after.realm.out.drop_last() == s.realm.out
                &&& after.realm.out.last() == (MsgView::Sub {
                    sid: s.realm.links.next_sid,
                    table: "cards"@,
                    filter: Some(
                        "owner_id = "@ + decimal(id->0 as nat) + (" AND packed_definition >= "@
                            + decimal(0xFFF0)),
                    ),
                })
                &&& after.realm.links.next_sid == s.realm.links.next_sid + 1
            }
            &&& !(ours && s.player_id != id) ==> after == s
            &&& after.world == s.world
        }),
{
    let after = s.introduced(name, id);
    if s.learns(name, id) {
        assert(after.realm.out.drop_last() =~= s.realm.out);
    }
}

/// When a second client starts to watch a zone, the dirty cards that stand in it are
/// committed as they are; else nothing is sent. How many watch is kept either way.
pub proof fn law_company_commits_the_zone<C: Codec>(
    s: ClientState<C>,
    after: ClientState<C>,
    zone: u64,
    observers: u32,
)
    requires
        after.watched(s, zone, observers),
    ensures
        after.moves.watched == s.moves.heard(zone, observers).watched,
        after.world == s.world,
        !(observers >= 2 && !(s.moves.watched.dom().contains(zone) && s.moves.watched[zone] >= 2))
            ==> after.realm == s.realm && after.moves.dirty == s.moves.dirty && after.pulse
            == s.pulse,
        observers >= 2 && !(s.moves.watched.dom().contains(zone) && s.moves.watched[zone] >= 2)
            ==> exists|ids: Seq<u32>|
            #![trigger s.committed(ids)]
            {
                &&& forall|id: u32| #[trigger]
                    ids.contains(id) <==> s.moves.dirty.contains(id as u64)
                        && is_in_zone(s.world.cards@, id, s.pulse.ms, zone)
                &&& after.realm.out == s.realm.out + s.committed(ids).1
                &&& after.moves.dirty == s.committed(ids).0.moves.dirty
            },
{
    if s.moves.watchers(zone) <= 1 && observers > 1 {
        let t = ClientState { moves: s.moves.heard(zone, observers), ..s };
        let ids = choose|ids: Seq<u32>|
            {
                &&& #[trigger] s.moves.is_dirty_list(s.world.cards@, zone, s.pulse.ms, ids)
                &&& after == t.committed(ids).0.queued_out(t.committed(ids).1)
            };
        assert forall|id: u32| #[trigger] ids.contains(id) <==> s.moves.dirty.contains(id as u64)
            && is_in_zone(s.world.cards@, id, s.pulse.ms, zone) by {
            if row_in(s.world.cards@, id, s.pulse.ms) is Some {
                law_current_row_is_the_latest_due(
                    s.world.cards@,
                    id,
                    s.pulse.ms,
                    row_in(s.world.cards@, id, s.pulse.ms)->0,
                );
            }
            if is_in_zone(s.world.cards@, id, s.pulse.ms, zone) {
                let row = choose|row: CardRow| #[trigger]
                    is_row_at(s.world.cards@, id, s.pulse.ms, row) && row.macro_zone == zone;
                law_current_row_is_the_latest_due(s.world.cards@, id, s.pulse.ms, row);
            }
        }
        assert(s.committed(ids).1 == t.committed(ids).1);
    }
}

/// The card's row at `now` is in the zone.
pub open spec fn is_in_zone(rows: Rows, id: u32, now: u64, zone: u64) -> bool {
    exists|row: CardRow| #[trigger] is_row_at(rows, id, now, row) && row.macro_zone == zone
}

/// A login watches our row in the players' table and claims the name; the two frames carry
/// the next numbers. A card is minted as asked, a table subscribed as asked, and any other
/// call passed on as it is.
pub proof fn law_commands_become_frames<C: Codec>(
    s: ClientState<C>,
    after: ClientState<C>,
    cmd: Command,
    out: Seq<MsgView>,
)
    requires
        after.dispatched(s, cmd, out),
        s.pulse.next_cid < u32::MAX,
        s.realm.links.next_sid < u32::MAX,
    ensures
        cmd matches Command::Login { name } ==> {
            &&& out.len() == 2
            &&& out[0] == (MsgView::Sub {
                sid: s.realm.links.next_sid,
                table: "players"@,
                filter: Some("name = '"@ + name@ + "'"@),
            })
            &&& out[1] == (MsgView::Call {
                cid: s.pulse.next_cid,
                call: CallView::ClaimOrLogin { client_time_ms: s.pulse.ms, name: name@ },
            })
            &&& after.name == Some(name@)
            &&& after.pulse.next_cid == s.pulse.next_cid + 1
            &&& after.realm.links.next_sid == s.realm.links.next_sid + 1
        },
        cmd matches Command::CreateCard { owner, card_key, surface, macro_zone, q, r } ==> {
            &&& out.len() == 1
            &&& out[0] == (MsgView::Call {
                cid: s.pulse.next_cid,
                call: CallView::CreateCard {
                    client_time_ms: s.pulse.ms,
                    owner_id: owner,
                    surface,
                    card_key: card_key@,
                    macro_zone,
                    q,
                    r,
                },
            })
            &&& after.pulse.next_cid == s.pulse.next_cid + 1
        },
        cmd matches Command::Subscribe { table, filter } ==> {
            &&& out.len() == 1
            &&& out[0] matches MsgView::Sub { sid, table: t, filter: f } && sid
                == s.realm.links.next_sid && t == table@ && f == text_of(filter)
            &&& after.realm.links.next_sid == s.realm.links.next_sid + 1
        },
        cmd matches Command::Call { reducer, args } ==> {
            &&& out.len() == 1
            &&& out[0] == (MsgView::Call {
                cid: s.pulse.next_cid,
                call: CallView::Raw { reducer: reducer@, args },
            })
            &&& after.pulse.next_cid == s.pulse.next_cid + 1
        },
        after.world == s.world,
        after.queue == s.queue,
{
}

/// A frame's errors are kept, in their order, behind those that were there.
pub proof fn law_errors_are_kept(out: Seq<EventView>, e: Seq<char>)
    ensures
        errors_in(out).contains(e) <==> out.contains(EventView::Error { error: e }),
        errors_in(out).len() == out.filter(|x: EventView| x is Error).len(),
    decreases out.len(),
{
    reveal(Seq::filter);
    if out.len() > 0 {
        let rest = out.drop_last();
        law_errors_are_kept(rest, e);
        let x = EventView::Error { error: e };
        assert(out[out.len() - 1] == out.last());
        assert(out.contains(x) <==> rest.contains(x) || out.last() == x) by {
            if rest.contains(x) {
                let k = rest.index_of(x);
                assert(out[k] == x);
            }
            if out.contains(x) && out.last() != x {
                let k = out.index_of(x);
                assert(rest[k] == x);
            }
        }
        let before = errors_in(rest);
        let all = errors_in(out);
        if before.contains(e) {
            let k = before.index_of(e);
            assert(all[k] == e);
        }
        if all.contains(e) {
            let k = all.index_of(e);
            if k < before.len() {
                assert(before[k] == e);
            }
        }
        if out.last() == x {
            assert(all[before.len() as int] == e);
        }
    }
}

/// What a frame is told as: an acknowledgement by its number, an error by its text, the
/// answer to a call by its number, and with its error where it has one; a clock sample where
/// the server's time is a number; and a frame changes the world only where it brings a row.
pub proof fn law_frames_are_told<C: Codec>(
    s: ClientState<C>,
    after: ClientState<C>,
    msg: GateMsg,
    out: Seq<EventView>,
)
    requires
        after.applied(s, msg, out),
    ensures
        msg matches GateMsg::Applied { sid } ==> out == seq![EventView::Applied { sid }],
        msg matches GateMsg::Error { error } ==> out == seq![EventView::Error { error: error@ }]
            && after.errors == s.errors.push(error@),
        msg matches GateMsg::CallOk { cid, .. } ==> out.last() == (EventView::CallOk { cid })
            && after.queue == s.queue.resolved(cid, None, s.pulse.perf),
        msg matches GateMsg::CallErr { cid, error, .. } ==> out.last() == (EventView::CallErr {
            cid,
            error: error@,
        }) && after.queue == s.queue.resolved(cid, Some(error@), s.pulse.perf),
        msg matches GateMsg::CallPromise { .. } ==> out.len() == 0 && after.queue == s.queue,
        msg matches GateMsg::ContentChanged { .. } ==> out.len() == 0 && after.queue == s.queue,
        !(msg is Row) ==> after.world == s.world,
{
    let mid = choose|mid: ClientState<C>| #[trigger]
        mid.folded(s, msg, out) && after == (ClientState {
            errors: mid.errors + errors_in(out),
            ..mid
        });
    reveal_with_fuel(errors_in, 3);
    match msg {
        GateMsg::Error { error } => {
            assert(out.drop_last() =~= Seq::empty());
            assert(errors_in(out) =~= seq![error@]);
            assert(after.errors =~= s.errors.push(error@));
        },
        GateMsg::Applied { .. } => {
            assert(after.world == s.world);
        },
        GateMsg::ZoneObservers { macro_zone, observers } => {
            assert(mid.world == s.world);
        },
        _ => {},
    }
}

/// A placement plan is carried out on the local rows, and what it moved is dirty. Where one
/// of the moved cards is a soul or a container, or others watch its zone, all of them are
/// committed at once, as their rows then are, behind what waits to be sent; else nothing is
/// sent.
pub proof fn law_plans_move_cards_and_commit_where_they_are_seen<C: Codec>(
    s: ClientState<C>,
    after: ClientState<C>,
    plan: Seq<Write>,
)
    requires
        after.placed(s, plan),
    ensures
        ({
            let b = (Board {
                rows: s.world.cards@,
                dirty: s.moves.dirty,
                seq: s.moves.seq,
                roots: s.roots,
                moved: Seq::empty(),
            }).planned(plan, s.pulse.ms, s.pmask);
            let known = Known {
                world: &after.world,
                content: &s.content,
                me: s.player_id,
                now: s.pulse.ms,
            };
            let at_once = s.moves.must_sync(&known, b.moved);
            let caller: u32 = match s.player_id {
                Some(id) => id,
                None => 0,
            };
            &&& after.world.cards@ == b.rows
            &&& after.world.zones == s.world.zones
            &&& after.roots == b.roots
            &&& after.moves.seq == b.seq
            &&& after.moves.watched == s.moves.watched
            &&& !at_once ==> after.moves.dirty == b.dirty && after.realm == s.realm && after.pulse
                == s.pulse
            &&& at_once ==> after.moves.dirty == cleared(b.dirty, b.moved)
            &&& at_once ==> s.realm.out.is_prefix_of(after.realm.out)
            &&& at_once && after.realm.out.len() > s.realm.out.len() ==> after.realm.out.len()
                == s.realm.out.len() + 1 && (after.realm.out.last() matches MsgView::Call {
                cid,
                call,
            } && cid == s.pulse.next_cid && commits_rows(call, b.rows, caller, s.pulse.ms, s.pmask)
                && call->card_ids == b.moved.filter(
                |id: u32| exists|row: CardRow| is_row_at(b.rows, id, s.pulse.ms, row),
            ))
            &&& after.queue == s.queue
        }),
{
    let b = (Board {
        rows: s.world.cards@,
        dirty: s.moves.dirty,
        seq: s.moves.seq,
        roots: s.roots,
        moved: Seq::empty(),
    }).planned(plan, s.pulse.ms, s.pmask);
    let world = choose|world: World|
        {
            let t = ClientState {
                world,
                moves: MovesState { dirty: b.dirty, seq: b.seq, ..s.moves },
                roots: b.roots,
                ..s
            };
            &&& #[trigger] world.cards@ == b.rows
            &&& world == World { cards: world.cards, ..s.world }
            &&& after == if t.moves.must_sync(&t.known(), b.moved) {
                t.committed(b.moved).0.queued_out(t.committed(b.moved).1)
            } else {
                t
            }
        };
    let t = ClientState {
        world,
        moves: MovesState { dirty: b.dirty, seq: b.seq, ..s.moves },
        roots: b.roots,
        ..s
    };
    assert(after.world == world);
    let known = Known {
        world: &after.world,
        content: &s.content,
        me: s.player_id,
        now: s.pulse.ms,
    };
    law_watched_moves_are_committed_at_once(t.moves, &known, b.moved);
    law_watched_moves_are_committed_at_once(s.moves, &known, b.moved);
    assert(t.known() == known);
    if s.moves.must_sync(&known, b.moved) {
        law_commit_carries_current_places(b.rows, b.moved, t.caller(), s.pulse.ms, s.pmask);
        let out = t.committed(b.moved).1;
        assert(after.realm.out == s.realm.out + out);
    }
}

/// Actions that are ready fire one after the other.
pub proof fn law_ready_actions_fire_in_turn<
    C: Codec,
    J: Fn(&Frame) -> bool,
    S: Fn(&String, &Subject) -> bool,
>(s: ClientState<C>, judge: J, shows: S, first: Seq<u64>, root: u64)
    ensures
        s.fired_all(judge, shows, Seq::empty()) == s,
        s.fired_all(judge, shows, first.push(root)) == s.fired_all(judge, shows, first).fired(
            judge,
            shows,
            root,
        ),
{
    assert(first.push(root).drop_last() =~= first);
}

/// A tick lets the time pass and marks what came due, matches what is marked if it is time,
/// and then fires everything whose window is over.
pub proof fn law_tick_fires_everything_due<
    C: Codec,
    J: Fn(&Frame) -> bool,
    S: Fn(&String, &Subject) -> bool,
>(s: ClientState<C>, after: ClientState<C>, perf_us: u64, judge: J, shows: S)
    requires
        after.ticked(s, perf_us, judge, shows),
    ensures
        exists|roots: Seq<u64>|
            #![trigger s.kicked(perf_us).identified(judge, shows).fired_all(judge, shows, roots)]
            {
                let mid = s.kicked(perf_us).identified(judge, shows);
                &&& after == mid.fired_all(judge, shows, roots)
                &&& forall|i: int, j: int| 0 <= i < j < roots.len() ==> roots[i] < roots[j]
                &&& forall|r: u64| #[trigger]
                    roots.contains(r) <==> mid.queue.actions.dom().contains(r)
                        && mid.queue.actions[r].submit_cid is None
                        && mid.queue.actions[r].scheduled_at + mid.queue.actions[r].delay_us
                        <= perf_us
            },
{
    let mid = s.kicked(perf_us).identified(judge, shows);
    let roots = choose|roots: Seq<u64>| #[trigger]
        mid.queue.is_ready_list(perf_us, roots) && after == mid.fired_all(judge, shows, roots);
    assert forall|r: u64| #[trigger] roots.contains(r) <==> mid.queue.actions.dom().contains(r)
        && mid.queue.actions[r].submit_cid is None && mid.queue.actions[r].scheduled_at
        + mid.queue.actions[r].delay_us <= perf_us by {
        law_ready_is_due(mid.queue, perf_us, roots, r);
    }
    assert(after == mid.fired_all(judge, shows, roots));
}

/// Rows are told by what they are of: a card that came or went, a zone that came, who we are
/// where that is news; and a row that cannot be read as an error of its table.
pub proof fn law_rows_are_told<C: Codec>(
    s: ClientState<C>,
    after: ClientState<C>,
    op: RowOp,
    row: RowData,
    out: Seq<EventView>,
)
    requires
        after.row_applied(s, op, row, out),
    ensures
        row matches RowData::Card(card) ==> out.len() == 1 && (op == RowOp::Delete ==> out[0] == (
        EventView::CardRemoved { card_id: card.card_id })) && (op != RowOp::Delete ==> out[0] == (
        EventView::CardUpserted { card_id: card.card_id })) && after.card_landed(s, op, card),
        row matches RowData::Zone(zone) ==> out.len() == 1 && out[0] == (EventView::ZoneUpserted {
            macro_zone: zone.macro_zone,
        }) && after.zone_landed(s, op, zone),
        row matches RowData::Region(region) ==> out.len() == 0 && after.region_landed(
            s,
            op,
            region,
        ),
        row matches RowData::Player { name, player_id } ==> {
            let news = name is Some && player_id is Some && s.name == text_of(name) && s.player_id
                != player_id;
            &&& news ==> out.len() == 1 && out[0] == (EventView::PlayerId { id: player_id->0 })
            &&& !news ==> out.len() == 0
        },
        row matches RowData::Undecodable { table, error } ==> out.len() == 1 && out[0] == (
        EventView::Error { error: table@ + " row decode: "@ + error@ }) && after == s,
        row is Other ==> out.len() == 0 && after == s,
{
}

/// Zone subscriptions go out before the calls for what zones need, and both behind what was
/// waiting.
pub proof fn law_zone_frames_go_out_in_order<C: Codec>(
    s: ClientState<C>,
    after: ClientState<C>,
    out: Seq<MsgView>,
)
    requires
        after.framed(s, out),
    ensures
        s.realm.links.frames(s.realm.zones.pending()).is_prefix_of(out),
        after.realm.links == s.realm.links.after_all(s.realm.zones.pending()),
        after.realm.zones.pending().len() == 0,
        after.realm.zones.subs() == s.realm.zones.subs(),
        after.realm.zones.tiers() == s.realm.zones.tiers(),
        after.realm.out == s.realm.out,
        after.world == s.world,
        after.queue == s.queue,
        after.moves == s.moves,
{
}

/// An anchor that is set by command stands at the tile given, for no soul, and what follows
/// from it goes out.
pub proof fn law_anchors_are_set_by_command<C: Codec>(
    s: ClientState<C>,
    after: ClientState<C>,
    name: String,
    surface: u8,
    owner: u32,
    q: i32,
    r: i32,
    radii: AnchorRadii,
    out: Seq<MsgView>,
)
    requires
        after.dispatched(s, Command::SetAnchor { name, surface, owner, q, r, radii }, out),
    ensures
        after.realm.zones.anchors().contains(
            (name@, (Anchor { q, r, surface, owner, radii, soul: 0 })),
        ),
{
    let a = Anchor { q, r, surface, owner, radii, soul: 0 };
    let realm = choose|realm: RealmState<C>|
        {
            &&& realm == RealmState { zones: realm.zones, ..s.realm }
            &&& #[trigger] realm.zones.anchored_from(&s.realm.zones, name@, a, s.pulse.ms)
            &&& after.framed((ClientState { realm, ..s }), out)
        };
    if named(s.realm.zones.anchors(), name@) == Some(a) {
        lemma_named_is_in(s.realm.zones.anchors(), name@);
    } else {
        law_anchor_is_set(s.realm.zones.anchors(), name@, a, name@, a);
    }
}

/// The answer to a call is a clock sample and settles the call: done, or failed and to be
/// tried again, or waited for as many milliseconds as promised. A failure for clock drift
/// re-seats the clock before it is sampled. The server's time alone is a sample and nothing
/// more.
pub proof fn law_answers_set_the_clock_and_settle_calls<C: Codec>(
    s: ClientState<C>,
    after: ClientState<C>,
    msg: GateMsg,
    out: Seq<EventView>,
)
    requires
        after.applied(s, msg, out),
    ensures
        msg matches GateMsg::Time { server_micros } ==> after.pulse == s.pulse.sampled(
            server_micros@,
        ) && after.queue == s.queue && after.asks == s.asks,
        msg matches GateMsg::CallOk { cid, server_micros } ==> after.pulse == s.pulse.sampled(
            server_micros@,
        ).answered(cid) && replied(s.asks, after.asks, cid, Reply::Done, s.pulse.perf),
        msg matches GateMsg::CallErr { cid, error, server_micros } ==> after.pulse
            == s.pulse.drifted(cid, error@).sampled(server_micros@).answered(cid) && replied(
            s.asks,
            after.asks,
            cid,
            Reply::Failed,
            s.pulse.perf,
        ),
        msg matches GateMsg::CallPromise { cid, timeout_ms } ==> after.pulse == s.pulse && (
        timeout_ms * 1000 <= u64::MAX ==> replied(
            s.asks,
            after.asks,
            cid,
            Reply::Promise { timeout_us: (timeout_ms * 1000) as u64 },
            s.pulse.perf,
        )),
        !(msg is Time) && !(msg is CallOk) && !(msg is CallErr) && !(msg is ZoneObservers)
            ==> after.pulse == s.pulse,
{
    let mid = choose|mid: ClientState<C>| #[trigger]
        mid.folded(s, msg, out) && after == (ClientState {
            errors: mid.errors + errors_in(out),
            ..mid
        });
    match msg {
        GateMsg::Row { op, row } => {
            assert(mid.pulse == s.pulse);
        },
        _ => {},
    }
}

/// A clock sample is told with the time that the clock then tells, if it was a number.
pub proof fn law_samples_are_told(p: PulseState, us: u64)
    ensures
        clock_events(p, decimal(us as nat)) == seq![
            EventView::Clock { ms: p.clock.sampled(us, p.perf).now_ms(p.perf) },
        ],
{
    law_decimal_round_trips(us as nat);
}

/// A place that is applied and then committed is the place applied: whether the move is
/// committed at once or by the flush that follows, the one frame that goes out names the
/// card, with the zone, the cell and the masked flags that were applied. (A row of the same
/// millisecond that is stamped later is committed in its stead.)
pub proof fn law_applied_place_is_committed<C: Codec>(
    s: ClientState<C>,
    after: ClientState<C>,
    w: Write,
    ids: Seq<u32>,
)
    requires
        after.placed(s, seq![w]),
        s.pulse.ms < 0x1_0000_0000_0000,
        exists|row: CardRow| is_row_at(s.world.cards@, w.card_id, s.pulse.ms, row),
        forall|k: u64|
            s.world.cards@.dom().contains(w.card_id as u64)
                && #[trigger] s.world.cards@[w.card_id as u64].dom().contains(k) && k / 0x1_0000
                <= s.pulse.ms ==> k <= s.pulse.ms * 0x1_0000 + s.moves.seq,
        lists_set(ids, after.moves.dirty),
    ensures
        ({
            let n = s.realm.out.len() as int;
            let out = if after.realm.out.len() > n {
                after.realm.out.skip(n)
            } else {
                after.flushed().1
            };
            &&& out.len() == 1
            &&& out[0] matches MsgView::Call { call, .. } && call is MoveCards
                && call->card_ids.contains(w.card_id) && forall|i: int|
                0 <= i < call->card_ids.len() && #[trigger] call->card_ids[i] == w.card_id ==> {
                    &&& call->macro_zones[i] == w.to.macro_zone
                    &&& call->micro_locations[i] == w.to.micro_location
                    &&& call->stack_states[i] == (w.to.flags & s.pmask) as u8
                }
        }),
{
    law_plans_move_cards_and_commit_where_they_are_seen(s, after, seq![w]);
    let board = Board {
        rows: s.world.cards@,
        dirty: s.moves.dirty,
        seq: s.moves.seq,
        roots: s.roots,
        moved: Seq::empty(),
    };
    let b = board.planned(seq![w], s.pulse.ms, s.pmask);
    law_plans_are_carried_out_in_order(board, Seq::empty(), w, s.pulse.ms, s.pmask);
    assert(Seq::<Write>::empty().push(w) =~= seq![w]);
    assert(b == board.written(w, s.pulse.ms, s.pmask));
    let row = choose|row: CardRow| is_row_at(s.world.cards@, w.card_id, s.pulse.ms, row);
    law_current_row_is_the_latest_due(s.world.cards@, w.card_id, s.pulse.ms, row);
    assert(b.moved =~= seq![w.card_id]);
    assert(b.moved[0] == w.card_id);
    let caller: u32 = match s.player_id {
        Some(id) => id,
        None => 0,
    };
    let n = s.realm.out.len() as int;
    law_written_place_is_committed(board, w, b.moved, caller, s.pulse.ms, s.pmask);
    let world = choose|world: World|
        {
            let t = ClientState {
                world,
                moves: MovesState { dirty: b.dirty, seq: b.seq, ..s.moves },
                roots: b.roots,
                ..s
            };
            &&& #[trigger] world.cards@ == b.rows
            &&& world == World { cards: world.cards, ..s.world }
            &&& after == if t.moves.must_sync(&t.known(), b.moved) {
                t.committed(b.moved).0.queued_out(t.committed(b.moved).1)
            } else {
                t
            }
        };
    let t = ClientState {
        world,
        moves: MovesState { dirty: b.dirty, seq: b.seq, ..s.moves },
        roots: b.roots,
        ..s
    };
    if t.moves.must_sync(&t.known(), b.moved) {
        let moved = places(b.rows, b.moved, s.pulse.ms, s.pmask);
        let call = move_call(moved, caller, s.pulse.ms);
        assert(call->card_ids.len() == moved.len());
        assert(moved.len() > 0);
        let out = t.committed(b.moved).1;
        assert(after.realm.out == s.realm.out + out);
        assert(after.realm.out.skip(n) =~= out);
        assert(out[0] == (MsgView::Call { cid: s.pulse.next_cid, call }));
    } else {
        assert(after == t);
        lemma_listing(ids, after.moves.dirty);
        assert(ids.contains(w.card_id)) by {
            assert(after.moves.dirty.contains(w.card_id as u64));
            assert((w.card_id as u64) as u32 == w.card_id);
        }
        law_written_place_is_committed(board, w, ids, caller, s.pulse.ms, s.pmask);
        let moved = places(b.rows, ids, s.pulse.ms, s.pmask);
        let call = move_call(moved, caller, s.pulse.ms);
        assert(call->card_ids.len() == moved.len());
        assert(moved.len() > 0);
        let out = after.flushed().1;
        assert(out[0] == (MsgView::Call { cid: s.pulse.next_cid, call }));
    }
}

} // verus!
