//! Which match fires, when, and what a reply makes of it.
use vstd::prelude::*;

use crate::actions::QueuedAction;
use crate::matcher::{MatchView, RecipeMatch};
use crate::queue::{QueueState, Site};

verus! {

use crate::actions::deep;
use crate::matcher::{bound_count, nonzero_count, rank_ge};
use crate::queue::{ahead_gap, best_of, rank_of};
use crate::text::{
    contains_text, decimal, first_at, law_decimal_round_trips, lead_len, leading_number, stands_at,
};

/// The ids that are bound, over all iterators: those that are not zero.
pub open spec fn cards_bound(bindings: Seq<Seq<u32>>) -> Seq<u32> {
    bindings.flatten().filter(|id: u32| id != 0)
}

proof fn lemma_nonzero(ids: Seq<u32>)
    ensures
        nonzero_count(ids) == ids.filter(|id: u32| id != 0).len(),
    decreases ids.len(),
{
    reveal(Seq::filter);
    if ids.len() > 0 {
        lemma_nonzero(ids.drop_last());
    }
}

/// A match binds as many cards as its bindings hold ids other than zero.
pub proof fn law_bound_cards_are_counted(bindings: Seq<Seq<u32>>)
    ensures
        bound_count(bindings) == cards_bound(bindings).len(),
    decreases bindings.len(),
{
    let f = |id: u32| id != 0;
    bindings.lemma_flatten_and_flatten_alt_are_equivalent();
    if bindings.len() == 0 {
        assert(bindings.flatten() =~= Seq::empty());
        reveal(Seq::filter);
    } else {
        let rest = bindings.drop_last();
        law_bound_cards_are_counted(rest);
        rest.lemma_flatten_and_flatten_alt_are_equivalent();
        lemma_nonzero(bindings.last());
        assert(bindings.flatten() =~= rest.flatten() + bindings.last());
        Seq::filter_distributes_over_add(rest.flatten(), bindings.last(), f);
    }
}

/// `k` is the best of `v`: live; no live match has more input lines, and none with as
/// many binds more cards, as far as a machine word counts them; and of equals it is the
/// last.
pub open spec fn wins(v: Seq<MatchView>, k: int) -> bool {
    &&& 0 <= k < v.len()
    &&& v[k].live
    &&& forall|j: int|
        0 <= j < v.len() && (#[trigger] v[j]).live ==> {
            &&& !(v[j].input_count > v[k].input_count)
            &&& v[j].input_count == v[k].input_count && cards_bound(v[j].bindings).len()
                > cards_bound(v[k].bindings).len() ==> cards_bound(v[k].bindings).len()
                >= usize::MAX
            &&& v[j].input_count == v[k].input_count && j > k ==> cards_bound(v[j].bindings).len()
                < cards_bound(v[k].bindings).len()
        }
}

/// One more match at the end: it wins over the winner so far if it is live and ranks as
/// high, or where none was live before.
pub proof fn lemma_winner_of_one_more(v: Seq<MatchView>, k: Option<int>)
    requires
        v.len() > 0,
        k matches Some(i) ==> wins(v.drop_last(), i),
        k is None ==> forall|j: int| 0 <= j < v.len() - 1 ==> !(#[trigger] v[j]).live,
    ensures
        v.last().live && (k matches Some(i) ==> rank_ge(rank_of(v.last()), rank_of(v[i]))) ==> wins(
            v,
            v.len() - 1,
        ),
        k matches Some(i) ==> !(v.last().live && rank_ge(rank_of(v.last()), rank_of(v[i])))
            ==> wins(v, i),
{
    let rest = v.drop_last();
    let last = v.len() - 1;
    assert(v[last] == v.last());
    assert(forall|j: int| 0 <= j < rest.len() ==> rest[j] == #[trigger] v[j]);
    assert forall|j: int| 0 <= j < v.len() implies bound_count((#[trigger] v[j]).bindings)
        == cards_bound(v[j].bindings).len() by {
        law_bound_cards_are_counted(v[j].bindings);
    }
    if let Some(k) = k {
        assert(v[k] == rest[k]);
        if v.last().live && rank_ge(rank_of(v.last()), rank_of(rest[k])) {
            assert forall|j: int| 0 <= j < v.len() && (#[trigger] v[j]).live implies {
                &&& !(v[j].input_count > v[last].input_count)
                &&& v[j].input_count == v[last].input_count && cards_bound(v[j].bindings).len()
                    > cards_bound(v[last].bindings).len() ==> cards_bound(v[last].bindings).len()
                    >= usize::MAX
            } by {
                if j < last {
                    assert(rest[j] == v[j]);
                }
            }
            assert(wins(v, last));
        } else {
            assert forall|j: int| 0 <= j < v.len() && (#[trigger] v[j]).live implies {
                &&& !(v[j].input_count > v[k].input_count)
                &&& v[j].input_count == v[k].input_count && cards_bound(v[j].bindings).len()
                    > cards_bound(v[k].bindings).len() ==> cards_bound(v[k].bindings).len()
                    >= usize::MAX
                &&& v[j].input_count == v[k].input_count && j > k ==> cards_bound(
                    v[j].bindings,
                ).len() < cards_bound(v[k].bindings).len()
            } by {
                if j < last {
                    assert(rest[j] == v[j]);
                }
            }
            assert(wins(v, k));
        }
    }
}

/// A live match is chosen wherever there is one: the one with the most input lines, of
/// those the one that binds the most cards, of those the last.
pub proof fn law_most_specific_match_is_chosen(v: Seq<MatchView>)
    ensures
        best_of(v) is None <==> forall|j: int| 0 <= j < v.len() ==> !(#[trigger] v[j]).live,
        best_of(v) matches Some(b) ==> exists|k: int| #[trigger] wins(v, k) && v[k] == b,
    decreases v.len(),
{
    if v.len() > 0 {
        let rest = v.drop_last();
        law_most_specific_match_is_chosen(rest);
        let last = v.len() - 1;
        assert(v[last] == v.last());
        assert(forall|j: int| 0 <= j < rest.len() ==> rest[j] == #[trigger] v[j]);
        if best_of(rest) is Some {
            let k = choose|k: int| #[trigger] wins(rest, k) && rest[k] == best_of(rest)->0;
            assert(v[k] == rest[k]);
            lemma_winner_of_one_more(v, Some(k));
        } else {
            assert forall|j: int| 0 <= j < last implies !(#[trigger] v[j]).live by {
                assert(rest[j] == v[j]);
            }
            lemma_winner_of_one_more(v, None);
        }
    }
}

/// A new match is queued under its root with everything it says, where and for whom; with
/// at most one input line its window is over at once, with more after five seconds.
pub proof fn law_new_match_is_queued(
    q: QueueState,
    root: u32,
    soul: u32,
    m: MatchView,
    site: Site,
    perf_us: u64,
)
    requires
        q.actions.dom().contains(root as u64) ==> q.actions[root as u64].submit_cid is None && !(
        q.actions[root as u64].recipe == m.recipe && q.actions[root as u64].bindings
            == m.bindings),
    ensures
        ({
            let after = q.evaluated(root, soul, Some(m), Some(site), perf_us);
            let a = after.actions[root as u64];
            &&& after.actions.dom() == q.actions.dom().insert(root as u64)
            &&& after.outcomes == q.outcomes
            &&& a.soul == soul
            &&& a.recipe == m.recipe
            &&& a.root == m.root
            &&& a.bindings == m.bindings
            &&& a.surface == site.surface
            &&& a.macro_zone == site.macro_zone
            &&& a.micro_location == site.micro_location
            &&& a.submit_cid is None
            &&& a.retry_count == 0
            &&& a.scheduled_at == perf_us
            &&& m.input_count <= 1 ==> a.delay_us == 0
            &&& m.input_count > 1 ==> a.delay_us == 5_000_000
        }),
{
    let after = q.evaluated(root, soul, Some(m), Some(site), perf_us);
    assert(after.actions.dom() =~= q.actions.dom().insert(root as u64));
}

/// A match that stands is only moved along with its site.
pub proof fn law_standing_match_moves_along(
    q: QueueState,
    root: u32,
    soul: u32,
    m: MatchView,
    site: Site,
    perf_us: u64,
)
    requires
        q.actions.dom().contains(root as u64),
        q.actions[root as u64].submit_cid is None,
        q.actions[root as u64].recipe == m.recipe,
        q.actions[root as u64].bindings == m.bindings,
    ensures
        ({
            let before = q.actions[root as u64];
            let after = q.evaluated(root, soul, Some(m), Some(site), perf_us);
            let a = after.actions[root as u64];
            &&& after.actions.dom() == q.actions.dom()
            &&& after.outcomes == q.outcomes
            &&& a.surface == site.surface
            &&& a.macro_zone == site.macro_zone
            &&& a.micro_location == site.micro_location
            &&& (a.soul, a.recipe, a.root, a.bindings) == (
                before.soul,
                before.recipe,
                before.root,
                before.bindings,
            )
            &&& (a.scheduled_at, a.delay_us, a.retry_count, a.submit_cid) == (
                before.scheduled_at,
                before.delay_us,
                before.retry_count,
                before.submit_cid,
            )
        }),
{
    let after = q.evaluated(root, soul, Some(m), Some(site), perf_us);
    assert(after.actions.dom() =~= q.actions.dom());
}

/// A root without a match has nothing queued, unless a proposal is out; a match whose place
/// is not known changes nothing; nor does any match while a proposal is out.
pub proof fn law_unmatched_root_is_dropped(
    q: QueueState,
    root: u32,
    soul: u32,
    best: Option<MatchView>,
    site: Option<Site>,
    perf_us: u64,
    other: u64,
)
    ensures
        ({
            let k = root as u64;
            let after = q.evaluated(root, soul, best, site, perf_us);
            let out = q.actions.dom().contains(k) && q.actions[k].submit_cid is Some;
            &&& out ==> after == q
            &&& !out && best is None ==> !after.actions.dom().contains(k)
            &&& best is Some && site is None ==> after == q
            &&& after.outcomes == q.outcomes
            &&& other != k ==> (after.actions.dom().contains(other)
                <==> q.actions.dom().contains(other))
            &&& other != k && q.actions.dom().contains(other) ==> after.actions[other]
                == q.actions[other]
        }),
{
}

/// Dropping what is pending takes away what is queued and not out, for that root alone.
pub proof fn law_pending_is_dropped(q: QueueState, root: u64, other: u64)
    ensures
        q.dropped(root).outcomes == q.outcomes,
        q.dropped(root).actions.dom().contains(root) <==> q.actions.dom().contains(root)
            && q.actions[root].submit_cid is Some,
        other != root ==> (q.dropped(root).actions.dom().contains(other)
            <==> q.actions.dom().contains(other)),
        q.dropped(root).actions.dom().contains(other) ==> q.dropped(root).actions[other]
            == q.actions[other],
{
}

/// What is listed as ready is queued, not out, and its window is over; all of that is
/// listed, in ascending order and once.
pub proof fn law_ready_is_due(q: QueueState, perf_us: u64, roots: Seq<u64>, root: u64)
    requires
        q.is_ready_list(perf_us, roots),
    ensures
        roots.contains(root) <==> q.actions.dom().contains(root)
            && q.actions[root].submit_cid is None && q.actions[root].scheduled_at
            + q.actions[root].delay_us <= perf_us,
        forall|i: int, j: int| 0 <= i < j < roots.len() ==> roots[i] < roots[j],
{
}

/// A proposal that goes out is out under its call's number; nothing else changes.
pub proof fn law_proposal_goes_out(q: QueueState, root: u64, cid: u32, other: u64)
    requires
        q.actions.dom().contains(root),
    ensures
        ({
            let after = q.submitted(root, cid);
            let a = q.actions[root];
            let b = after.actions[root];
            &&& after.actions.dom() == q.actions.dom()
            &&& after.outcomes == q.outcomes
            &&& b.submit_cid == Some(cid)
            &&& (a.soul, a.recipe, a.root, a.bindings) == (b.soul, b.recipe, b.root, b.bindings)
            &&& (a.surface, a.macro_zone, a.micro_location) == (
                b.surface,
                b.macro_zone,
                b.micro_location,
            )
            &&& (a.scheduled_at, a.delay_us, a.retry_count) == (
                b.scheduled_at,
                b.delay_us,
                b.retry_count,
            )
            &&& other != root && q.actions.dom().contains(other) ==> after.actions[other]
                == q.actions[other]
        }),
{
    assert(q.submitted(root, cid).actions.dom() =~= q.actions.dom());
}

/// The one root whose proposal went out as this call.
pub open spec fn went_out_as(q: QueueState, cid: u32, root: u64) -> bool {
    &&& q.actions.dom().contains(root)
    &&& q.actions[root].submit_cid == Some(cid)
    &&& forall|r: u64|
        #![trigger q.actions[r]]
        q.actions.dom().contains(r) && q.actions[r].submit_cid == Some(cid) ==> r == root
}

/// A text holds another at some place.
pub open spec fn holds_text(text: Seq<char>, part: Seq<char>) -> bool {
    exists|before: Seq<char>, after: Seq<char>| text == #[trigger] (before + part + after)
}

proof fn lemma_holds(text: Seq<char>, part: Seq<char>)
    ensures
        contains_text(text, part) <==> holds_text(text, part),
{
    if contains_text(text, part) {
        let i = choose|i: int| stands_at(text, part, i);
        let (a, b) = (text.take(i), text.skip(i + part.len()));
        assert(text =~= a + part + b);
    }
    if holds_text(text, part) {
        let (a, b) = choose|a: Seq<char>, b: Seq<char>| text == #[trigger] (a + part + b);
        assert(text.subrange(a.len() as int, (a.len() + part.len()) as int) =~= part);
        assert(stands_at(text, part, a.len() as int));
    }
}

proof fn lemma_resolved(q: QueueState, cid: u32, root: u64, error: Option<Seq<char>>, perf_us: u64)
    requires
        went_out_as(q, cid, root),
    ensures
        q.resolved(cid, error, perf_us) == q.answered(root, error, perf_us),
{
    assert(q.sent_as(cid, root));
    let r = choose|r: u64| q.sent_as(cid, r);
    assert(q.sent_as(cid, r));
    assert(q.actions[r].submit_cid == Some(cid));
}

/// A reply without error, or that the action is under way already, ends the action well;
/// any other error that does not speak of the clock ends it with that error. The outcome
/// names its recipe, and no other root is touched.
pub proof fn law_reply_ends_action(
    q: QueueState,
    cid: u32,
    root: u64,
    error: Option<Seq<char>>,
    perf_us: u64,
    other: u64,
)
    requires
        went_out_as(q, cid, root),
        error matches Some(e) ==> holds_text(e, "already in flight"@) || !holds_text(
            e,
            "client_ahead_by"@,
        ),
    ensures
        ({
            let after = q.resolved(cid, error, perf_us);
            let well = error is None || holds_text(error->0, "already in flight"@);
            &&& after.actions.dom() == q.actions.dom().remove(root)
            &&& other != root && q.actions.dom().contains(other) ==> after.actions[other]
                == q.actions[other]
            &&& after.outcomes.len() == q.outcomes.len() + 1
            &&& after.outcomes.drop_last() == q.outcomes
            &&& after.outcomes.last().0 == q.actions[root].recipe
            &&& after.outcomes.last().1 is None <==> well
            &&& !well ==> after.outcomes.last().1 == error
        }),
{
    lemma_resolved(q, cid, root, error, perf_us);
    if error is Some {
        lemma_holds(error->0, "already in flight"@);
        lemma_holds(error->0, "client_ahead_by"@);
    }
    let after = q.resolved(cid, error, perf_us);
    assert(after.actions.dom() =~= q.actions.dom().remove(root));
    assert(after.outcomes.drop_last() =~= q.outcomes);
}

/// A reply that the client is ahead of the server's clock by so many milliseconds queues
/// the action again, three times at most, to be ready once those milliseconds and a quarter
/// of a second have gone by; the fourth such reply drops it without an outcome.
pub proof fn law_early_proposal_is_tried_again(
    q: QueueState,
    cid: u32,
    root: u64,
    before: Seq<char>,
    gap_ms: nat,
    after: Seq<char>,
    perf_us: u64,
    other: u64,
)
    requires
        went_out_as(q, cid, root),
        ({
            let e = before + "client_ahead_by="@ + decimal(gap_ms) + after;
            &&& !holds_text(e, "already in flight"@)
            &&& !(exists|i: int|
                0 <= i < before.len() && e.skip(i).take("client_ahead_by="@.len() as int)
                    == "client_ahead_by="@)
        }),
        after.len() > 0 ==> !('0' <= after[0] <= '9'),
        gap_ms * 1000 + 250_000 <= u64::MAX,
    ensures
        ({
            let e = before + "client_ahead_by="@ + decimal(gap_ms) + after;
            let now = q.resolved(cid, Some(e), perf_us);
            let a = q.actions[root];
            let b = now.actions[root];
            &&& now.outcomes == q.outcomes
            &&& other != root ==> (now.actions.dom().contains(other)
                <==> q.actions.dom().contains(other))
            &&& other != root && q.actions.dom().contains(other) ==> now.actions[other]
                == q.actions[other]
            &&& now.actions.dom().contains(root) <==> a.retry_count < 3
            &&& a.retry_count < 3 ==> {
                &&& b.submit_cid is None
                &&& b.retry_count == a.retry_count + 1
                &&& b.scheduled_at == perf_us
                &&& b.delay_us == gap_ms * 1000 + 250_000
                &&& (a.soul, a.recipe, a.root, a.bindings) == (b.soul, b.recipe, b.root, b.bindings)
                &&& (a.surface, a.macro_zone, a.micro_location) == (
                    b.surface,
                    b.macro_zone,
                    b.micro_location,
                )
            }
        }),
{
    let e = before + "client_ahead_by="@ + decimal(gap_ms) + after;
    lemma_resolved(q, cid, root, Some(e), perf_us);
    lemma_holds(e, "already in flight"@);
    lemma_gap(before, gap_ms, after);
}

proof fn lemma_gap(before: Seq<char>, gap_ms: nat, after: Seq<char>)
    requires
        gap_ms <= u64::MAX,
        after.len() > 0 ==> !('0' <= after[0] <= '9'),
        !(exists|i: int|
            0 <= i < before.len() && (before + "client_ahead_by="@ + decimal(gap_ms) + after).skip(
                i,
            ).take("client_ahead_by="@.len() as int) == "client_ahead_by="@),
    ensures
        contains_text(
            before + "client_ahead_by="@ + decimal(gap_ms) + after,
            "client_ahead_by"@,
        ),
        ahead_gap(before + "client_ahead_by="@ + decimal(gap_ms) + after) == gap_ms,
{
    let tag = "client_ahead_by="@;
    let num = decimal(gap_ms);
    let e = before + tag + num + after;
    let n = before.len() as int;
    assert(e.subrange(n, n + tag.len()) =~= tag);
    assert(stands_at(e, tag, n));
    assert(stands_at(e, "client_ahead_by"@, n)) by {
        reveal_strlit("client_ahead_by=");
        reveal_strlit("client_ahead_by");
        assert(e.subrange(n, n + "client_ahead_by"@.len()) =~= "client_ahead_by"@) by {
            assert(tag.take("client_ahead_by"@.len() as int) =~= "client_ahead_by"@);
            assert forall|k: int| 0 <= k < "client_ahead_by"@.len() implies e.subrange(
                n,
                n + "client_ahead_by"@.len(),
            )[k] == "client_ahead_by"@[k] by {
                assert(e[n + k] == tag[k]);
            }
        }
    }
    assert forall|j: int| 0 <= j < n implies !#[trigger] stands_at(e, tag, j) by {
        if stands_at(e, tag, j) {
            assert(e.skip(j).take(tag.len() as int) =~= e.subrange(j, j + tag.len()));
        }
    }
    assert(first_at(e, tag, n));
    let at = choose|i: int| first_at(e, tag, i);
    assert(first_at(e, tag, at));
    assert(at == n) by {
        if at < n {
            assert(stands_at(e, tag, at));
        } else if at > n {
            assert(stands_at(e, tag, n));
        }
    }
    assert(e.skip(n + tag.len()) =~= num + after);
    law_leading_number_is_read(gap_ms, after);
}

/// The number that a text starts with is the one written there.
pub proof fn law_leading_number_is_read(n: nat, rest: Seq<char>)
    requires
        n <= u64::MAX,
        rest.len() > 0 ==> !('0' <= rest[0] <= '9'),
    ensures
        leading_number(decimal(n) + rest) == n,
{
    law_decimal_round_trips(n);
    lemma_decimal_digits(n);
    let d = decimal(n);
    lemma_lead(d, rest);
    assert((d + rest).take(d.len() as int) =~= d);
    assert(d[0] != '+');
}

proof fn lemma_decimal_digits(n: nat)
    ensures
        decimal(n).len() > 0,
        forall|i: int| 0 <= i < decimal(n).len() ==> '0' <= #[trigger] decimal(n)[i] <= '9',
    decreases n,
{
    if n >= 10 {
        lemma_decimal_digits(n / 10);
    }
}

proof fn lemma_lead(d: Seq<char>, rest: Seq<char>)
    requires
        forall|i: int| 0 <= i < d.len() ==> '0' <= #[trigger] d[i] <= '9',
        rest.len() > 0 ==> !('0' <= rest[0] <= '9'),
    ensures
        lead_len(d + rest) == d.len(),
    decreases d.len(),
{
    if d.len() == 0 {
        assert(d + rest =~= rest);
    } else {
        lemma_lead(d.skip(1), rest);
        assert((d + rest).skip(1) =~= d.skip(1) + rest);
        assert((d + rest)[0] == d[0]);
    }
}

/// A reply to a call that was no proposal changes nothing.
pub proof fn law_other_replies_are_ignored(
    q: QueueState,
    cid: u32,
    error: Option<Seq<char>>,
    perf_us: u64,
)
    requires
        forall|r: u64|
            #![trigger q.actions[r]]
            q.actions.dom().contains(r) ==> q.actions[r].submit_cid != Some(cid),
    ensures
        q.resolved(cid, error, perf_us) == q,
{
    if exists|root: u64| q.sent_as(cid, root) {
        let r = choose|r: u64| q.sent_as(cid, r);
        assert(q.actions[r].submit_cid == Some(cid));
    }
}

/// The priority of a match is its input lines, then the cards it binds, as far as a machine
/// word counts them.
pub proof fn law_priority_counts_lines_then_cards(m: RecipeMatch)
    ensures
        m.rank().0 == m.input_count,
        cards_bound(deep(m.bindings@)).len() <= usize::MAX ==> m.rank().1 == cards_bound(
            deep(m.bindings@),
        ).len(),
        cards_bound(deep(m.bindings@)).len() > usize::MAX ==> m.rank().1 == usize::MAX,
{
    law_bound_cards_are_counted(deep(m.bindings@));
}

/// A queued action is ready exactly where no proposal of it is out and its window, counted
/// from when it was scheduled, is over.
pub proof fn law_ready_once_the_window_is_over(a: QueuedAction, perf_us: u64)
    ensures
        a.is_ready(perf_us) <==> a.submit_cid is None && a.scheduled_at + a.delay_us <= perf_us,
{
}

/// A queued action is that of a match exactly where recipe and bindings are the same.
pub proof fn law_same_action_has_recipe_and_bindings(
    a: QueuedAction,
    recipe: Seq<char>,
    bindings: Seq<Seq<u32>>,
)
    ensures
        a.is_same(recipe, bindings) <==> a@.recipe == recipe && a@.bindings == bindings,
{
}

} // verus!
