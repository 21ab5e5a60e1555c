//! The queue of matched recipes, one per chain root.
//!
//! A match waits out its debounce window; an unchanged match keeps its timer, a
//! different one restarts it, and a match that is gone is dropped. A proposal in
//! flight is left alone until its reply.
use vstd::prelude::*;

use crate::actions::{
    QueuedAction, DEFAULT_DELAY_US, MAX_TIME_DRIFT_RETRIES, TIME_DRIFT_RETRY_PAD_US,
};
use crate::matcher::RecipeMatch;
use crate::ordmap::OrdMap;
use crate::pulse::thousand_times;
use crate::text::{chars_of, find_text, read_leading};

verus! {

use crate::actions::ActionView;
use crate::laws::firing::{lemma_winner_of_one_more, wins};
use crate::matcher::{bound_count, capped, match_views, rank_ge, MatchView};
use crate::ordmap::ascending;
use crate::outbox::later;
use crate::pulse::times;
use crate::text::{contains_text, first_at, leading_number};

/// The cell an action takes place in.
#[derive(Debug, Clone, Copy, PartialEq, Eq, Structural)]
pub struct Site {
    pub surface: u8,
    pub macro_zone: u64,
    pub micro_location: u32,
}

/// How specific a match is.
pub open spec fn rank_of(m: MatchView) -> (usize, usize) {
    (m.input_count, capped(bound_count(m.bindings)))
}

/// The most specific live match; of several the last.
pub open spec fn best_of(v: Seq<MatchView>) -> Option<MatchView>
    decreases v.len(),
{
    if v.len() == 0 {
        None
    } else {
        let best = best_of(v.drop_last());
        let m = v.last();
        if !m.live {
            best
        } else {
            match best {
                Some(b) => if rank_ge(rank_of(m), rank_of(b)) {
                    Some(m)
                } else {
                    best
                },
                None => Some(m),
            }
        }
    }
}

/// The index of the most specific live match; of several the last.
pub fn best_live(v: &Vec<RecipeMatch>) -> (best: Option<usize>)
    ensures
        best is None <==> best_of(match_views(v@)) is None,
        best matches Some(i) ==> i < v@.len() && best_of(match_views(v@)) == Some(v@[i as int]@),
        best is None <==> forall|j: int| 0 <= j < v@.len() ==> !(#[trigger] v@[j]).live,
        best matches Some(i) ==> wins(match_views(v@), i as int),
{
    let ghost all = match_views(v@);
    let n: usize = v.len();
    let mut best: Option<usize> = None;
    let mut top: (usize, usize) = (0, 0);
    let mut i: usize = 0;
    assert(all.take(0) =~= Seq::empty());
    while i < n
        invariant
            n == v@.len(),
            i <= n,
            all == match_views(v@),
            best is None <==> best_of(all.take(i as int)) is None,
            best matches Some(b) ==> b < i && best_of(all.take(i as int)) == Some(v@[b as int]@)
                && top == rank_of(v@[b as int]@),
            best is None <==> forall|j: int| 0 <= j < i ==> !(#[trigger] v@[j]).live,
            best matches Some(b) ==> wins(all.take(i as int), b as int),
        decreases n - i,
    {
        proof {
            assert(all.take(i + 1).drop_last() =~= all.take(i as int));
            assert(all.take(i + 1).last() == v@[i as int]@);
            assert(forall|j: int| 0 <= j < i ==> (#[trigger] all.take(i + 1)[j]) == v@[j]@);
            assert(best matches Some(b) ==> all.take(i + 1)[b as int] == v@[b as int]@);
            lemma_winner_of_one_more(
                all.take(i + 1),
                match best {
                    Some(b) => Some(b as int),
                    None => None,
                },
            );
        }
        if v[i].live {
            let rank: (usize, usize) = v[i].priority();
            assert(rank == rank_of(v@[i as int]@));
            let better: bool = match best {
                Some(_) => rank.0 > top.0 || (rank.0 == top.0 && rank.1 >= top.1),
                None => true,
            };
            if better {
                best = Some(i);
                top = rank;
            }
        }
        i = i + 1;
    }
    assert(all.take(n as int) =~= all);
    best
}

/// The match still stands: a live one with the same recipe and bindings.
pub open spec fn still_stands(v: Seq<MatchView>, recipe: Seq<char>, bindings: Seq<Seq<u32>>) -> bool {
    exists|i: int|
        0 <= i < v.len() && (#[trigger] v[i]).live && v[i].recipe == recipe && v[i].bindings
            == bindings
}

/// Whether a queued action is still matched.
pub fn stands(v: &Vec<RecipeMatch>, a: &QueuedAction) -> (b: bool)
    ensures
        b == still_stands(match_views(v@), a@.recipe, a@.bindings),
{
    let n: usize = v.len();
    let mut i: usize = 0;
    while i < n
        invariant
            n == v@.len(),
            i <= n,
            forall|j: int|
                0 <= j < i ==> !((#[trigger] match_views(v@)[j]).live && match_views(v@)[j].recipe
                    == a@.recipe && match_views(v@)[j].bindings == a@.bindings),
        decreases n - i,
    {
        assert(match_views(v@)[i as int] == v@[i as int]@);
        if v[i].live && a.same_as(v[i].recipe.as_str(), &v[i].bindings) {
            return true;
        }
        i = i + 1;
    }
    false
}

/// The debounce window of a match: a recipe with one input line fires at once.
pub open spec fn window(m: MatchView) -> u64 {
    if m.input_count <= 1 {
        0
    } else {
        DEFAULT_DELAY_US
    }
}

/// The gap that a drift rejection reports, in milliseconds.
pub open spec fn ahead_gap(error: Seq<char>) -> u64 {
    let tag = "client_ahead_by="@;
    if contains_text(error, tag) {
        let at = choose|i: int| first_at(error, tag, i);
        leading_number(error.skip(at + tag.len()))
    } else {
        0
    }
}

/// Read the gap that a drift rejection reports.
pub fn read_gap(error: &str) -> (gap_ms: u64)
    ensures
        gap_ms == ahead_gap(error@),
{
    let chars = chars_of(error);
    let tag = chars_of("client_ahead_by=");
    match find_text(&chars, &tag) {
        Some(at) => {
            proof {
                let c = choose|i: int| first_at(error@, tag@, i);
                assert(first_at(error@, tag@, at as int));
                assert(first_at(error@, tag@, c));
                assert(c == at) by {
                    if c < at {
                        assert(!crate::text::stands_at(error@, tag@, c));
                    }
                    if at < c {
                        assert(!crate::text::stands_at(error@, tag@, at as int));
                    }
                }
            }
            let len: usize = chars.len();
            assert(at + tag@.len() <= len);
            read_leading(&chars, at + tag.len())
        },
        None => 0,
    }
}

/// Whether a text holds another.
pub fn mentions(text: &str, part: &str) -> (b: bool)
    ensures
        b == contains_text(text@, part@),
{
    let chars = chars_of(text);
    let needle = chars_of(part);
    find_text(&chars, &needle).is_some()
}

/// The queue, as values.
#[verifier::ext_equal]
pub ghost struct QueueState {
    /// Queued actions by chain root.
    pub actions: Map<u64, ActionView>,
    /// How fired actions ended: accepted, or dropped for a reason.
    pub outcomes: Seq<(Seq<char>, Option<Seq<char>>)>,
}

impl QueueState {
    /// A proposal for the root is in flight.
    pub open spec fn in_flight(self, root: u64) -> bool {
        self.actions.dom().contains(root) && self.actions[root].submit_cid is Some
    }

    /// The queue without what is queued for a root and not in flight.
    pub open spec fn dropped(self, root: u64) -> QueueState {
        if self.in_flight(root) {
            self
        } else {
            QueueState { actions: self.actions.remove(root), ..self }
        }
    }

    /// The queue after a root was matched anew.
    pub open spec fn evaluated(
        self,
        root: u32,
        soul: u32,
        best: Option<MatchView>,
        site: Option<Site>,
        perf_us: u64,
    ) -> QueueState {
        let k = root as u64;
        if self.in_flight(k) {
            self
        } else {
            match (best, site) {
                (None, _) => self.dropped(k),
                (Some(_), None) => self,
                (Some(m), Some(s)) => QueueState {
                    actions: self.actions.insert(
                        k,
                        if self.actions.dom().contains(k) && self.actions[k].recipe == m.recipe
                            && self.actions[k].bindings == m.bindings {
                            ActionView {
                                surface: s.surface,
                                macro_zone: s.macro_zone,
                                micro_location: s.micro_location,
                                ..self.actions[k]
                            }
                        } else {
                            ActionView {
                                soul,
                                recipe: m.recipe,
                                root: m.root,
                                bindings: m.bindings,
                                surface: s.surface,
                                macro_zone: s.macro_zone,
                                micro_location: s.micro_location,
                                scheduled_at: perf_us,
                                delay_us: window(m),
                                retry_count: 0,
                                submit_cid: None,
                            }
                        },
                    ),
                    ..self
                },
            }
        }
    }

    /// `root` is the first whose proposal went out as this call.
    pub open spec fn sent_as(self, cid: u32, root: u64) -> bool {
        &&& self.actions.dom().contains(root)
        &&& self.actions[root].submit_cid == Some(cid)
        &&& forall|r: u64| #[trigger]
            self.actions.dom().contains(r) && self.actions[r].submit_cid == Some(cid) ==> root <= r
    }

    /// The queue after an action ended.
    pub open spec fn ended(self, root: u64, reason: Option<Seq<char>>) -> QueueState {
        QueueState {
            actions: self.actions.remove(root),
            outcomes: self.outcomes.push((self.actions[root].recipe, reason)),
        }
    }

    /// The queue after the reply to a proposal: accepted or already under way, it
    /// ends well; ahead of the server's clock, it is scheduled again, a few times;
    /// otherwise it is dropped.
    pub open spec fn answered(self, root: u64, error: Option<Seq<char>>, perf_us: u64) -> QueueState {
        match error {
            None => self.ended(root, None),
            Some(e) => if contains_text(e, "already in flight"@) {
                self.ended(root, None)
            } else if contains_text(e, "client_ahead_by"@) {
                let a = self.actions[root];
                QueueState {
                    actions: if a.retry_count < MAX_TIME_DRIFT_RETRIES {
                        self.actions.insert(
                            root,
                            ActionView {
                                retry_count: (a.retry_count + 1) as u32,
                                delay_us: later(times(ahead_gap(e), 1000), TIME_DRIFT_RETRY_PAD_US),
                                scheduled_at: perf_us,
                                submit_cid: None,
                                ..a
                            },
                        )
                    } else {
                        self.actions.remove(root)
                    },
                    ..self
                }
            } else {
                self.ended(root, Some(e))
            },
        }
    }

    /// The queue after the reply to a call; a call that was no proposal changes
    /// nothing.
    pub open spec fn resolved(self, cid: u32, error: Option<Seq<char>>, perf_us: u64) -> QueueState {
        if exists|root: u64| self.sent_as(cid, root) {
            self.answered(choose|root: u64| self.sent_as(cid, root), error, perf_us)
        } else {
            self
        }
    }

    /// `roots` lists the roots whose action is ready, ascending.
    pub open spec fn is_ready_list(self, perf_us: u64, roots: Seq<u64>) -> bool {
        &&& ascending(roots)
        &&& forall|r: u64| #[trigger]
            roots.contains(r) <==> self.actions.dom().contains(r) && self.actions[r].ready(perf_us)
    }

    /// The queue with a proposal of the root's action in flight.
    pub open spec fn submitted(self, root: u64, cid: u32) -> QueueState {
        QueueState {
            actions: if self.actions.dom().contains(root) {
                self.actions.insert(
                    root,
                    ActionView { submit_cid: Some(cid), ..self.actions[root] },
                )
            } else {
                self.actions
            },
            ..self
        }
    }
}

/// Outcomes, as values.
pub open spec fn ends(v: Seq<(String, Option<String>)>) -> Seq<(Seq<char>, Option<Seq<char>>)> {
    v.map_values(|o: (String, Option<String>)| (o.0@, crate::wire::text_of(o.1)))
}

/// Matched recipes waiting, and how fired ones ended.
pub struct Queue {
    actions: OrdMap<QueuedAction>,
    outcomes: Vec<(String, Option<String>)>,
}

impl View for Queue {
    type V = QueueState;

    closed spec fn view(&self) -> QueueState {
        QueueState {
            actions: self.actions@.map_values(|a: QueuedAction| a@),
            outcomes: ends(self.outcomes@),
        }
    }
}

impl Queue {
    pub closed spec fn wf(&self) -> bool {
        &&& self.actions.wf()
        &&& forall|k: u64| #[trigger] self.actions@.dom().contains(k) ==> k <= u32::MAX
    }

    pub fn new() -> (q: Self)
        ensures
            q.wf(),
            q@ == (QueueState { actions: Map::empty(), outcomes: Seq::empty() }),
    {
        let q = Queue { actions: OrdMap::new(), outcomes: Vec::new() };
        assert(q@.actions =~= Map::empty());
        assert(q@.outcomes =~= Seq::empty());
        q
    }

    /// What is queued: root, recipe, and whether it is in flight; by ascending root.
    pub fn queued(&self) -> (out: Vec<(u32, String, bool)>)
        requires
            self.wf(),
        ensures
            forall|a: int, b: int|
                0 <= a < b < out@.len() ==> (#[trigger] out@[a]).0 < (#[trigger] out@[b]).0,
            forall|i: int|
                0 <= i < out@.len() ==> self@.actions.dom().contains((#[trigger] out@[i]).0 as u64)
                    && out@[i].1@ == self@.actions[out@[i].0 as u64].recipe && out@[i].2
                    == self@.in_flight(out@[i].0 as u64),
            forall|k: u64| #[trigger]
                self@.actions.dom().contains(k) ==> exists|i: int|
                    0 <= i < out@.len() && (#[trigger] out@[i]).0 as u64 == k,
    {
        proof {
            self.actions.lemma_ks();
        }
        let ghost ks = self.actions.ks();
        let n: usize = self.actions.len();
        let mut out: Vec<(u32, String, bool)> = Vec::new();
        let mut i: usize = 0;
        while i < n
            invariant
                self.wf(),
                ks == self.actions.ks(),
                n == ks.len(),
                i <= n,
                out@.len() == i,
                ascending(ks),
                forall|k: u64| #[trigger] self.actions@.dom().contains(k) <==> ks.contains(k),
                forall|j: int|
                    0 <= j < i ==> (#[trigger] out@[j]).0 as u64 == ks[j] && out@[j].1@
                        == self.actions@[ks[j]].recipe@ && out@[j].2
                        == self.actions@[ks[j]].submit_cid is Some,
            decreases n - i,
        {
            let k: u64 = self.actions.key_at(i);
            assert(ks.contains(k));
            assert(self.actions@.dom().contains(k));
            let a = self.actions.val_at(i);
            out.push((k as u32, a.recipe.clone(), a.submit_cid.is_some()));
            i = i + 1;
        }
        proof {
            assert forall|j: int| 0 <= j < out@.len() implies self@.actions.dom().contains(
                (#[trigger] out@[j]).0 as u64,
            ) && out@[j].1@ == self@.actions[out@[j].0 as u64].recipe && out@[j].2
                == self@.in_flight(out@[j].0 as u64) by {
                assert(ks.contains(ks[j]));
                assert(self.actions@.dom().contains(ks[j]));
            }
            assert forall|a: int, b: int| 0 <= a < b < out@.len() implies (#[trigger] out@[a]).0
                < (#[trigger] out@[b]).0 by {
                assert(ks[a] < ks[b]);
            }
            assert forall|k: u64| #[trigger] self@.actions.dom().contains(k) implies exists|i: int|
                0 <= i < out@.len() && (#[trigger] out@[i]).0 as u64 == k by {
                assert(self.actions@.dom().contains(k));
                let j = ks.index_of(k);
                assert(out@[j].0 as u64 == k);
            }
        }
        out
    }

    /// What is queued for a root.
    pub fn action(&self, root: u64) -> (a: Option<&QueuedAction>)
        requires
            self.wf(),
        ensures
            a is Some <==> self@.actions.dom().contains(root),
            a matches Some(q) ==> q@ == self@.actions[root],
    {
        self.actions.get(root)
    }

    /// Whether a proposal for the root is in flight.
    pub fn is_in_flight(&self, root: u64) -> (b: bool)
        requires
            self.wf(),
        ensures
            b == self@.in_flight(root),
    {
        match self.actions.get(root) {
            Some(a) => a.submit_cid.is_some(),
            None => false,
        }
    }

    /// Forget what is queued for a root.
    pub fn remove(&mut self, root: u64)
        requires
            old(self).wf(),
        ensures
            final(self).wf(),
            final(self)@ == (QueueState {
                actions: old(self)@.actions.remove(root),
                ..old(self)@
            }),
    {
        let ghost o = *self;
        self.actions.remove(root);
        assert(self@.actions =~= o@.actions.remove(root));
    }

    /// Forget what is queued for a root, unless it is in flight.
    pub fn drop_pending(&mut self, root: u64)
        requires
            old(self).wf(),
        ensures
            final(self).wf(),
            final(self)@ == old(self)@.dropped(root),
    {
        if !self.is_in_flight(root) {
            self.remove(root);
        }
    }

    /// Queue the best of the matches of a root, or drop what is queued.
    pub fn evaluate(
        &mut self,
        root: u32,
        soul: u32,
        found: Vec<RecipeMatch>,
        site: Option<Site>,
        perf_us: u64,
    )
        requires
            old(self).wf(),
        ensures
            final(self).wf(),
            final(self)@ == old(self)@.evaluated(
                root,
                soul,
                best_of(match_views(found@)),
                site,
                perf_us,
            ),
    {
        let ghost o = *self;
        let k: u64 = root as u64;
        if self.is_in_flight(k) {
            return ;
        }
        let at: usize = match best_live(&found) {
            Some(i) => i,
            None => {
                self.remove(k);
                return ;
            },
        };
        let s: Site = match site {
            Some(s) => s,
            None => {
                return ;
            },
        };
        let m = &found[at];
        let kept: Option<QueuedAction> = match self.actions.remove(k) {
            Some(a) => if a.same_as(m.recipe.as_str(), &m.bindings) {
                Some(a)
            } else {
                None
            },
            None => None,
        };
        let next: QueuedAction = match kept {
            Some(a) => QueuedAction {
                surface: s.surface,
                macro_zone: s.macro_zone,
                micro_location: s.micro_location,
                ..a
            },
            None => {
                let delay_us: u64 = if m.input_count <= 1 {
                    0
                } else {
                    DEFAULT_DELAY_US
                };
                QueuedAction {
                    soul,
                    recipe: m.recipe.clone(),
                    root: m.root,
                    bindings: crate::actions::copy_bindings(&m.bindings),
                    surface: s.surface,
                    macro_zone: s.macro_zone,
                    micro_location: s.micro_location,
                    scheduled_at: perf_us,
                    delay_us,
                    retry_count: 0,
                    submit_cid: None,
                }
            },
        };
        let ghost v = next@;
        self.actions.insert(k, next);
        assert(self@.actions =~= o@.actions.insert(k, v));
    }

    /// The roots whose action is ready.
    pub fn ready_roots(&self, perf_us: u64) -> (roots: Vec<u64>)
        requires
            self.wf(),
        ensures
            self@.is_ready_list(perf_us, roots@),
            forall|i: int| 0 <= i < roots@.len() ==> #[trigger] roots@[i] <= u32::MAX,
    {
        proof {
            self.actions.lemma_ks();
        }
        let ghost ks = self.actions.ks();
        let n: usize = self.actions.len();
        let mut roots: Vec<u64> = Vec::new();
        let mut i: usize = 0;
        while i < n
            invariant
                self.wf(),
                ks == self.actions.ks(),
                n == ks.len(),
                i <= n,
                ascending(ks),
                forall|k: u64| #[trigger] self.actions@.dom().contains(k) <==> ks.contains(k),
                ascending(roots@),
                forall|a: int, p: int|
                    0 <= a < roots@.len() && i <= p < n ==> #[trigger] roots@[a] < #[trigger] ks[p],
                forall|a: int|
                    0 <= a < roots@.len() ==> self@.actions.dom().contains(#[trigger] roots@[a])
                        && self@.actions[roots@[a]].ready(perf_us) && roots@[a] <= u32::MAX,
                forall|p: int|
                    0 <= p < i && self@.actions[#[trigger] ks[p]].ready(perf_us)
                        ==> roots@.contains(ks[p]),
            decreases n - i,
        {
            let k: u64 = self.actions.key_at(i);
            let ghost before = roots@;
            assert(ks.contains(k));
            assert(self.actions@.dom().contains(k));
            if self.actions.val_at(i).ready(perf_us) {
                roots.push(k);
                assert(roots@[before.len() as int] == k);
            }
            proof {
                assert forall|p: int| 0 <= p < i + 1 && self@.actions[#[trigger] ks[p]].ready(
                    perf_us,
                ) implies roots@.contains(ks[p]) by {
                    if p < i {
                        let a = before.index_of(ks[p]);
                        assert(roots@[a] == before[a]);
                    }
                }
            }
            i = i + 1;
        }
        proof {
            assert forall|r: u64| #[trigger] roots@.contains(r) <==> self@.actions.dom().contains(r)
                && self@.actions[r].ready(perf_us) by {
                if roots@.contains(r) {
                    let a = roots@.index_of(r);
                    assert(roots@[a] == r);
                }
                if self@.actions.dom().contains(r) && self@.actions[r].ready(perf_us) {
                    assert(self.actions@.dom().contains(r));
                    let p = ks.index_of(r);
                    assert(ks[p] == r);
                }
            }
        }
        roots
    }

    /// The proposal for a root went out as this call.
    pub fn submit(&mut self, root: u64, cid: u32)
        requires
            old(self).wf(),
        ensures
            final(self).wf(),
            final(self)@ == old(self)@.submitted(root, cid),
    {
        let ghost o = *self;
        if let Some(a) = self.actions.remove(root) {
            self.actions.insert(root, QueuedAction { submit_cid: Some(cid), ..a });
            assert(self@.actions =~= o@.submitted(root, cid).actions);
        } else {
            assert(self@.actions =~= o@.actions);
        }
    }

    /// The first root whose proposal went out as this call.
    fn find_sent(&self, cid: u32) -> (root: Option<u64>)
        requires
            self.wf(),
        ensures
            root matches Some(r) ==> self@.sent_as(cid, r),
            root is None ==> forall|r: u64| !#[trigger] self@.sent_as(cid, r),
    {
        proof {
            self.actions.lemma_ks();
        }
        let ghost ks = self.actions.ks();
        let n: usize = self.actions.len();
        let mut i: usize = 0;
        while i < n
            invariant
                self.wf(),
                ks == self.actions.ks(),
                n == ks.len(),
                i <= n,
                ascending(ks),
                forall|k: u64| #[trigger] self.actions@.dom().contains(k) <==> ks.contains(k),
                forall|p: int|
                    0 <= p < i ==> self@.actions[#[trigger] ks[p]].submit_cid != Some(cid),
            decreases n - i,
        {
            let k: u64 = self.actions.key_at(i);
            assert(ks.contains(k));
            assert(self.actions@.dom().contains(k));
            let hit: bool = match self.actions.val_at(i).submit_cid {
                Some(c) => c == cid,
                None => false,
            };
            if hit {
                assert forall|r: u64| #[trigger]
                    self@.actions.dom().contains(r) && self@.actions[r].submit_cid == Some(
                        cid,
                    ) implies k <= r by {
                    assert(self.actions@.dom().contains(r));
                    let p = ks.index_of(r);
                    assert(ks[p] == r);
                }
                return Some(k);
            }
            i = i + 1;
        }
        assert forall|r: u64| !#[trigger] self@.sent_as(cid, r) by {
            if self@.sent_as(cid, r) {
                assert(self.actions@.dom().contains(r));
                let p = ks.index_of(r);
                assert(ks[p] == r);
            }
        }
        None
    }

    /// Record how an action ended.
    fn end(&mut self, root: u64, a: QueuedAction, reason: Option<String>, Ghost(o): Ghost<Queue>)
        requires
            old(self).wf(),
            o.wf(),
            o@.actions.dom().contains(root),
            o@.actions[root] == a@,
            old(self)@.actions == o@.actions.remove(root),
            old(self)@.outcomes == o@.outcomes,
        ensures
            final(self).wf(),
            final(self)@ == o@.ended(root, crate::wire::text_of(reason)),
    {
        let ghost before = self.outcomes@;
        let ghost v = (a.recipe@, crate::wire::text_of(reason));
        self.outcomes.push((a.recipe, reason));
        assert(ends(self.outcomes@) =~= ends(before).push(v));
    }

    /// A call was answered.
    pub fn resolve_action(&mut self, cid: u32, error: Option<&str>, perf_us: u64)
        requires
            old(self).wf(),
        ensures
            final(self).wf(),
            final(self)@ == old(self)@.resolved(
                cid,
                match error {
                    Some(e) => Some(e@),
                    None => None,
                },
                perf_us,
            ),
    {
        let ghost o = *self;
        let root: u64 = match self.find_sent(cid) {
            Some(r) => r,
            None => {
                return ;
            },
        };
        proof {
            let c = choose|r: u64| self@.sent_as(cid, r);
            assert(self@.sent_as(cid, root));
            assert(self@.sent_as(cid, c));
            assert(c == root);
        }
        let a: QueuedAction = match self.actions.remove(root) {
            Some(a) => a,
            None => {
                return ;
            },
        };
        assert(self@.actions =~= o@.actions.remove(root));
        match error {
            None => {
                self.end(root, a, None, Ghost(o));
            },
            Some(e) => {
                if mentions(e, "already in flight") {
                    self.end(root, a, None, Ghost(o));
                } else if mentions(e, "client_ahead_by") {
                    if a.retry_count < MAX_TIME_DRIFT_RETRIES {
                        let gap_us: u64 = thousand_times(read_gap(e));
                        let next = QueuedAction {
                            retry_count: a.retry_count + 1,
                            delay_us: gap_us.saturating_add(TIME_DRIFT_RETRY_PAD_US),
                            scheduled_at: perf_us,
                            submit_cid: None,
                            ..a
                        };
                        let ghost v = next@;
                        self.actions.insert(root, next);
                        assert(self@.actions =~= o@.actions.insert(root, v));
                    }
                } else {
                    self.end(root, a, Some(e.to_owned()), Ghost(o));
                }
            },
        }
    }

    /// Take the outcomes.
    pub fn drain_outcomes(&mut self) -> (out: Vec<(String, Option<String>)>)
        requires
            old(self).wf(),
        ensures
            final(self).wf(),
            final(self)@ == (QueueState { outcomes: Seq::empty(), ..old(self)@ }),
            ends(out@) == old(self)@.outcomes,
    {
        let mut out: Vec<(String, Option<String>)> = Vec::new();
        std::mem::swap(&mut out, &mut self.outcomes);
        assert(self@.outcomes =~= Seq::empty());
        out
    }
}

/// A proposal in flight outlives any new match of its root.
pub proof fn law_in_flight_is_left_alone(
    q: QueueState,
    root: u32,
    soul: u32,
    best: Option<MatchView>,
    site: Option<Site>,
    perf_us: u64,
)
    requires
        q.in_flight(root as u64),
    ensures
        q.evaluated(root, soul, best, site, perf_us) == q,
{
}

/// An unchanged match keeps its running timer.
pub proof fn law_unchanged_keeps_timer(
    q: QueueState,
    root: u32,
    soul: u32,
    m: MatchView,
    site: Site,
    perf_us: u64,
)
    requires
        q.actions.dom().contains(root as u64),
        q.actions[root as u64].recipe == m.recipe,
        q.actions[root as u64].bindings == m.bindings,
    ensures
        q.evaluated(root, soul, Some(m), Some(site), perf_us).actions[root as u64].scheduled_at
            == q.actions[root as u64].scheduled_at,
        q.evaluated(root, soul, Some(m), Some(site), perf_us).actions[root as u64].delay_us
            == q.actions[root as u64].delay_us,
{
}

/// Matching a root leaves what is queued for every other root alone.
pub proof fn law_roots_are_independent(
    q: QueueState,
    root: u32,
    soul: u32,
    best: Option<MatchView>,
    site: Option<Site>,
    perf_us: u64,
    other: u64,
)
    requires
        other != root,
    ensures
        q.evaluated(root, soul, best, site, perf_us).actions.dom().contains(other)
            == q.actions.dom().contains(other),
        q.actions.dom().contains(other) ==> q.evaluated(
            root,
            soul,
            best,
            site,
            perf_us,
        ).actions[other] == q.actions[other],
{
}

/// The best match is live, and no live match ranks above it.
pub proof fn law_best_is_most_specific(v: Seq<MatchView>, i: int)
    requires
        0 <= i < v.len(),
        v[i].live,
    ensures
        best_of(v) is Some,
        best_of(v)->0.live,
        v.contains(best_of(v)->0),
        rank_ge(rank_of(best_of(v)->0), rank_of(v[i])),
    decreases v.len(),
{
    let init = v.drop_last();
    if i < init.len() {
        law_best_is_most_specific(init, i);
        let b = best_of(init)->0;
        let at = init.index_of(b);
        assert(v[at] == b);
    } else {
        lemma_best_is_listed(init);
        if best_of(init) is Some {
            let at = init.index_of(best_of(init)->0);
            assert(v[at] == best_of(init)->0);
        }
    }
    assert(v[v.len() - 1] == v.last());
}

/// The best match is one of the list, and live.
proof fn lemma_best_is_listed(v: Seq<MatchView>)
    ensures
        best_of(v) matches Some(b) ==> v.contains(b) && b.live,
    decreases v.len(),
{
    if v.len() > 0 {
        let init = v.drop_last();
        lemma_best_is_listed(init);
        if best_of(init) is Some {
            let at = init.index_of(best_of(init)->0);
            assert(v[at] == best_of(init)->0);
        }
        assert(v[v.len() - 1] == v.last());
    }
}

/// A reply to a proposal always takes it out of flight.
pub proof fn law_reply_ends_flight(q: QueueState, root: u64, error: Option<Seq<char>>, perf_us: u64)
    requires
        q.in_flight(root),
    ensures
        !q.answered(root, error, perf_us).in_flight(root),
{
}

} // verus!
