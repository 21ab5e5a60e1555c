//! The local world: a bitemporal mirror of the server's cards and zones.
//!
//! Every version row that streams in is kept, keyed by its stamp, and the row
//! *current at a given wall-clock* is resolved on demand. Rows stamped in the
//! future are held back until their time arrives.
use std::collections::BTreeSet;
use vstd::prelude::*;

use crate::history::{
    current_of, drop_version, gc_history, next_key, next_promotion, upsert,
};
use crate::ordmap::OrdMap;
use crate::rows::{stamp_time_ms, CardRow, Micro, RowOp, Stock, ZoneRow};

verus! {

use crate::history::{
    current_in, hists, holds_stamp, kept, latest, latest_at, law_sweep_keeps_pinned,
    law_sweep_keeps_present, lemma_latest, lemma_no_latest, next_at, next_time, store_wf, swept,
    with_version, without_version,
};
use crate::ordmap::ascending;
use crate::rows::time_of;

/// Whether the set holds `k`.
fn in_set(set: &BTreeSet<u64>, k: u64) -> (b: bool)
    ensures
        b == set@.contains(k),
{
    broadcast use vstd::std_specs::btree::group_btree_axioms;
    broadcast use vstd::laws_cmp::group_laws_cmp;

    set.contains(&k)
}

/// A position a card is pinned to.
#[derive(Debug, Clone, Copy, PartialEq, Eq, Structural)]
pub struct Position {
    pub macro_zone: u64,
    pub surface: u8,
    pub chunk_q: i16,
    pub chunk_r: i16,
    pub micro_location: u32,
    pub micro: Micro,
    pub flags: u32,
}

impl Position {
    /// The row at this position: zone and cell replaced, the flags replaced under
    /// the placement mask, everything else kept.
    pub open spec fn place(self, row: CardRow, pmask: u32) -> CardRow {
        CardRow {
            macro_zone: self.macro_zone,
            surface: self.surface,
            chunk_q: self.chunk_q,
            chunk_r: self.chunk_r,
            micro_location: self.micro_location,
            micro: self.micro,
            flags: (row.flags & !pmask) | (self.flags & pmask),
            ..row
        }
    }
}

/// Bitemporal card store: per card, the version rows keyed by stamp.
pub struct Cards {
    by_id: OrdMap<OrdMap<CardRow>>,
}

impl View for Cards {
    type V = Map<u64, Map<u64, CardRow>>;

    closed spec fn view(&self) -> Map<u64, Map<u64, CardRow>> {
        hists(self.by_id)
    }
}

/// A run of consecutive active rows, `[i, j)`, that cannot be extended.
pub open spec fn is_run(active: Seq<bool>, i: int, j: int) -> bool {
    &&& 0 <= i < j <= active.len()
    &&& forall|m: int| i <= m < j ==> #[trigger] active[m]
    &&& i > 0 ==> !active[i - 1]
    &&& j < active.len() ==> !active[j]
}

/// When the run `[.., j)` ends: at the row that clears it, or, while nothing has
/// cleared it, at the latest row known.
pub open spec fn run_end(times: Seq<u64>, j: int) -> u64 {
    if j < times.len() {
        times[j]
    } else {
        times[times.len() - 1]
    }
}

/// `[i, j)` is the first run that has not ended by `now`.
pub open spec fn first_open_run(times: Seq<u64>, active: Seq<bool>, now: u64, i: int, j: int) -> bool {
    &&& is_run(active, i, j)
    &&& run_end(times, j) > now
    &&& forall|a: int, b: int| #[trigger] is_run(active, a, b) && a < i ==> run_end(times, b) <= now
}

/// What [`Cards::progress_window`] finds among rows with these times and bits.
pub open spec fn window_of(
    times: Seq<u64>,
    active: Seq<bool>,
    now: u64,
    w: Option<(u64, u64)>,
) -> bool {
    match w {
        Some((start, end)) => exists|i: int, j: int| #[trigger]
            first_open_run(times, active, now, i, j) && start == times[i] && end == run_end(
                times,
                j,
            ),
        None => forall|a: int, b: int| #[trigger] is_run(active, a, b) ==> run_end(times, b) <= now,
    }
}

/// The stamps of a history in ascending order.
pub open spec fn stamps_in_order(stamps: Seq<u64>, dom: Set<u64>) -> bool {
    &&& ascending(stamps)
    &&& forall|k: u64| #[trigger] stamps.contains(k) <==> dom.contains(k)
}

impl Cards {
    pub closed spec fn wf(&self) -> bool {
        &&& store_wf(self.by_id)
        &&& forall|id: u64, k: u64| #[trigger]
            holds_stamp(self@, id, k) ==> self@[id][k].valid_at == k && self@[id][k].card_id == id
        &&& forall|id: u64| #[trigger] self@.dom().contains(id) ==> id <= u32::MAX
    }

    /// What a sound store guarantees about its rows.
    pub proof fn lemma_wf(&self)
        requires
            self.wf(),
        ensures
            self@.dom().finite(),
            forall|id: u64| #[trigger] self@.dom().contains(id) ==> id <= u32::MAX
                && self@[id].dom().finite() && self@[id].dom().len() > 0,
            forall|id: u64, k: u64| #[trigger]
                holds_stamp(self@, id, k) ==> self@[id][k].valid_at == k && self@[id][k].card_id
                    == id,
    {
        self.by_id.lemma_ks();
        assert(self@.dom() =~= self.by_id@.dom());
        assert forall|id: u64| #[trigger] self@.dom().contains(id) implies id <= u32::MAX
            && self@[id].dom().finite() && self@[id].dom().len() > 0 by {
            self.by_id@[id].lemma_ks();
        }
    }

    /// The versions of one card; none if the card is unknown.
    pub open spec fn hist(&self, card_id: u32) -> Map<u64, CardRow> {
        if self@.dom().contains(card_id as u64) {
            self@[card_id as u64]
        } else {
            Map::empty()
        }
    }

    /// The row of `card_id` current at `now`.
    pub open spec fn at(&self, card_id: u32, now: u64) -> Option<CardRow> {
        current_in(self.hist(card_id), now)
    }

    /// A row that is current carries the id it was asked for, and has its time.
    pub proof fn lemma_at(&self, card_id: u32, now: u64)
        requires
            self.wf(),
        ensures
            self.at(card_id, now) matches Some(row) ==> row.card_id == card_id && time_of(
                row.valid_at,
            ) <= now && self.hist(card_id).dom().contains(row.valid_at) && self.hist(
                card_id,
            )[row.valid_at] == row,
    {
        let dom = self.hist(card_id).dom();
        if self.at(card_id, now) is Some {
            let k = choose|k: u64| latest_at(dom, now, k);
            lemma_latest(dom, now, k);
            assert(holds_stamp(self@, card_id as u64, k));
        }
    }

    pub fn new() -> (c: Self)
        ensures
            c.wf(),
            c@ == Map::<u64, Map<u64, CardRow>>::empty(),
    {
        let c = Cards { by_id: OrdMap::new() };
        assert(c@ =~= Map::empty());
        c
    }

    /// The history behind a card id.
    fn find(&self, card_id: u32) -> (r: Option<&OrdMap<CardRow>>)
        requires
            self.wf(),
        ensures
            r is Some <==> self@.dom().contains(card_id as u64),
            r matches Some(h) ==> h.wf() && h@ == self.hist(card_id) && h@.dom().len() > 0,
            r is None ==> self.hist(card_id) == Map::<u64, CardRow>::empty(),
    {
        self.by_id.get(card_id as u64)
    }

    /// Fold one row event into the store. Insert and Update write the row at its
    /// stamp; Delete drops that version, and the card with its last version.
    pub fn apply(&mut self, op: RowOp, row: CardRow)
        requires
            old(self).wf(),
        ensures
            final(self).wf(),
            final(self)@ == match op {
                RowOp::Delete => without_version(
                    old(self)@,
                    row.card_id as u64,
                    row.valid_at,
                ),
                _ => with_version(old(self)@, row.card_id as u64, row.valid_at, row),
            },
    {
        let ghost o = self@;
        match op {
            RowOp::Insert | RowOp::Update => {
                upsert(&mut self.by_id, row.card_id as u64, row.valid_at, row);
                assert forall|id: u64, k: u64| #[trigger] holds_stamp(self@, id, k) implies self@[id][k].valid_at
                    == k && self@[id][k].card_id == id by {
                    if id != row.card_id as u64 || k != row.valid_at {
                        assert(holds_stamp(o, id, k));
                    }
                }
            },
            RowOp::Delete => {
                drop_version(&mut self.by_id, row.card_id as u64, row.valid_at);
                assert forall|id: u64, k: u64| #[trigger] holds_stamp(self@, id, k) implies self@[id][k].valid_at
                    == k && self@[id][k].card_id == id by {
                    assert(holds_stamp(o, id, k));
                }
            },
        }
    }

    /// The row of `card_id` current at `now_ms`: the latest one stamped at or
    /// before it. `None` if the card is unknown or all its rows are still to come.
    pub fn current(&self, card_id: u32, now_ms: u64) -> (r: Option<&CardRow>)
        requires
            self.wf(),
        ensures
            r is Some <==> self.at(card_id, now_ms) is Some,
            r matches Some(row) ==> Some(*row) == self.at(card_id, now_ms) && row.card_id
                == card_id && time_of(row.valid_at) <= now_ms,
    {
        proof {
            self.lemma_at(card_id, now_ms);
        }
        match self.find(card_id) {
            Some(hist) => current_of(hist, now_ms),
            None => {
                proof {
                    lemma_no_latest(self.hist(card_id).dom(), now_ms);
                }
                None
            },
        }
    }

    /// Overwrite the position of every version of `card_id`, present and future,
    /// so that a row the server stamped ahead cannot promote and undo a pending
    /// local move. A version whose position the server requires is left alone.
    pub fn pin_position(&mut self, card_id: u32, to: &Position, pmask: u32)
        requires
            old(self).wf(),
        ensures
            final(self).wf(),
            final(self)@.dom() == old(self)@.dom(),
            forall|id: u32| #[trigger]
                final(self).hist(id) == if id == card_id {
                    old(self).hist(id).map_values(
                        |row: CardRow|
                            if row.pos_need {
                                row
                            } else {
                                to.place(row, pmask)
                            },
                    )
                } else {
                    old(self).hist(id)
                },
    {
        let ghost o = *self;
        proof {
            o.lemma_wf();
        }
        let ghost f = |row: CardRow|
            if row.pos_need {
                row
            } else {
                to.place(row, pmask)
            };
        let mut hist = match self.by_id.remove(card_id as u64) {
            Some(h) => h,
            None => {
                proof {
                    assert(self@ =~= o@);
                    assert(o.hist(card_id).map_values(f) =~= o.hist(card_id));
                }
                return ;
            },
        };
        let ghost h0 = hist@;
        proof {
            hist.lemma_ks();
        }
        let n: usize = hist.len();
        let mut i: usize = 0;
        while i < n
            invariant
                hist.wf(),
                n == hist.ks().len(),
                i <= n,
                ascending(hist.ks()),
                hist@.dom() == h0.dom(),
                h0.dom().finite(),
                forall|k: u64| #[trigger] h0.dom().contains(k) <==> hist.ks().contains(k),
                f == (|row: CardRow|
                    if row.pos_need {
                        row
                    } else {
                        to.place(row, pmask)
                    }),
                forall|m: int| 0 <= m < i ==> hist@[#[trigger] hist.ks()[m]] == f(
                    h0[hist.ks()[m]],
                ),
                forall|m: int| i <= m < n ==> hist@[#[trigger] hist.ks()[m]] == h0[hist.ks()[m]],
            decreases n - i,
        {
            let k: u64 = hist.key_at(i);
            let row: CardRow = *hist.val_at(i);
            if !row.pos_need {
                hist.insert(
                    k,
                    CardRow {
                        macro_zone: to.macro_zone,
                        surface: to.surface,
                        chunk_q: to.chunk_q,
                        chunk_r: to.chunk_r,
                        micro_location: to.micro_location,
                        micro: to.micro,
                        flags: (row.flags & !pmask) | (to.flags & pmask),
                        ..row
                    },
                );
                assert(hist@.dom() =~= h0.dom());
            }
            i = i + 1;
        }
        proof {
            assert(hist@ =~= h0.map_values(f)) by {
                assert forall|k: u64| h0.dom().contains(k) implies hist@[k] == f(h0[k]) by {
                    let m = hist.ks().index_of(k);
                    assert(hist.ks()[m] == k);
                }
            }
        }
        self.by_id.insert(card_id as u64, hist);
        proof {
            assert(self@ =~= o@.insert(card_id as u64, hist@));
            assert(self@.dom() =~= o@.dom());
            assert forall|id: u64, k: u64| #[trigger] holds_stamp(self@, id, k) implies self@[id][k].valid_at
                == k && self@[id][k].card_id == id by {
                assert(holds_stamp(o@, id, k));
            }
            assert(o.hist(card_id) == h0);
        }
    }

    /// Re-derive the stock of this card's local rows (those stamped in `local`)
    /// from the server's: each local row adopts the stock of the latest server row
    /// at or before its own time. A local row with no server row before it keeps
    /// its own.
    pub fn resync_local_stock(&mut self, card_id: u32, local: &BTreeSet<u64>)
        requires
            old(self).wf(),
        ensures
            final(self).wf(),
            final(self)@.dom() == old(self)@.dom(),
            forall|id: u32| id != card_id ==> #[trigger] final(self).hist(id) == old(self).hist(id),
            final(self).hist(card_id) == resynced(old(self).hist(card_id), local@),
    {
        let ghost o = *self;
        proof {
            o.lemma_wf();
        }
        let mut hist = match self.by_id.remove(card_id as u64) {
            Some(h) => h,
            None => {
                proof {
                    assert(self@ =~= o@);
                    assert(resynced(o.hist(card_id), local@) =~= o.hist(card_id));
                }
                return ;
            },
        };
        let ghost h0 = hist@;
        proof {
            hist.lemma_ks();
        }
        let n: usize = hist.len();
        let mut i: usize = 0;
        while i < n
            invariant
                hist.wf(),
                n == hist.ks().len(),
                i <= n,
                ascending(hist.ks()),
                hist@.dom() == h0.dom(),
                forall|k: u64| #[trigger] h0.dom().contains(k) <==> hist.ks().contains(k),
                forall|m: int| 0 <= m < i ==> hist@[#[trigger] hist.ks()[m]] == resynced(
                    h0,
                    local@,
                )[hist.ks()[m]],
                forall|m: int| i <= m < n ==> hist@[#[trigger] hist.ks()[m]] == h0[hist.ks()[m]],
                forall|k: u64| #[trigger]
                    h0.dom().contains(k) && !local@.contains(k) ==> hist@[k] == h0[k],
            decreases n - i,
        {
            let k: u64 = hist.key_at(i);
            assert(hist.ks()[i as int] == k);
            if in_set(local, k) {
                let t: u64 = stamp_time_ms(k);
                // The latest server row at or before `t`.
                let ghost server = h0.dom().difference(local@);
                let mut p: usize = n;
                let mut found: Option<Stock> = None;
                while p > 0 && found.is_none()
                    invariant
                        hist.wf(),
                        p <= n,
                        n == hist.ks().len(),
                        ascending(hist.ks()),
                        hist@.dom() == h0.dom(),
                        server == h0.dom().difference(local@),
                        forall|k: u64| #[trigger] h0.dom().contains(k) <==> hist.ks().contains(k),
                        forall|k: u64| #[trigger]
                            h0.dom().contains(k) && !local@.contains(k) ==> hist@[k] == h0[k],
                        found is None ==> forall|m: int|
                            p <= m < n ==> local@.contains(#[trigger] hist.ks()[m]) || time_of(
                                hist.ks()[m],
                            ) > t,
                        found matches Some(s) ==> exists|c: u64| #[trigger]
                            latest_at(server, t, c) && s == h0[c].stock,
                    decreases p,
                {
                    p = p - 1;
                    let c: u64 = hist.key_at(p);
                    if !in_set(local, c) && stamp_time_ms(c) <= t {
                        found = Some(hist.val_at(p).stock);
                        proof {
                            assert forall|j: u64| #[trigger] server.contains(j) && time_of(j)
                                <= t implies j <= c by {
                                let m = hist.ks().index_of(j);
                                assert(hist.ks()[m] == j);
                            }
                            assert(latest_at(server, t, c));
                        }
                    }
                }
                let row: CardRow = *hist.val_at(i);
                assert(row == h0[k]);
                match found {
                    Some(stock) => {
                        hist.insert(k, CardRow { stock, ..row });
                        proof {
                            let c = choose|c: u64| #[trigger]
                                latest_at(server, t, c) && stock == h0[c].stock;
                            lemma_latest(server, t, c);
                            assert(hist@.dom() =~= h0.dom());
                        }
                    },
                    None => {
                        proof {
                            assert forall|j: u64| #[trigger] server.contains(j) implies time_of(j)
                                > t by {
                                let m = hist.ks().index_of(j);
                                assert(hist.ks()[m] == j);
                            }
                            lemma_no_latest(server, t);
                        }
                    },
                }
            }
            i = i + 1;
        }
        proof {
            assert(hist@ =~= resynced(h0, local@)) by {
                assert forall|k: u64| h0.dom().contains(k) implies hist@[k] == resynced(
                    h0,
                    local@,
                )[k] by {
                    let m = hist.ks().index_of(k);
                    assert(hist.ks()[m] == k);
                }
            }
        }
        self.by_id.insert(card_id as u64, hist);
        proof {
            assert(self@ =~= o@.insert(card_id as u64, hist@));
            assert(self@.dom() =~= o@.dom());
            assert forall|id: u64, k: u64| #[trigger] holds_stamp(self@, id, k) implies self@[id][k].valid_at
                == k && self@[id][k].card_id == id by {
                assert(holds_stamp(o@, id, k));
            }
            assert(o.hist(card_id) == h0);
        }
    }

    /// Every card's row current at `now_ms`, by ascending card id; cards whose
    /// rows are all still to come are skipped.
    pub fn current_all(&self, now_ms: u64) -> (rows: Vec<&CardRow>)
        requires
            self.wf(),
        ensures
            is_current_all(*self, now_ms, rows@),
    {
        proof {
            self.by_id.lemma_ks();
            self.lemma_wf();
        }
        let n: usize = self.by_id.len();
        let mut rows: Vec<&CardRow> = Vec::new();
        let mut i: usize = 0;
        while i < n
            invariant
                self.wf(),
                n == self.by_id.ks().len(),
                i <= n,
                ascending(self.by_id.ks()),
                forall|id: u64| #[trigger]
                    self.by_id@.dom().contains(id) <==> self.by_id.ks().contains(id),
                forall|m: int|
                    0 <= m < rows@.len() ==> self.at((#[trigger] rows@[m]).card_id, now_ms) == Some(
                        *rows@[m],
                    ),
                forall|a: int, b: int|
                    0 <= a < b < rows@.len() ==> (#[trigger] rows@[a]).card_id < (
                    #[trigger] rows@[b]).card_id,
                forall|m: int|
                    0 <= m < rows@.len() ==> i < n ==> (#[trigger] rows@[m]).card_id
                        < self.by_id.ks()[i as int],
                forall|m: int|
                    0 <= m < i ==> (#[trigger] self.by_id.ks()[m]) <= u32::MAX && (self.at(
                        self.by_id.ks()[m] as u32,
                        now_ms,
                    ) matches Some(row) ==> exists|a: int|
                        0 <= a < rows@.len() && *(#[trigger] rows@[a]) == row),
            decreases n - i,
        {
            let ghost id = self.by_id.ks()[i as int];
            let ghost before = rows@;
            assert(self@.dom().contains(id));
            assert(self.hist(id as u32) == self.by_id@[id]@);
            match current_of(self.by_id.val_at(i), now_ms) {
                Some(row) => {
                    proof {
                        self.lemma_at(id as u32, now_ms);
                    }
                    rows.push(row);
                    assert(*rows@[rows@.len() - 1] == *row);
                },
                None => {},
            }
            proof {
                assert forall|m: int| 0 <= m < i + 1 implies (#[trigger] self.by_id.ks()[m])
                    <= u32::MAX && (self.at(self.by_id.ks()[m] as u32, now_ms) matches Some(row)
                    ==> exists|a: int| 0 <= a < rows@.len() && *(#[trigger] rows@[a]) == row) by {
                    if m < i && self.at(self.by_id.ks()[m] as u32, now_ms) is Some {
                        let row = self.at(self.by_id.ks()[m] as u32, now_ms)->0;
                        let a = choose|a: int| 0 <= a < before.len() && *(#[trigger] before[a])
                            == row;
                        assert(*rows@[a] == row);
                    }
                }
            }
            i = i + 1;
        }
        proof {
            assert forall|id: u32| (#[trigger] self.at(id, now_ms)) is Some implies exists|a: int|
                0 <= a < rows@.len() && (#[trigger] rows@[a]).card_id == id by {
                if !self@.dom().contains(id as u64) {
                    lemma_no_latest(self.hist(id).dom(), now_ms);
                }
                let m = self.by_id.ks().index_of(id as u64);
                assert(self.by_id.ks()[m] == id as u64);
                self.lemma_at(id, now_ms);
                let row = self.at(id, now_ms)->0;
                let a = choose|a: int| 0 <= a < rows@.len() && *(#[trigger] rows@[a]) == row;
                assert(rows@[a].card_id == id);
            }
        }
        rows
    }

    /// The card's next row to come: the first one after `now_ms`.
    pub fn next_future_row(&self, card_id: u32, now_ms: u64) -> (r: Option<&CardRow>)
        requires
            self.wf(),
        ensures
            r matches Some(row) ==> next_at(self.hist(card_id).dom(), now_ms, row.valid_at)
                && *row == self.hist(card_id)[row.valid_at],
            r is None ==> forall|k: u64| #[trigger]
                self.hist(card_id).dom().contains(k) ==> time_of(k) <= now_ms,
    {
        match self.find(card_id) {
            Some(hist) => match next_key(hist, now_ms) {
                Some(k) => {
                    assert(holds_stamp(self@, card_id as u64, k));
                    hist.get(k)
                },
                None => None,
            },
            None => None,
        }
    }

    /// The `[start, end]` window of the first run of active rows that has not
    /// ended by `now_ms`. A run still open takes the latest known row as its end.
    pub fn progress_window<F: Fn(&CardRow) -> bool>(
        &self,
        card_id: u32,
        now_ms: u64,
        is_active: F,
    ) -> (w: Option<(u64, u64)>)
        requires
            self.wf(),
            forall|row: CardRow| #[trigger] call_requires(is_active, (&row,)),
        ensures
            exists|stamps: Seq<u64>, active: Seq<bool>| #[trigger]
                judged_rows(self.hist(card_id), is_active, stamps, active) && window_of(
                    stamps.map_values(|k: u64| time_of(k)),
                    active,
                    now_ms,
                    w,
                ),
    {
        let hist = match self.find(card_id) {
            Some(h) => h,
            None => {
                proof {
                    let e = Seq::<u64>::empty();
                    assert(judged_rows(self.hist(card_id), is_active, e, Seq::empty()));
                    assert(window_of(
                        e.map_values(|k: u64| time_of(k)),
                        Seq::empty(),
                        now_ms,
                        None,
                    ));
                }
                return None;
            },
        };
        proof {
            hist.lemma_ks();
        }
        let n: usize = hist.len();
        let ghost stamps = hist.ks();
        let mut times: Vec<u64> = Vec::new();
        let mut active: Vec<bool> = Vec::new();
        let mut i: usize = 0;
        while i < n
            invariant
                hist.wf(),
                n == hist.ks().len(),
                i <= n,
                stamps == hist.ks(),
                times@.len() == i,
                active@.len() == i,
                forall|row: CardRow| #[trigger] call_requires(is_active, (&row,)),
                forall|m: int| 0 <= m < i ==> #[trigger] times@[m] == time_of(stamps[m]),
                forall|m: int|
                    0 <= m < i ==> call_ensures(is_active, (&hist@[stamps[m]],), #[trigger] active@[m]),
            decreases n - i,
        {
            let on: bool = is_active(hist.val_at(i));
            times.push(stamp_time_ms(hist.key_at(i)));
            active.push(on);
            i = i + 1;
        }
        proof {
            assert(judged_rows(self.hist(card_id), is_active, stamps, active@));
            assert(times@ =~= stamps.map_values(|k: u64| time_of(k)));
        }
        first_window(&times, &active, now_ms)
    }

    /// The earliest moment after `now_ms` at which any card's row promotes.
    pub fn min_future_time(&self, now_ms: u64) -> (r: Option<u64>)
        requires
            self.wf(),
        ensures
            r matches Some(t) ==> next_time(self@, now_ms, t),
            r is None ==> forall|id: u64, k: u64| #[trigger]
                holds_stamp(self@, id, k) ==> time_of(k) <= now_ms,
    {
        next_promotion(&self.by_id, now_ms)
    }

    /// The zone whose pins hold a card's old rows: that of its current row, or of
    /// its latest one while all are still to come.
    pub open spec fn home(&self, id: u64, now: u64) -> u64 {
        match current_in(self@[id], now) {
            Some(row) => row.macro_zone,
            None => last_row(self@[id]).macro_zone,
        }
    }

    /// Anchor-aware sweep: per card, keep the rows to come, the current one and
    /// those pinned in its zone; drop the rest.
    pub fn gc<F: Fn(u64) -> Vec<u64>>(&mut self, now_ms: u64, pins_for_zone: F)
        requires
            old(self).wf(),
            forall|zone: u64| #[trigger] call_requires(pins_for_zone, (zone,)),
        ensures
            final(self).wf(),
            final(self)@.dom() == old(self)@.dom(),
            forall|id: u64| #[trigger]
                old(self)@.dom().contains(id) ==> swept_by(
                    pins_for_zone,
                    old(self).home(id, now_ms),
                    now_ms,
                    old(self)@[id],
                    final(self)@[id],
                ),
    {
        let ghost o = *self;
        proof {
            o.lemma_wf();
            self.by_id.lemma_ks();
        }
        let n: usize = self.by_id.len();
        let ghost ids = self.by_id.ks();
        let mut i: usize = 0;
        while i < n
            invariant
                o.wf(),
                store_wf(self.by_id),
                self.by_id.ks() == ids,
                n == ids.len(),
                i <= n,
                ascending(ids),
                self@.dom() == o@.dom(),
                forall|id: u64| #[trigger] o@.dom().contains(id) <==> ids.contains(id),
                forall|zone: u64| #[trigger] call_requires(pins_for_zone, (zone,)),
                forall|m: int|
                    0 <= m < i ==> swept_by(
                        pins_for_zone,
                        o.home(#[trigger] ids[m], now_ms),
                        now_ms,
                        o@[ids[m]],
                        self@[ids[m]],
                    ),
                forall|m: int| i <= m < n ==> self@[#[trigger] ids[m]] == o@[ids[m]],
            decreases n - i,
        {
            let ghost before = *self;
            let id: u64 = self.by_id.key_at(i);
            assert(before@[id] == o@[id]);
            let zone: u64 = {
                let hist = self.by_id.val_at(i);
                match current_of(hist, now_ms) {
                    Some(row) => row.macro_zone,
                    None => latest_row(hist).macro_zone,
                }
            };
            assert(zone == o.home(id, now_ms));
            let pins = pins_for_zone(zone);
            let ghost swept_id = swept(o@[id], now_ms, pins@);
            match self.by_id.get_mut(id) {
                Some(hist) => {
                    gc_history(hist, now_ms, &pins);
                },
                None => {},
            }
            proof {
                assert(self@[id] == swept_id);
                assert(self@.dom() =~= o@.dom());
                assert(swept_by(pins_for_zone, o.home(id, now_ms), now_ms, o@[id], self@[id])) by {
                    assert(call_ensures(pins_for_zone, (o.home(id, now_ms),), pins));
                }
                assert forall|m: int| 0 <= m < n && m != i implies self@[#[trigger] ids[m]]
                    == before@[ids[m]] by {
                    assert(ids[m] != id);
                }
            }
            i = i + 1;
        }
        proof {
            assert forall|id: u64| #[trigger] o@.dom().contains(id) implies swept_by(
                pins_for_zone,
                o.home(id, now_ms),
                now_ms,
                o@[id],
                self@[id],
            ) by {
                let m = ids.index_of(id);
                assert(ids[m] == id);
            }
            assert forall|id: u64, k: u64| #[trigger] holds_stamp(self@, id, k) implies self@[id][k].valid_at
                == k && self@[id][k].card_id == id by {
                assert(o@.dom().contains(id));
                assert(holds_stamp(o@, id, k));
            }
        }
    }

    /// The zone of a card's latest known row, current or not.
    pub fn zone_of(&self, card_id: u32) -> (r: Option<u64>)
        requires
            self.wf(),
        ensures
            r == self.latest_zone(card_id),
    {
        match self.find(card_id) {
            Some(hist) => Some(latest_row(hist).macro_zone),
            None => None,
        }
    }

    pub open spec fn latest_zone(&self, card_id: u32) -> Option<u64> {
        if self@.dom().contains(card_id as u64) {
            Some(last_row(self@[card_id as u64]).macro_zone)
        } else {
            None
        }
    }

    /// The number of distinct cards known, in any version.
    pub fn len(&self) -> (n: usize)
        requires
            self.wf(),
        ensures
            n == self@.dom().len(),
    {
        assert(self@.dom() =~= self.by_id@.dom());
        self.by_id.len()
    }

    /// The number of version rows over all cards.
    pub fn version_count(&self) -> (n: usize)
        requires
            self.wf(),
            all_versions(self@).len() <= usize::MAX,
        ensures
            n == all_versions(self@).len(),
    {
        let n: usize = self.by_id.len();
        proof {
            self.by_id.lemma_ks();
            self.lemma_wf();
            lemma_versions_finite(self@);
            assert(versions_of(self@, Set::empty()) =~= Set::empty());
            assert(self.by_id.ks().take(0).to_set() =~= Set::empty());
        }
        let mut total: usize = 0;
        let mut i: usize = 0;
        while i < n
            invariant
                self.wf(),
                i <= n,
                n == self.by_id.ks().len(),
                ascending(self.by_id.ks()),
                all_versions(self@).finite(),
                all_versions(self@).len() <= usize::MAX,
                total == versions_of(self@, self.by_id.ks().take(i as int).to_set()).len(),
                versions_of(self@, self.by_id.ks().take(i as int).to_set()).finite(),
            decreases n - i,
        {
            let ghost ks = self.by_id.ks();
            let ghost ids = ks.take(i as int).to_set();
            let ghost id = ks[i as int];
            let hist = self.by_id.val_at(i);
            proof {
                assert(self@[id] == hist@);
                hist.lemma_ks();
                assert(!ids.contains(id)) by {
                    if ids.contains(id) {
                        let m = ks.take(i as int).index_of(id);
                        assert(ks.take(i as int)[m] == ks[m]);
                    }
                }
                lemma_versions_step(self@, ids, id);
                assert(ks.take(i + 1).to_set() =~= ids.insert(id)) by {
                    assert(ks.take(i + 1) =~= ks.take(i as int).push(id));
                    assert forall|x: u64| ks.take(i + 1).contains(x) <==> (ks.take(i as int).contains(x) || x == id) by {
                        if ks.take(i as int).contains(x) {
                            let m = ks.take(i as int).index_of(x);
                            assert(ks.take(i + 1)[m] == x);
                        }
                        if x == id {
                            assert(ks.take(i + 1)[i as int] == x);
                        }
                        if ks.take(i + 1).contains(x) && x != id {
                            let m = ks.take(i + 1).index_of(x);
                            assert(ks.take(i as int)[m] == x);
                        }
                    }
                }
                let next = versions_of(self@, ids.insert(id));
                assert(next.subset_of(all_versions(self@)));
                vstd::set_lib::lemma_len_subset(next, all_versions(self@));
            }
            total = total + hist.len();
            i = i + 1;
        }
        proof {
            let ks = self.by_id.ks();
            assert(ks.take(n as int) =~= ks);
            assert(versions_of(self@, ks.to_set()) =~= all_versions(self@)) by {
                assert(self@.dom() =~= self.by_id@.dom());
                self.by_id.lemma_ks();
            }
        }
        total
    }

    pub fn is_empty(&self) -> (b: bool)
        requires
            self.wf(),
        ensures
            b == (self@.dom() == Set::<u64>::empty()),
    {
        proof {
            self.by_id.lemma_ks();
            assert(self@.dom() =~= self.by_id@.dom());
            if self.by_id.ks().len() > 0 {
                assert(self.by_id.ks().contains(self.by_id.ks()[0]));
                assert(self@.dom().contains(self.by_id.ks()[0]));
            } else {
                assert(self@.dom() =~= Set::empty());
            }
        }
        self.by_id.len() == 0
    }
}

/// `after` is what a sweep at `now` leaves of `before` under the pins that
/// `pins_for_zone` gives for `zone`.
pub open spec fn swept_by<R, F: Fn(u64) -> Vec<u64>>(
    pins_for_zone: F,
    zone: u64,
    now: u64,
    before: Map<u64, R>,
    after: Map<u64, R>,
) -> bool {
    exists|pins: Vec<u64>| #[trigger]
        call_ensures(pins_for_zone, (zone,), pins) && after == swept(before, now, pins@)
}

/// The row with the largest stamp.
pub open spec fn last_row<R>(hist: Map<u64, R>) -> R {
    hist[choose|k: u64| is_last(hist.dom(), k)]
}

/// `k` is the largest stamp.
pub open spec fn is_last(dom: Set<u64>, k: u64) -> bool {
    dom.contains(k) && forall|j: u64| #[trigger] dom.contains(j) ==> j <= k
}

/// The row with the largest stamp of a non-empty history.
fn latest_row<R>(hist: &OrdMap<R>) -> (r: &R)
    requires
        hist.wf(),
        hist@.dom().len() > 0,
    ensures
        *r == last_row(hist@),
{
    let n: usize = hist.len();
    proof {
        hist.lemma_ks();
        let k = hist.ks()[n - 1];
        assert(hist.ks().contains(k));
        assert forall|j: u64| #[trigger] hist@.dom().contains(j) implies j <= k by {
            let m = hist.ks().index_of(j);
            assert(hist.ks()[m] == j);
        }
        assert(is_last(hist@.dom(), k));
        let c = choose|k: u64| is_last(hist@.dom(), k);
        assert(is_last(hist@.dom(), c));
        assert(c == k);
    }
    hist.val_at(n - 1)
}

/// Every version in a store, as a pair of id and stamp.
pub open spec fn all_versions<R>(m: Map<u64, Map<u64, R>>) -> Set<(u64, u64)> {
    Set::new(|p: (u64, u64)| holds_stamp(m, p.0, p.1))
}

/// The versions of the given ids.
pub open spec fn versions_of<R>(m: Map<u64, Map<u64, R>>, ids: Set<u64>) -> Set<(u64, u64)> {
    Set::new(|p: (u64, u64)| holds_stamp(m, p.0, p.1) && ids.contains(p.0))
}

proof fn lemma_versions_step<R>(m: Map<u64, Map<u64, R>>, ids: Set<u64>, id: u64)
    requires
        versions_of(m, ids).finite(),
        !ids.contains(id),
        m.dom().contains(id),
        m[id].dom().finite(),
    ensures
        versions_of(m, ids.insert(id)).finite(),
        versions_of(m, ids.insert(id)).len() == versions_of(m, ids).len() + m[id].dom().len(),
{
    let a = versions_of(m, ids);
    let f = |k: u64| (id, k);
    let b = m[id].dom().map(f);
    vstd::set_lib::lemma_map_size(m[id].dom(), b, f);
    assert(a.disjoint(b));
    vstd::set_lib::lemma_set_disjoint_lens(a, b);
    assert forall|p: (u64, u64)| versions_of(m, ids.insert(id)).contains(p) <==> (a + b).contains(p) by {
        if p.0 == id && m[id].dom().contains(p.1) {
            assert(f(p.1) == p);
        }
    }
    assert(versions_of(m, ids.insert(id)) =~= a + b);
}

proof fn lemma_versions_finite<R>(m: Map<u64, Map<u64, R>>)
    requires
        m.dom().finite(),
        forall|id: u64| #[trigger] m.dom().contains(id) ==> m[id].dom().finite(),
    ensures
        all_versions(m).finite(),
    decreases m.dom().len(),
{
    if m.dom().len() == 0 {
        assert(m.dom() =~= Set::empty());
        assert(all_versions(m) =~= Set::empty());
    } else {
        let id = m.dom().choose();
        let rest = m.remove(id);
        lemma_versions_finite(rest);
        assert(versions_of(m, rest.dom()) =~= all_versions(rest));
        lemma_versions_step(m, rest.dom(), id);
        assert(versions_of(m, rest.dom().insert(id)) =~= all_versions(m));
    }
}

/// A history whose local rows carry the stock of the latest server row at or
/// before their own time.
pub open spec fn resynced(hist: Map<u64, CardRow>, local: Set<u64>) -> Map<u64, CardRow> {
    Map::new(
        |k: u64| hist.dom().contains(k),
        |k: u64|
            if local.contains(k) {
                match latest(hist.dom().difference(local), time_of(k)) {
                    Some(s) => CardRow { stock: hist[s].stock, ..hist[k] },
                    None => hist[k],
                }
            } else {
                hist[k]
            },
    )
}

/// `rows` lists every card's row current at `now`, once, by ascending card id.
pub open spec fn is_current_all(cards: Cards, now: u64, rows: Seq<&CardRow>) -> bool {
    &&& forall|m: int|
        0 <= m < rows.len() ==> cards.at((#[trigger] rows[m]).card_id, now) == Some(*rows[m])
    &&& forall|a: int, b: int|
        0 <= a < b < rows.len() ==> (#[trigger] rows[a]).card_id < (#[trigger] rows[b]).card_id
    &&& forall|id: u32| (#[trigger] cards.at(id, now)) is Some ==> exists|a: int|
        0 <= a < rows.len() && (#[trigger] rows[a]).card_id == id
}

/// `rows` lists every zone's row current at `now`, once, by ascending zone key.
pub open spec fn is_current_zones(zones: Zones, now: u64, rows: Seq<&ZoneRow>) -> bool {
    &&& forall|m: int|
        0 <= m < rows.len() ==> zones.at((#[trigger] rows[m]).macro_zone, now) == Some(*rows[m])
    &&& forall|a: int, b: int|
        0 <= a < b < rows.len() ==> (#[trigger] rows[a]).macro_zone < (
        #[trigger] rows[b]).macro_zone
    &&& forall|zone: u64| (#[trigger] zones.at(zone, now)) is Some ==> exists|a: int|
        0 <= a < rows.len() && (#[trigger] rows[a]).macro_zone == zone
}

/// `active` is what `judge` said of each row of the history, by ascending stamp.
pub open spec fn judged_rows<F: Fn(&CardRow) -> bool>(
    hist: Map<u64, CardRow>,
    judge: F,
    stamps: Seq<u64>,
    active: Seq<bool>,
) -> bool {
    &&& stamps_in_order(stamps, hist.dom())
    &&& active.len() == stamps.len()
    &&& forall|m: int|
        0 <= m < stamps.len() ==> call_ensures(judge, (&hist[stamps[m]],), #[trigger] active[m])
}

/// The window of the first run of active rows that has not ended by `now`.
pub fn first_window(times: &Vec<u64>, active: &Vec<bool>, now: u64) -> (w: Option<(u64, u64)>)
    requires
        times@.len() == active@.len(),
    ensures
        window_of(times@, active@, now, w),
{
    let n: usize = times.len();
    let ghost act = active@;
    let mut start: Option<usize> = None;
    let mut i: usize = 0;
    while i < n
        invariant
            n == times@.len(),
            n == active@.len(),
            act == active@,
            i <= n,
            start matches Some(s) ==> {
                &&& s < i
                &&& forall|m: int| s <= m < i ==> #[trigger] act[m]
                &&& s > 0 ==> !act[s - 1]
            },
            start is None && i > 0 ==> !act[i - 1],
            forall|a: int, b: int| #[trigger] is_run(act, a, b) && b < i ==> times@[b] <= now,
        decreases n - i,
    {
        let t: u64 = times[i];
        let on: bool = active[i];
        match start {
            None => {
                if on {
                    start = Some(i);
                }
                assert forall|a: int, b: int| #[trigger] is_run(act, a, b) && b < i + 1 implies times@[b]
                    <= now by {
                    if b == i as int {
                        assert(act[b - 1]);
                    }
                }
            },
            Some(s) => {
                if !on {
                    assert forall|a: int, b: int| #[trigger] is_run(act, a, b) && b == i as int implies a
                        == s by {
                        if a < s {
                            assert(act[s - 1]);
                        }
                        if s < a {
                            assert(act[a - 1]);
                        }
                    }
                    if t > now {
                        proof {
                            assert(is_run(act, s as int, i as int));
                            assert forall|a: int, b: int| #[trigger] is_run(act, a, b) && a < s implies run_end(
                                times@,
                                b,
                            ) <= now by {
                                if b > i {
                                    assert(act[i as int]);
                                }
                            }
                            assert(first_open_run(times@, act, now, s as int, i as int));
                        }
                        return Some((times[s], t));
                    }
                    start = None;
                } else {
                    assert forall|a: int, b: int| #[trigger] is_run(act, a, b) implies b != i as int by {}
                }
            },
        }
        i = i + 1;
    }
    match start {
        None => {
            assert forall|a: int, b: int| #[trigger] is_run(act, a, b) implies run_end(times@, b)
                <= now by {
                if b == n as int {
                    assert(act[b - 1]);
                }
            }
            None
        },
        Some(s) => {
            let last: u64 = times[n - 1];
            proof {
                assert(is_run(act, s as int, n as int));
                assert forall|a: int, b: int| #[trigger] is_run(act, a, b) && b == n as int implies a
                    == s by {
                    if a < s {
                        assert(act[s - 1]);
                    }
                    if s < a {
                        assert(act[a - 1]);
                    }
                }
                assert forall|a: int, b: int| #[trigger] is_run(act, a, b) && a < s implies run_end(
                    times@,
                    b,
                ) <= now by {}
            }
            if last > now {
                assert(first_open_run(times@, act, now, s as int, n as int));
                Some((times[s], last))
            } else {
                None
            }
        },
    }
}

/// Bitemporal zone store: per zone key, the version rows keyed by stamp.
pub struct Zones {
    by_macro: OrdMap<OrdMap<ZoneRow>>,
}

impl View for Zones {
    type V = Map<u64, Map<u64, ZoneRow>>;

    closed spec fn view(&self) -> Map<u64, Map<u64, ZoneRow>> {
        hists(self.by_macro)
    }
}

impl Zones {
    pub closed spec fn wf(&self) -> bool {
        &&& store_wf(self.by_macro)
        &&& forall|zone: u64, k: u64| #[trigger]
            holds_stamp(self@, zone, k) ==> self@[zone][k].valid_at == k
                && self@[zone][k].macro_zone == zone
    }

    /// The versions of one zone; none if the zone is unknown.
    pub open spec fn hist(&self, macro_zone: u64) -> Map<u64, ZoneRow> {
        if self@.dom().contains(macro_zone) {
            self@[macro_zone]
        } else {
            Map::empty()
        }
    }

    /// The row of `macro_zone` current at `now`.
    pub open spec fn at(&self, macro_zone: u64, now: u64) -> Option<ZoneRow> {
        current_in(self.hist(macro_zone), now)
    }

    /// A row that is current carries the zone it was asked for, and has its time.
    pub proof fn lemma_at(&self, macro_zone: u64, now: u64)
        requires
            self.wf(),
        ensures
            self.at(macro_zone, now) matches Some(row) ==> row.macro_zone == macro_zone && time_of(
                row.valid_at,
            ) <= now,
    {
        let dom = self.hist(macro_zone).dom();
        if self.at(macro_zone, now) is Some {
            let k = choose|k: u64| latest_at(dom, now, k);
            lemma_latest(dom, now, k);
            assert(holds_stamp(self@, macro_zone, k));
        }
    }

    pub fn new() -> (z: Self)
        ensures
            z.wf(),
            z@ == Map::<u64, Map<u64, ZoneRow>>::empty(),
    {
        let z = Zones { by_macro: OrdMap::new() };
        assert(z@ =~= Map::empty());
        z
    }

    /// Fold one row event into the store, as [`Cards::apply`] does for cards.
    pub fn apply(&mut self, op: RowOp, row: ZoneRow)
        requires
            old(self).wf(),
        ensures
            final(self).wf(),
            final(self)@ == match op {
                RowOp::Delete => without_version(old(self)@, row.macro_zone, row.valid_at),
                _ => with_version(old(self)@, row.macro_zone, row.valid_at, row),
            },
    {
        let ghost o = self@;
        let zone: u64 = row.macro_zone;
        let stamp: u64 = row.valid_at;
        match op {
            RowOp::Insert | RowOp::Update => {
                upsert(&mut self.by_macro, zone, stamp, row);
                assert forall|id: u64, k: u64| #[trigger] holds_stamp(self@, id, k) implies self@[id][k].valid_at
                    == k && self@[id][k].macro_zone == id by {
                    if id != zone || k != stamp {
                        assert(holds_stamp(o, id, k));
                    }
                }
            },
            RowOp::Delete => {
                drop_version(&mut self.by_macro, zone, stamp);
                assert forall|id: u64, k: u64| #[trigger] holds_stamp(self@, id, k) implies self@[id][k].valid_at
                    == k && self@[id][k].macro_zone == id by {
                    assert(holds_stamp(o, id, k));
                }
            },
        }
    }

    /// The zone current at `now_ms` for `macro_zone`.
    pub fn current(&self, macro_zone: u64, now_ms: u64) -> (r: Option<&ZoneRow>)
        requires
            self.wf(),
        ensures
            r is Some <==> self.at(macro_zone, now_ms) is Some,
            r matches Some(row) ==> Some(*row) == self.at(macro_zone, now_ms) && row.macro_zone
                == macro_zone && time_of(row.valid_at) <= now_ms,
    {
        proof {
            self.lemma_at(macro_zone, now_ms);
        }
        match self.by_macro.get(macro_zone) {
            Some(hist) => current_of(hist, now_ms),
            None => {
                proof {
                    lemma_no_latest(self.hist(macro_zone).dom(), now_ms);
                }
                None
            },
        }
    }

    /// Every zone's row current at `now_ms`, by ascending zone key; zones whose
    /// rows are all still to come are skipped.
    pub fn current_all(&self, now_ms: u64) -> (rows: Vec<&ZoneRow>)
        requires
            self.wf(),
        ensures
            is_current_zones(*self, now_ms, rows@),
    {
        proof {
            self.by_macro.lemma_ks();
        }
        let n: usize = self.by_macro.len();
        let mut rows: Vec<&ZoneRow> = Vec::new();
        let mut i: usize = 0;
        while i < n
            invariant
                self.wf(),
                n == self.by_macro.ks().len(),
                i <= n,
                ascending(self.by_macro.ks()),
                forall|zone: u64| #[trigger]
                    self.by_macro@.dom().contains(zone) <==> self.by_macro.ks().contains(zone),
                forall|m: int|
                    0 <= m < rows@.len() ==> self.at((#[trigger] rows@[m]).macro_zone, now_ms)
                        == Some(*rows@[m]),
                forall|a: int, b: int|
                    0 <= a < b < rows@.len() ==> (#[trigger] rows@[a]).macro_zone < (
                    #[trigger] rows@[b]).macro_zone,
                forall|m: int|
                    0 <= m < rows@.len() && i < n ==> (#[trigger] rows@[m]).macro_zone
                        < self.by_macro.ks()[i as int],
                forall|m: int|
                    0 <= m < i ==> (self.at(#[trigger] self.by_macro.ks()[m], now_ms) is Some
                        ==> exists|a: int|
                        0 <= a < rows@.len() && (#[trigger] rows@[a]).macro_zone
                            == self.by_macro.ks()[m]),
            decreases n - i,
        {
            let ghost zone = self.by_macro.ks()[i as int];
            let ghost before = rows@;
            assert(self@.dom().contains(zone));
            assert(self.hist(zone) == self.by_macro@[zone]@);
            match current_of(self.by_macro.val_at(i), now_ms) {
                Some(row) => {
                    proof {
                        self.lemma_at(zone, now_ms);
                    }
                    rows.push(row);
                    assert(rows@[rows@.len() - 1].macro_zone == zone);
                },
                None => {},
            }
            proof {
                assert forall|m: int| 0 <= m < i + 1 && self.at(
                    #[trigger] self.by_macro.ks()[m],
                    now_ms,
                ) is Some implies exists|a: int|
                    0 <= a < rows@.len() && (#[trigger] rows@[a]).macro_zone
                        == self.by_macro.ks()[m] by {
                    if m < i {
                        let a = choose|a: int|
                            0 <= a < before.len() && (#[trigger] before[a]).macro_zone
                                == self.by_macro.ks()[m];
                        assert(rows@[a].macro_zone == self.by_macro.ks()[m]);
                    }
                }
            }
            i = i + 1;
        }
        proof {
            assert forall|zone: u64| (#[trigger] self.at(zone, now_ms)) is Some implies exists|a: int|
                0 <= a < rows@.len() && (#[trigger] rows@[a]).macro_zone == zone by {
                if !self@.dom().contains(zone) {
                    lemma_no_latest(self.hist(zone).dom(), now_ms);
                }
                let m = self.by_macro.ks().index_of(zone);
                assert(self.by_macro.ks()[m] == zone);
            }
        }
        rows
    }

    /// The earliest moment after `now_ms` at which any zone's row promotes.
    pub fn min_future_time(&self, now_ms: u64) -> (r: Option<u64>)
        requires
            self.wf(),
        ensures
            r matches Some(t) ==> next_time(self@, now_ms, t),
            r is None ==> forall|id: u64, k: u64| #[trigger]
                holds_stamp(self@, id, k) ==> time_of(k) <= now_ms,
    {
        next_promotion(&self.by_macro, now_ms)
    }

    /// Anchor-aware sweep, with the pins of each zone itself.
    pub fn gc<F: Fn(u64) -> Vec<u64>>(&mut self, now_ms: u64, pins_for_zone: F)
        requires
            old(self).wf(),
            forall|zone: u64| #[trigger] call_requires(pins_for_zone, (zone,)),
        ensures
            final(self).wf(),
            final(self)@.dom() == old(self)@.dom(),
            forall|zone: u64| #[trigger]
                old(self)@.dom().contains(zone) ==> swept_by(
                    pins_for_zone,
                    zone,
                    now_ms,
                    old(self)@[zone],
                    final(self)@[zone],
                ),
    {
        let ghost o = *self;
        proof {
            self.by_macro.lemma_ks();
            assert(self@.dom() =~= self.by_macro@.dom());
        }
        let n: usize = self.by_macro.len();
        let ghost ids = self.by_macro.ks();
        let mut i: usize = 0;
        while i < n
            invariant
                o.wf(),
                store_wf(self.by_macro),
                self.by_macro.ks() == ids,
                n == ids.len(),
                i <= n,
                ascending(ids),
                self@.dom() == o@.dom(),
                forall|id: u64| #[trigger] o@.dom().contains(id) <==> ids.contains(id),
                forall|zone: u64| #[trigger] call_requires(pins_for_zone, (zone,)),
                forall|m: int|
                    0 <= m < i ==> swept_by(
                        pins_for_zone,
                        #[trigger] ids[m],
                        now_ms,
                        o@[ids[m]],
                        self@[ids[m]],
                    ),
                forall|m: int| i <= m < n ==> self@[#[trigger] ids[m]] == o@[ids[m]],
            decreases n - i,
        {
            let ghost before = *self;
            let zone: u64 = self.by_macro.key_at(i);
            assert(before@[zone] == o@[zone]);
            let pins = pins_for_zone(zone);
            let ghost swept_zone = swept(o@[zone], now_ms, pins@);
            match self.by_macro.get_mut(zone) {
                Some(hist) => {
                    gc_history(hist, now_ms, &pins);
                },
                None => {},
            }
            proof {
                assert(self@[zone] == swept_zone);
                assert(self@.dom() =~= o@.dom());
                assert(swept_by(pins_for_zone, zone, now_ms, o@[zone], self@[zone])) by {
                    assert(call_ensures(pins_for_zone, (zone,), pins));
                }
                assert forall|m: int| 0 <= m < n && m != i implies self@[#[trigger] ids[m]]
                    == before@[ids[m]] by {
                    assert(ids[m] != zone);
                }
            }
            i = i + 1;
        }
        proof {
            assert forall|zone: u64| #[trigger] o@.dom().contains(zone) implies swept_by(
                pins_for_zone,
                zone,
                now_ms,
                o@[zone],
                self@[zone],
            ) by {
                let m = ids.index_of(zone);
                assert(ids[m] == zone);
            }
            assert forall|id: u64, k: u64| #[trigger] holds_stamp(self@, id, k) implies self@[id][k].valid_at
                == k && self@[id][k].macro_zone == id by {
                assert(o@.dom().contains(id));
                assert(holds_stamp(o@, id, k));
            }
        }
    }

    /// The number of distinct zones known, in any version.
    pub fn len(&self) -> (n: usize)
        requires
            self.wf(),
        ensures
            n == self@.dom().len(),
    {
        assert(self@.dom() =~= self.by_macro@.dom());
        self.by_macro.len()
    }
}

/// What the stacking rules read of a card.
#[derive(Debug, Clone, Copy, PartialEq, Eq, Structural)]
pub struct CardView {
    pub card_id: u32,
    pub owner_id: u32,
    pub micro_location: u32,
    pub micro: Micro,
    pub macro_zone: u64,
    pub packed_definition: u16,
    pub flags: u32,
    pub stock: Stock,
}

/// The view of a stored row.
pub open spec fn view_of(row: CardRow) -> CardView {
    CardView {
        card_id: row.card_id,
        owner_id: row.owner_id,
        micro_location: row.micro_location,
        micro: row.micro,
        macro_zone: row.macro_zone,
        packed_definition: row.packed_definition,
        flags: row.flags,
        stock: row.stock,
    }
}

/// View a stored row.
pub fn card_view(row: &CardRow) -> (v: CardView)
    ensures
        v == view_of(*row),
{
    CardView {
        card_id: row.card_id,
        owner_id: row.owner_id,
        micro_location: row.micro_location,
        micro: row.micro,
        macro_zone: row.macro_zone,
        packed_definition: row.packed_definition,
        flags: row.flags,
        stock: row.stock,
    }
}

/// The tile a card seated on a cell mounts.
#[derive(Debug, Clone, Copy, PartialEq, Eq, Structural)]
pub struct TileView {
    pub macro_zone: u64,
    pub packed_definition: u16,
    pub stock0: u8,
    pub stock1: u8,
}

/// The row is loose in cell `(q, r)` of `zone`.
pub open spec fn on_cell(row: CardRow, zone: u64, q: u8, r: u8) -> bool {
    row.macro_zone == zone && row.micro == (Micro::Loose { local_q: q, local_r: r })
}

/// The row is a member of the stack rooted at `root`.
pub open spec fn stacked_on(row: CardRow, root: u32) -> bool {
    row.micro matches Micro::Stacked { root: at, .. } && at == root
}

/// The lowest card id current in the cell.
pub open spec fn first_on_cell(cards: Cards, zone: u64, q: u8, r: u8, now: u64, id: u32) -> bool {
    &&& cards.at(id, now) matches Some(row) && on_cell(row, zone, q, r)
    &&& forall|other: u32|
        (#[trigger] cards.at(other, now)) is Some && on_cell(cards.at(other, now)->0, zone, q, r)
            ==> id <= other
}

/// The local world: cards, zones, and the tile-cards promoted out of the zones'
/// tile grids, which are kept apart so that they never pass for player cards.
pub struct World {
    pub cards: Cards,
    pub zones: Zones,
    pub tile_cards: Cards,
}

/// Some row of the store comes due after `from`, and no later than `to`.
pub open spec fn comes_due<R>(m: Map<u64, Map<u64, R>>, from: u64, to: u64) -> bool {
    exists|id: u64, k: u64| #[trigger] holds_stamp(m, id, k) && from < time_of(k) <= to
}

impl World {
    pub open spec fn wf(&self) -> bool {
        self.cards.wf() && self.zones.wf() && self.tile_cards.wf()
    }

    /// Some row of a card, a zone or a tile-card comes due after `from`, and no later
    /// than `to`.
    pub open spec fn promotion_in(&self, from: u64, to: u64) -> bool {
        ||| comes_due(self.cards@, from, to)
        ||| comes_due(self.zones@, from, to)
        ||| comes_due(self.tile_cards@, from, to)
    }

    /// Whether a row came due while the clock went from one moment to another. No row
    /// arrives then, so that nothing else tells that there is something new to see.
    pub fn promotes(&self, from: u64, to: u64) -> (b: bool)
        requires
            self.wf(),
        ensures
            b == self.promotion_in(from, to),
    {
        let cards: bool = match self.cards.min_future_time(from) {
            Some(t) => t <= to,
            None => false,
        };
        let zones: bool = match self.zones.min_future_time(from) {
            Some(t) => t <= to,
            None => false,
        };
        let tiles: bool = match self.tile_cards.min_future_time(from) {
            Some(t) => t <= to,
            None => false,
        };
        cards || zones || tiles
    }

    pub fn new() -> (w: Self)
        ensures
            w.wf(),
            w.cards@ == Map::<u64, Map<u64, CardRow>>::empty(),
            w.zones@ == Map::<u64, Map<u64, ZoneRow>>::empty(),
            w.tile_cards@ == Map::<u64, Map<u64, CardRow>>::empty(),
    {
        World { cards: Cards::new(), zones: Zones::new(), tile_cards: Cards::new() }
    }

    /// The promoted tile-card of a cell.
    pub open spec fn tile_card_spec(&self, zone: u64, q: u8, r: u8, now: u64) -> Option<CardRow> {
        if exists|id: u32| first_on_cell(self.tile_cards, zone, q, r, now, id) {
            self.tile_cards.at(
                choose|id: u32| first_on_cell(self.tile_cards, zone, q, r, now, id),
                now,
            )
        } else {
            None
        }
    }

    /// Definition and stock of the tile-card promoted in cell `(q, r)`, current at
    /// `now_ms`. A completion stamped ahead stays hidden until its time.
    pub fn tile_card_at(&self, macro_zone: u64, q: u8, r: u8, now_ms: u64) -> (t: Option<
        (u16, u8, u8),
    >)
        requires
            self.wf(),
        ensures
            t == match self.tile_card_spec(macro_zone, q, r, now_ms) {
                Some(row) => Some((row.packed_definition, row.stock.s0, row.stock.s1)),
                None => None,
            },
    {
        let rows = self.tile_cards.current_all(now_ms);
        let n: usize = rows.len();
        let mut i: usize = 0;
        while i < n
            invariant
                is_current_all(self.tile_cards, now_ms, rows@),
                n == rows@.len(),
                forall|m: int|
                    0 <= m < i ==> !on_cell(*(#[trigger] rows@[m]), macro_zone, q, r),
            decreases n - i,
        {
            let row: CardRow = *rows[i];
            let here: bool = match row.micro {
                Micro::Loose { local_q, local_r } => local_q == q && local_r == r,
                Micro::Stacked { .. } => false,
            };
            if row.macro_zone == macro_zone && here {
                proof {
                    let id = row.card_id;
                    assert(on_cell(row, macro_zone, q, r));
                    assert forall|other: u32|
                        (#[trigger] self.tile_cards.at(other, now_ms)) is Some && on_cell(
                            self.tile_cards.at(other, now_ms)->0,
                            macro_zone,
                            q,
                            r,
                        ) implies id <= other by {
                        let a = choose|a: int|
                            0 <= a < rows@.len() && (#[trigger] rows@[a]).card_id == other;
                        assert(self.tile_cards.at(rows@[a].card_id, now_ms) == Some(*rows@[a]));
                        assert(!(a < i));
                    }
                    assert(self.tile_cards.at(rows@[i as int].card_id, now_ms) == Some(row));
                    assert(first_on_cell(self.tile_cards, macro_zone, q, r, now_ms, id));
                    let c = choose|id: u32|
                        first_on_cell(self.tile_cards, macro_zone, q, r, now_ms, id);
                    assert(first_on_cell(self.tile_cards, macro_zone, q, r, now_ms, c));
                    assert(c <= id && id <= c);
                }
                return Some((row.packed_definition, row.stock.s0, row.stock.s1));
            }
            i = i + 1;
        }
        proof {
            assert forall|id: u32| !first_on_cell(
                self.tile_cards,
                macro_zone,
                q,
                r,
                now_ms,
                id,
            ) by {
                if first_on_cell(self.tile_cards, macro_zone, q, r, now_ms, id) {
                    let a = choose|a: int|
                        0 <= a < rows@.len() && (#[trigger] rows@[a]).card_id == id;
                    assert(self.tile_cards.at(rows@[a].card_id, now_ms) == Some(*rows@[a]));
                }
            }
        }
        None
    }

    /// The view of a card current at `time_ms`.
    pub fn card_at(&self, card_id: u32, time_ms: u64) -> (v: Option<CardView>)
        requires
            self.wf(),
        ensures
            v == match self.cards.at(card_id, time_ms) {
                Some(row) => Some(view_of(row)),
                None => None,
            },
    {
        match self.cards.current(card_id, time_ms) {
            Some(row) => Some(card_view(row)),
            None => None,
        }
    }

    /// The members of the stack rooted at `root_id`, by ascending card id.
    pub fn members_of(&self, root_id: u32, now_ms: u64) -> (members: Vec<CardView>)
        requires
            self.wf(),
        ensures
            is_members(self.cards, root_id, now_ms, members@),
    {
        let rows = self.cards.current_all(now_ms);
        let n: usize = rows.len();
        let mut members: Vec<CardView> = Vec::new();
        let mut i: usize = 0;
        while i < n
            invariant
                is_current_all(self.cards, now_ms, rows@),
                n == rows@.len(),
                i <= n,
                forall|m: int|
                    0 <= m < members@.len() ==> is_member(
                        self.cards,
                        root_id,
                        now_ms,
                        #[trigger] members@[m],
                    ),
                forall|a: int, b: int|
                    0 <= a < b < members@.len() ==> (#[trigger] members@[a]).card_id < (
                    #[trigger] members@[b]).card_id,
                forall|m: int, p: int|
                    0 <= m < members@.len() && i <= p < n ==> (#[trigger] members@[m]).card_id < (
                    #[trigger] rows@[p]).card_id,
                forall|p: int|
                    0 <= p < i && stacked_on(*(#[trigger] rows@[p]), root_id) ==> exists|a: int|
                        0 <= a < members@.len() && (#[trigger] members@[a]).card_id
                            == rows@[p].card_id,
            decreases n - i,
        {
            let row: CardRow = *rows[i];
            assert(self.cards.at(rows@[i as int].card_id, now_ms) == Some(row));
            let mine: bool = match row.micro {
                Micro::Stacked { root, .. } => root == root_id,
                Micro::Loose { .. } => false,
            };
            let ghost before = members@;
            if mine {
                members.push(card_view(&row));
                assert(members@[members@.len() - 1].card_id == row.card_id);
            }
            proof {
                assert forall|p: int|
                    0 <= p < i + 1 && stacked_on(*(#[trigger] rows@[p]), root_id) implies exists|
                    a: int,
                |
                    0 <= a < members@.len() && (#[trigger] members@[a]).card_id
                        == rows@[p].card_id by {
                    if p < i {
                        let a = choose|a: int|
                            0 <= a < before.len() && (#[trigger] before[a]).card_id
                                == rows@[p].card_id;
                        assert(members@[a].card_id == rows@[p].card_id);
                    }
                }
            }
            i = i + 1;
        }
        proof {
            assert forall|id: u32|
                (#[trigger] self.cards.at(id, now_ms)) is Some && stacked_on(
                    self.cards.at(id, now_ms)->0,
                    root_id,
                ) implies exists|a: int|
                0 <= a < members@.len() && (#[trigger] members@[a]).card_id == id by {
                let p = choose|p: int| 0 <= p < rows@.len() && (#[trigger] rows@[p]).card_id == id;
                assert(self.cards.at(rows@[p].card_id, now_ms) == Some(*rows@[p]));
            }
        }
        members
    }

    /// The tile of cell `(q, r)`: what the promoted tile-card says, or else the
    /// zone's grid slot. None if the zone is not loaded or the cell is empty.
    pub open spec fn tile_spec(&self, macro_zone: u64, q: u8, r: u8, now: u64) -> Option<TileView> {
        match self.zones.at(macro_zone, now) {
            None => None,
            Some(zone) => match self.tile_card_spec(macro_zone, q, r, now) {
                Some(row) => Some(
                    TileView {
                        macro_zone,
                        packed_definition: row.packed_definition,
                        stock0: row.stock.s0,
                        stock1: row.stock.s1,
                    },
                ),
                None => match zone.tile_spec(q, r) {
                    Some(slot) => Some(
                        TileView {
                            macro_zone,
                            packed_definition: slot.packed,
                            stock0: slot.stock0,
                            stock1: slot.stock1,
                        },
                    ),
                    None => None,
                },
            },
        }
    }

    pub fn tile_at(&self, macro_zone: u64, q: u8, r: u8, now_ms: u64) -> (t: Option<TileView>)
        requires
            self.wf(),
        ensures
            t == self.tile_spec(macro_zone, q, r, now_ms),
    {
        match self.zones.current(macro_zone, now_ms) {
            None => None,
            Some(zone) => match self.tile_card_at(macro_zone, q, r, now_ms) {
                Some((packed_definition, stock0, stock1)) => Some(
                    TileView { macro_zone, packed_definition, stock0, stock1 },
                ),
                None => match zone.tile(q, r) {
                    Some(slot) => Some(
                        TileView {
                            macro_zone,
                            packed_definition: slot.packed,
                            stock0: slot.stock0,
                            stock1: slot.stock1,
                        },
                    ),
                    None => None,
                },
            },
        }
    }

    /// Terrain is tracked: a cell without a tile is known to have none.
    pub fn tracks_tiles(&self) -> (b: bool)
        ensures
            b,
    {
        true
    }
}

/// `v` is the view of a card stacked on `root`.
pub open spec fn is_member(cards: Cards, root: u32, now: u64, v: CardView) -> bool {
    &&& cards.at(v.card_id, now) matches Some(row) && stacked_on(row, root) && v == view_of(row)
}

/// `members` lists the members of the stack rooted at `root`, once, by ascending
/// card id.
pub open spec fn is_members(cards: Cards, root: u32, now: u64, members: Seq<CardView>) -> bool {
    &&& forall|m: int| 0 <= m < members.len() ==> is_member(cards, root, now, #[trigger] members[m])
    &&& forall|a: int, b: int|
        0 <= a < b < members.len() ==> (#[trigger] members[a]).card_id < (
        #[trigger] members[b]).card_id
    &&& forall|id: u32|
        (#[trigger] cards.at(id, now)) is Some && stacked_on(cards.at(id, now)->0, root)
            ==> exists|a: int| 0 <= a < members.len() && (#[trigger] members[a]).card_id == id
}

/// What is current changes only where a row comes due: if none does between two moments,
/// each of them shows the same.
pub proof fn law_only_promotions_show(world: World, from: u64, to: u64, id: u32, zone: u64)
    requires
        world.wf(),
        from <= to,
        !world.promotion_in(from, to),
    ensures
        world.cards.at(id, from) == world.cards.at(id, to),
        world.tile_cards.at(id, from) == world.tile_cards.at(id, to),
        world.zones.at(zone, from) == world.zones.at(zone, to),
{
    if world.cards@.dom().contains(id as u64) {
        lemma_nothing_due(world.cards@, from, to, id as u64);
    }
    if world.tile_cards@.dom().contains(id as u64) {
        lemma_nothing_due(world.tile_cards@, from, to, id as u64);
    }
    if world.zones@.dom().contains(zone) {
        lemma_nothing_due(world.zones@, from, to, zone);
    }
    lemma_no_latest(Set::empty(), from);
    lemma_no_latest(Set::empty(), to);
    assert(Map::<u64, CardRow>::empty().dom() =~= Set::empty());
    assert(Map::<u64, ZoneRow>::empty().dom() =~= Set::empty());
}

proof fn lemma_nothing_due<R>(m: Map<u64, Map<u64, R>>, from: u64, to: u64, id: u64)
    requires
        from <= to,
        !comes_due(m, from, to),
        m.dom().contains(id),
    ensures
        current_in(m[id], from) == current_in(m[id], to),
{
    let dom = m[id].dom();
    assert forall|k: u64| dom.contains(k) implies (time_of(k) <= from <==> time_of(k) <= to) by {
        assert(holds_stamp(m, id, k));
    }
    if exists|k: u64| latest_at(dom, from, k) {
        let k = choose|k: u64| latest_at(dom, from, k);
        assert(latest_at(dom, to, k));
        lemma_latest(dom, from, k);
        lemma_latest(dom, to, k);
    } else if exists|k: u64| latest_at(dom, to, k) {
        let k = choose|k: u64| latest_at(dom, to, k);
        assert(latest_at(dom, from, k));
    }
}

/// No card is kept without a version: a store without cards is one without versions, and
/// there are at least as many versions as cards.
pub proof fn law_no_card_without_a_version(cards: Cards)
    requires
        cards.wf(),
    ensures
        cards@.dom() == Set::<u64>::empty() <==> cards@.dom().len() == 0,
        cards@.dom().len() == 0 <==> all_versions(cards@).len() == 0,
        cards@.dom().len() <= all_versions(cards@).len(),
{
    cards.lemma_wf();
    lemma_versions_finite(cards@);
    let f = |p: (u64, u64)| p.0;
    let ids = all_versions(cards@).map(f);
    assert forall|id: u64| #[trigger] cards@.dom().contains(id) implies ids.contains(id) by {
        let k = cards@[id].dom().choose();
        assert(holds_stamp(cards@, id, k));
        assert(all_versions(cards@).contains((id, k)));
        assert(f((id, k)) == id);
    }
    assert(ids =~= cards@.dom());
    vstd::set_lib::lemma_map_size_bound(all_versions(cards@), cards@.dom(), f);
    if cards@.dom().len() == 0 {
        assert(cards@.dom() =~= Set::empty());
        assert(all_versions(cards@) =~= Set::empty());
    }
}

/// The pins of a zone are the same however often they are asked for.
pub open spec fn is_pure<F: Fn(u64) -> Vec<u64>>(pins_for_zone: F) -> bool {
    forall|zone: u64, a: Vec<u64>, b: Vec<u64>| #[trigger]
        call_ensures(pins_for_zone, (zone,), a) && #[trigger] call_ensures(
            pins_for_zone,
            (zone,),
            b,
        ) ==> a@ == b@
}

/// The moment is pinned in the zone.
pub open spec fn is_pin<F: Fn(u64) -> Vec<u64>>(pins_for_zone: F, zone: u64, t: u64) -> bool {
    exists|pins: Vec<u64>| #[trigger]
        call_ensures(pins_for_zone, (zone,), pins) && pins@.contains(t)
}

/// A sweep of the zones keeps what every zone shows: now, at every later moment, and at
/// every moment that is pinned in it. What it keeps of a zone is still to come, current
/// now, or current at a pin, and no zone is lost.
pub proof fn law_zone_sweep<F: Fn(u64) -> Vec<u64>>(
    before: Zones,
    after: Zones,
    pins_for_zone: F,
    now: u64,
    zone: u64,
)
    requires
        is_pure(pins_for_zone),
        after@.dom() == before@.dom(),
        forall|z: u64| #[trigger]
            before@.dom().contains(z) ==> swept_by(
                pins_for_zone,
                z,
                now,
                before@[z],
                after@[z],
            ),
    ensures
        forall|t: u64|
            t >= now || is_pin(pins_for_zone, zone, t) ==> #[trigger] after.at(zone, t)
                == before.at(zone, t),
        forall|k: u64| #[trigger]
            after.hist(zone).dom().contains(k) ==> before.hist(zone).dom().contains(k)
                && after.hist(zone)[k] == before.hist(zone)[k] && (time_of(k) > now || latest_at(
                before.hist(zone).dom(),
                now,
                k,
            ) || exists|t: u64| #[trigger]
                is_pin(pins_for_zone, zone, t) && latest_at(before.hist(zone).dom(), t, k)),
        after@.dom().len() == before@.dom().len(),
{
    if before@.dom().contains(zone) {
        lemma_swept_by(pins_for_zone, zone, now, before@[zone], after@[zone]);
        assert(after.hist(zone) == after@[zone]);
    }
}

/// A sweep of the cards keeps what every card shows: now, at every later moment, and at
/// every moment that is pinned in the zone it is in. No card is lost.
pub proof fn law_card_sweep<F: Fn(u64) -> Vec<u64>>(
    before: Cards,
    after: Cards,
    pins_for_zone: F,
    now: u64,
    id: u32,
)
    requires
        is_pure(pins_for_zone),
        after@.dom() == before@.dom(),
        forall|c: u64| #[trigger]
            before@.dom().contains(c) ==> swept_by(
                pins_for_zone,
                before.home(c, now),
                now,
                before@[c],
                after@[c],
            ),
    ensures
        forall|t: u64|
            t >= now || is_pin(pins_for_zone, before.home(id as u64, now), t) ==> #[trigger] after.at(
                id,
                t,
            ) == before.at(id, t),
        forall|k: u64| #[trigger]
            after.hist(id).dom().contains(k) ==> before.hist(id).dom().contains(k) && after.hist(
                id,
            )[k] == before.hist(id)[k] && (time_of(k) > now || latest_at(
                before.hist(id).dom(),
                now,
                k,
            ) || exists|t: u64| #[trigger]
                is_pin(pins_for_zone, before.home(id as u64, now), t) && latest_at(
                    before.hist(id).dom(),
                    t,
                    k,
                )),
        after@.dom().len() == before@.dom().len(),
{
    let c = id as u64;
    if before@.dom().contains(c) {
        lemma_swept_by(pins_for_zone, before.home(c, now), now, before@[c], after@[c]);
        assert(after.hist(id) == after@[c]);
    }
}

proof fn lemma_swept_by<R, F: Fn(u64) -> Vec<u64>>(
    pins_for_zone: F,
    zone: u64,
    now: u64,
    before: Map<u64, R>,
    after: Map<u64, R>,
)
    requires
        is_pure(pins_for_zone),
        swept_by(pins_for_zone, zone, now, before, after),
    ensures
        forall|t: u64|
            t >= now || is_pin(pins_for_zone, zone, t) ==> #[trigger] current_in(after, t)
                == current_in(before, t),
        forall|k: u64| #[trigger]
            after.dom().contains(k) ==> before.dom().contains(k) && after[k] == before[k] && (
            time_of(k) > now || latest_at(before.dom(), now, k) || exists|t: u64| #[trigger]
                is_pin(pins_for_zone, zone, t) && latest_at(before.dom(), t, k)),
{
    let pins = choose|pins: Vec<u64>| #[trigger]
        call_ensures(pins_for_zone, (zone,), pins) && after == swept(before, now, pins@);
    assert forall|t: u64| t >= now || is_pin(pins_for_zone, zone, t) implies #[trigger] current_in(
        after,
        t,
    ) == current_in(before, t) by {
        if t >= now {
            law_sweep_keeps_present(before, now, pins@, t);
        } else {
            let other = choose|p: Vec<u64>| #[trigger]
                call_ensures(pins_for_zone, (zone,), p) && p@.contains(t);
            assert(other@ == pins@);
            let i = pins@.index_of(t);
            law_sweep_keeps_pinned(before, now, pins@, i);
        }
    }
    assert forall|k: u64| #[trigger] after.dom().contains(k) implies before.dom().contains(k)
        && after[k] == before[k] && (time_of(k) > now || latest_at(before.dom(), now, k)
        || exists|t: u64| #[trigger]
        is_pin(pins_for_zone, zone, t) && latest_at(before.dom(), t, k)) by {
        assert(kept(before.dom(), now, pins@, k));
        if exists|i: int| 0 <= i < pins@.len() && latest_at(before.dom(), #[trigger] pins@[i], k) {
            let i = choose|i: int|
                0 <= i < pins@.len() && latest_at(before.dom(), #[trigger] pins@[i], k);
            assert(pins@.contains(pins@[i]));
            assert(is_pin(pins_for_zone, zone, pins@[i]));
        }
    }
}

/// Pinning a position and resyncing the stock touch different halves of a row:
/// the one keeps the stock and the stamp, the other keeps the position and the stamp.
pub proof fn law_pin_and_resync_are_dual(
    hist: Map<u64, CardRow>,
    k: u64,
    to: Position,
    pmask: u32,
    local: Set<u64>,
)
    requires
        hist.dom().contains(k),
    ensures
        to.place(hist[k], pmask).stock == hist[k].stock,
        to.place(hist[k], pmask).valid_at == hist[k].valid_at,
        resynced(hist, local)[k].macro_zone == hist[k].macro_zone,
        resynced(hist, local)[k].micro == hist[k].micro,
        resynced(hist, local)[k].micro_location == hist[k].micro_location,
        resynced(hist, local)[k].flags == hist[k].flags,
        resynced(hist, local)[k].valid_at == hist[k].valid_at,
        !local.contains(k) ==> resynced(hist, local)[k] == hist[k],
{
}

} // verus!
