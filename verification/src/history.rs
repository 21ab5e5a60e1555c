//! Version histories: rows of one id keyed by their stamp.
use vstd::prelude::*;

use crate::ordmap::OrdMap;
use crate::rows::stamp_time_ms;

verus! {

use crate::rows::time_of;

/// `k` is the last stamp at or before `now`.
pub open spec fn latest_at(dom: Set<u64>, now: u64, k: u64) -> bool {
    &&& dom.contains(k)
    &&& time_of(k) <= now
    &&& forall|j: u64| #[trigger] dom.contains(j) && time_of(j) <= now ==> j <= k
}

/// The last stamp at or before `now`, if there is one.
pub open spec fn latest(dom: Set<u64>, now: u64) -> Option<u64> {
    if exists|k: u64| latest_at(dom, now, k) {
        Some(choose|k: u64| latest_at(dom, now, k))
    } else {
        None
    }
}

/// `k` is the first stamp after `now`.
pub open spec fn next_at(dom: Set<u64>, now: u64, k: u64) -> bool {
    &&& dom.contains(k)
    &&& time_of(k) > now
    &&& forall|j: u64| #[trigger] dom.contains(j) && time_of(j) > now ==> k <= j
}

/// `latest` is the stamp that `latest_at` describes.
pub proof fn lemma_latest(dom: Set<u64>, now: u64, k: u64)
    requires
        latest_at(dom, now, k),
    ensures
        latest(dom, now) == Some(k),
{
    let c = choose|k: u64| latest_at(dom, now, k);
    assert(latest_at(dom, now, c));
    assert(c == k);
}

/// With no stamp at or before `now` there is no latest one.
pub proof fn lemma_no_latest(dom: Set<u64>, now: u64)
    requires
        forall|j: u64| #[trigger] dom.contains(j) ==> time_of(j) > now,
    ensures
        latest(dom, now) is None,
{
}

/// What a sweep keeps: rows still to come, the row current at `now`, and the rows
/// that were current at each pinned moment.
pub open spec fn kept(dom: Set<u64>, now: u64, pins: Seq<u64>, k: u64) -> bool {
    &&& dom.contains(k)
    &&& {
        ||| time_of(k) > now
        ||| latest_at(dom, now, k)
        ||| exists|i: int| 0 <= i < pins.len() && latest_at(dom, #[trigger] pins[i], k)
    }
}

/// The history a sweep leaves behind.
pub open spec fn swept<R>(hist: Map<u64, R>, now: u64, pins: Seq<u64>) -> Map<u64, R> {
    hist.restrict(Set::new(|k: u64| kept(hist.dom(), now, pins, k)))
}

/// The stamp of the row current at `now`.
pub fn current_key<R>(hist: &OrdMap<R>, now: u64) -> (r: Option<u64>)
    requires
        hist.wf(),
    ensures
        r == latest(hist@.dom(), now),
        r matches Some(k) ==> latest_at(hist@.dom(), now, k),
{
    proof {
        hist.lemma_ks();
    }
    let mut i: usize = hist.len();
    while i > 0
        invariant
            hist.wf(),
            i <= hist.ks().len(),
            crate::ordmap::ascending(hist.ks()),
            forall|j: int| i <= j < hist.ks().len() ==> time_of(#[trigger] hist.ks()[j]) > now,
            forall|k: u64| #[trigger] hist@.dom().contains(k) <==> hist.ks().contains(k),
        decreases i,
    {
        let k: u64 = hist.key_at(i - 1);
        if stamp_time_ms(k) <= now {
            proof {
                assert forall|j: u64| #[trigger] hist@.dom().contains(j) && time_of(j)
                    <= now implies j <= k by {
                    let p = hist.ks().index_of(j);
                    assert(hist.ks()[p] == j);
                }
                lemma_latest(hist@.dom(), now, k);
            }
            return Some(k);
        }
        i = i - 1;
    }
    proof {
        assert forall|j: u64| #[trigger] hist@.dom().contains(j) implies time_of(j) > now by {
            let p = hist.ks().index_of(j);
            assert(hist.ks()[p] == j);
        }
        lemma_no_latest(hist@.dom(), now);
    }
    None
}

/// The row current at `now`: the latest one stamped at or before it.
pub fn current_of<R>(hist: &OrdMap<R>, now: u64) -> (r: Option<&R>)
    requires
        hist.wf(),
    ensures
        r is Some <==> latest(hist@.dom(), now) is Some,
        r matches Some(row) ==> *row == hist@[latest(hist@.dom(), now)->0],
{
    match current_key(hist, now) {
        Some(k) => hist.get(k),
        None => None,
    }
}

/// The stamp of the next row to come.
pub fn next_key<R>(hist: &OrdMap<R>, now: u64) -> (r: Option<u64>)
    requires
        hist.wf(),
    ensures
        r matches Some(k) ==> next_at(hist@.dom(), now, k),
        r is None ==> forall|j: u64| #[trigger] hist@.dom().contains(j) ==> time_of(j) <= now,
{
    proof {
        hist.lemma_ks();
    }
    let n: usize = hist.len();
    let mut i: usize = 0;
    while i < n
        invariant
            hist.wf(),
            n == hist.ks().len(),
            crate::ordmap::ascending(hist.ks()),
            forall|j: int| 0 <= j < i ==> time_of(#[trigger] hist.ks()[j]) <= now,
            forall|k: u64| #[trigger] hist@.dom().contains(k) <==> hist.ks().contains(k),
        decreases n - i,
    {
        let k: u64 = hist.key_at(i);
        if stamp_time_ms(k) > now {
            proof {
                assert forall|j: u64| #[trigger] hist@.dom().contains(j) && time_of(j)
                    > now implies k <= j by {
                    let p = hist.ks().index_of(j);
                    assert(hist.ks()[p] == j);
                }
            }
            return Some(k);
        }
        i = i + 1;
    }
    proof {
        assert forall|j: u64| #[trigger] hist@.dom().contains(j) implies time_of(j) <= now by {
            let p = hist.ks().index_of(j);
            assert(hist.ks()[p] == j);
        }
    }
    None
}

/// Anchor-aware sweep of one history: keep every row still to come, the row
/// current at `now`, and the row current at each pinned moment; drop the rest.
pub fn gc_history<R>(hist: &mut OrdMap<R>, now: u64, pins: &Vec<u64>)
    requires
        old(hist).wf(),
    ensures
        final(hist).wf(),
        final(hist)@ == swept(old(hist)@, now, pins@),
        old(hist)@.dom().len() > 0 ==> final(hist)@.dom().len() > 0,
{
    let ghost o = hist@;
    let ghost oks = hist.ks();
    proof {
        hist.lemma_ks();
    }
    let current: Option<u64> = current_key(hist, now);
    // The stamps current at each pin.
    let mut pinned: Vec<u64> = Vec::new();
    let np: usize = pins.len();
    let mut p: usize = 0;
    while p < np
        invariant
            hist.wf(),
            hist@ == o,
            p <= np,
            np == pins@.len(),
            forall|k: u64| #[trigger]
                pinned@.contains(k) <==> exists|i: int|
                    0 <= i < p && latest_at(o.dom(), #[trigger] pins@[i], k),
        decreases np - p,
    {
        let ghost before = pinned@;
        let c = current_key(hist, pins[p]);
        if let Some(k) = c {
            pinned.push(k);
            proof {
                assert(pinned@[pinned@.len() - 1] == k);
                assert forall|x: u64| pinned@.contains(x) <==> (x == k || before.contains(x)) by {
                    if before.contains(x) {
                        let q = before.index_of(x);
                        assert(pinned@[q] == x);
                    }
                    if pinned@.contains(x) && x != k {
                        let q = pinned@.index_of(x);
                        assert(before[q] == x);
                    }
                }
            }
        }
        proof {
            assert forall|k: u64| #[trigger] pinned@.contains(k) <==> exists|i: int|
                0 <= i < p + 1 && latest_at(o.dom(), #[trigger] pins@[i], k) by {
                if latest_at(o.dom(), pins@[p as int], k) {
                    lemma_latest(o.dom(), pins@[p as int], k);
                }
                if before.contains(k) {
                    let i = choose|i: int|
                        0 <= i < p && latest_at(o.dom(), #[trigger] pins@[i], k);
                    assert(latest_at(o.dom(), pins@[i], k));
                }
                if pinned@.contains(k) && !before.contains(k) {
                    assert(latest_at(o.dom(), pins@[p as int], k));
                }
            }
        }
        p = p + 1;
    }
    // Which rows to drop.
    let mut doomed: Vec<u64> = Vec::new();
    let n: usize = hist.len();
    let mut i: usize = 0;
    while i < n
        invariant
            hist.wf(),
            hist@ == o,
            hist.ks() == oks,
            i <= n,
            n == oks.len(),
            np == pins@.len(),
            current == latest(o.dom(), now),
            current matches Some(k) ==> latest_at(o.dom(), now, k),
            forall|k: u64| #[trigger] o.dom().contains(k) <==> oks.contains(k),
            forall|k: u64| #[trigger]
                pinned@.contains(k) <==> exists|j: int|
                    0 <= j < np && latest_at(o.dom(), #[trigger] pins@[j], k),
            forall|k: u64| #[trigger]
                doomed@.contains(k) <==> !kept(o.dom(), now, pins@, k) && exists|j: int|
                    0 <= j < i && #[trigger] oks[j] == k,
        decreases n - i,
    {
        let k: u64 = hist.key_at(i);
        let mut keep: bool = stamp_time_ms(k) > now;
        if let Some(c) = current {
            if c == k {
                keep = true;
            }
        }
        if !keep {
            keep = has(&pinned, k);
        }
        let ghost before = doomed@;
        proof {
            if latest_at(o.dom(), now, k) {
                lemma_latest(o.dom(), now, k);
            }
            assert(keep == kept(o.dom(), now, pins@, k));
        }
        if !keep {
            doomed.push(k);
            proof {
                assert(doomed@[doomed@.len() - 1] == k);
                assert forall|x: u64| doomed@.contains(x) <==> (x == k || before.contains(x)) by {
                    if before.contains(x) {
                        let q = before.index_of(x);
                        assert(doomed@[q] == x);
                    }
                    if doomed@.contains(x) && x != k {
                        let q = doomed@.index_of(x);
                        assert(before[q] == x);
                    }
                }
            }
        }
        proof {
            assert forall|x: u64| #[trigger] doomed@.contains(x) <==> !kept(o.dom(), now, pins@, x)
                && exists|j: int| 0 <= j < i + 1 && #[trigger] oks[j] == x by {
                if x == k {
                    assert(oks[i as int] == k);
                }
                if before.contains(x) {
                    let j = choose|j: int| 0 <= j < i && #[trigger] oks[j] == x;
                    assert(oks[j] == x);
                }
            }
        }
        i = i + 1;
    }
    proof {
        assert forall|k: u64| #[trigger] doomed@.contains(k) <==> !kept(o.dom(), now, pins@, k)
            && o.dom().contains(k) by {
            if o.dom().contains(k) {
                let j = oks.index_of(k);
                assert(oks[j] == k);
            }
            if doomed@.contains(k) {
                let j = choose|j: int| 0 <= j < n && #[trigger] oks[j] == k;
                assert(oks.contains(k));
            }
        }
    }
    let m: usize = doomed.len();
    let mut d: usize = 0;
    while d < m
        invariant
            hist.wf(),
            d <= m,
            m == doomed@.len(),
            hist@ == o.remove_keys(Set::new(|k: u64| exists|j: int| 0 <= j < d && doomed@[j] == k)),
        decreases m - d,
    {
        let ghost was = hist@;
        hist.remove(doomed[d]);
        proof {
            assert(hist@ =~= o.remove_keys(
                Set::new(|k: u64| exists|j: int| 0 <= j < d + 1 && doomed@[j] == k),
            )) by {
                let done = Set::new(|k: u64| exists|j: int| 0 <= j < d && doomed@[j] == k);
                let next = Set::new(|k: u64| exists|j: int| 0 <= j < d + 1 && doomed@[j] == k);
                assert forall|k: u64| #[trigger] next.contains(k) <==> (k == doomed@[d as int]
                    || done.contains(k)) by {
                    if done.contains(k) {
                        let j = choose|j: int| 0 <= j < d && doomed@[j] == k;
                        assert(doomed@[j] == k);
                    }
                }
            }
        }
        d = d + 1;
    }
    proof {
        let gone = Set::new(|k: u64| exists|j: int| 0 <= j < m && doomed@[j] == k);
        assert forall|k: u64| #[trigger] gone.contains(k) <==> doomed@.contains(k) by {
            if doomed@.contains(k) {
                let j = doomed@.index_of(k);
                assert(doomed@[j] == k);
            }
        }
        assert(hist@ =~= swept(o, now, pins@));
        hist.lemma_ks();
        if o.dom().len() > 0 {
            // Either some row is still to come, or one is current.
            let last = oks[oks.len() - 1];
            assert(oks.contains(last));
            if time_of(last) <= now {
                assert(latest_at(o.dom(), now, last)) by {
                    assert forall|j: u64| #[trigger] o.dom().contains(j) implies j <= last by {
                        let q = oks.index_of(j);
                        assert(oks[q] == j);
                    }
                }
            }
            assert(kept(o.dom(), now, pins@, last));
            assert(hist@.dom().contains(last));
            assert(hist@.dom().len() > 0) by {
                if hist@.dom().len() == 0 {
                    assert(hist.ks().len() == 0);
                    assert(hist.ks().contains(last));
                }
            }
        }
    }
}

/// The row current at `now`.
pub open spec fn current_in<R>(hist: Map<u64, R>, now: u64) -> Option<R> {
    match latest(hist.dom(), now) {
        Some(k) => Some(hist[k]),
        None => None,
    }
}

/// The histories of a store, by id.
pub open spec fn hists<R>(by: OrdMap<OrdMap<R>>) -> Map<u64, Map<u64, R>> {
    Map::new(|k: u64| by@.dom().contains(k), |k: u64| by@[k]@)
}

/// A sound store: every known id has at least one version.
pub open spec fn store_wf<R>(by: OrdMap<OrdMap<R>>) -> bool {
    &&& by.wf()
    &&& forall|k: u64| #[trigger]
        by@.dom().contains(k) ==> by@[k].wf() && by@[k]@.dom().len() > 0
}

/// A store with one version inserted or overwritten.
pub open spec fn with_version<R>(m: Map<u64, Map<u64, R>>, id: u64, stamp: u64, row: R) -> Map<
    u64,
    Map<u64, R>,
> {
    if m.dom().contains(id) {
        m.insert(id, m[id].insert(stamp, row))
    } else {
        m.insert(id, Map::empty().insert(stamp, row))
    }
}

/// A store with one version dropped; an id without versions left is forgotten.
pub open spec fn without_version<R>(m: Map<u64, Map<u64, R>>, id: u64, stamp: u64) -> Map<
    u64,
    Map<u64, R>,
> {
    if !m.dom().contains(id) {
        m
    } else if m[id].remove(stamp).dom().len() == 0 {
        m.remove(id)
    } else {
        m.insert(id, m[id].remove(stamp))
    }
}

/// Insert or overwrite one version.
pub fn upsert<R>(by: &mut OrdMap<OrdMap<R>>, id: u64, stamp: u64, row: R)
    requires
        store_wf(*old(by)),
    ensures
        store_wf(*final(by)),
        hists(*final(by)) == with_version(hists(*old(by)), id, stamp, row),
{
    let ghost o = hists(*by);
    let mut hist = match by.remove(id) {
        Some(h) => h,
        None => OrdMap::new(),
    };
    hist.insert(stamp, row);
    proof {
        hist.lemma_ks();
        assert(hist@.dom().contains(stamp));
        if hist@.dom().len() == 0 {
            assert(hist.ks().contains(stamp));
        }
    }
    by.insert(id, hist);
    assert(hists(*by) =~= with_version(o, id, stamp, row));
}

/// Drop one version, and the id with its last version.
pub fn drop_version<R>(by: &mut OrdMap<OrdMap<R>>, id: u64, stamp: u64)
    requires
        store_wf(*old(by)),
    ensures
        store_wf(*final(by)),
        hists(*final(by)) == without_version(hists(*old(by)), id, stamp),
{
    let ghost o = hists(*by);
    match by.remove(id) {
        Some(mut hist) => {
            hist.remove(stamp);
            if hist.len() > 0 {
                by.insert(id, hist);
            }
        },
        None => {},
    }
    assert(hists(*by) =~= without_version(o, id, stamp));
}

/// `t` is the earliest moment after `now` at which some row of the store promotes.
pub open spec fn next_time<R>(m: Map<u64, Map<u64, R>>, now: u64, t: u64) -> bool {
    &&& t > now
    &&& exists|id: u64, k: u64| #[trigger] holds_stamp(m, id, k) && time_of(k) == t
    &&& forall|id: u64, k: u64| #[trigger] holds_stamp(m, id, k) && time_of(k) > now ==> t <= time_of(k)
}

/// The store holds a version of `id` stamped `k`.
pub open spec fn holds_stamp<R>(m: Map<u64, Map<u64, R>>, id: u64, k: u64) -> bool {
    m.dom().contains(id) && m[id].dom().contains(k)
}

/// The earliest moment after `now` at which a row of the store promotes.
pub fn next_promotion<R>(by: &OrdMap<OrdMap<R>>, now: u64) -> (r: Option<u64>)
    requires
        store_wf(*by),
    ensures
        r matches Some(t) ==> next_time(hists(*by), now, t),
        r is None ==> forall|id: u64, k: u64| #[trigger]
            holds_stamp(hists(*by), id, k) ==> time_of(k) <= now,
{
    let ghost m = hists(*by);
    proof {
        by.lemma_ks();
    }
    let n: usize = by.len();
    let mut best: Option<u64> = None;
    let mut i: usize = 0;
    while i < n
        invariant
            store_wf(*by),
            n == by.ks().len(),
            i <= n,
            m == hists(*by),
            best matches Some(t) ==> t > now && exists|id: u64, k: u64| #[trigger]
                holds_stamp(m, id, k) && time_of(k) == t,
            forall|j: int, k: u64|
                #![trigger holds_stamp(m, by.ks()[j], k)]
                0 <= j < i && holds_stamp(m, by.ks()[j], k) && time_of(k) > now ==> best is Some
                    && best->0 <= time_of(k),
        decreases n - i,
    {
        let hist = by.val_at(i);
        let ghost id = by.ks()[i as int];
        let next = next_key(hist, now);
        let ghost before = best;
        if let Some(k) = next {
            let t: u64 = stamp_time_ms(k);
            assert(holds_stamp(m, id, k));
            let closer: bool = match best {
                None => true,
                Some(b) => t < b,
            };
            if closer {
                best = Some(t);
            }
        }
        proof {
            assert forall|k: u64| #[trigger]
                holds_stamp(m, id, k) && time_of(k) > now implies best is Some && best->0
                <= time_of(k) by {
                assert(hist@.dom().contains(k));
            }
            assert forall|j: int, k: u64| 0 <= j < i + 1 && #[trigger]
                holds_stamp(m, by.ks()[j], k) && time_of(k) > now implies best is Some && best->0
                <= time_of(k) by {
                if j < i {
                    assert(holds_stamp(m, by.ks()[j], k));
                }
            }
        }
        i = i + 1;
    }
    proof {
        assert forall|id: u64, k: u64| #[trigger]
            holds_stamp(m, id, k) && time_of(k) > now implies best is Some && best->0 <= time_of(
            k,
        ) by {
            assert(by@.dom().contains(id));
            let j = by.ks().index_of(id);
            assert(by.ks()[j] == id);
            assert(holds_stamp(m, by.ks()[j], k));
        }
    }
    best
}

/// Whether `v` holds `k`.
pub fn has(v: &Vec<u64>, k: u64) -> (b: bool)
    ensures
        b == v@.contains(k),
{
    let n: usize = v.len();
    let mut i: usize = 0;
    while i < n
        invariant
            n == v@.len(),
            forall|j: int| 0 <= j < i ==> v@[j] != k,
        decreases n - i,
    {
        if v[i] == k {
            assert(v@[i as int] == k);
            return true;
        }
        i = i + 1;
    }
    false
}

/// A sweep changes nothing about the present or the future: at `now` and at any
/// later moment the same row is current.
pub proof fn law_sweep_keeps_present<R>(hist: Map<u64, R>, now: u64, pins: Seq<u64>, t: u64)
    requires
        t >= now,
    ensures
        current_in(swept(hist, now, pins), t) == current_in(hist, t),
{
    let dom = hist.dom();
    let left = swept(hist, now, pins).dom();
    if exists|k: u64| latest_at(dom, t, k) {
        let k = choose|k: u64| latest_at(dom, t, k);
        if time_of(k) <= now {
            assert(latest_at(dom, now, k));
        }
        assert(kept(dom, now, pins, k));
        assert(latest_at(left, t, k));
        lemma_latest(dom, t, k);
        lemma_latest(left, t, k);
    } else if exists|k: u64| latest_at(left, t, k) {
        let k = choose|k: u64| latest_at(left, t, k);
        // A kept row that is not the latest of all would have been dropped.
        if exists|j: u64| dom.contains(j) && time_of(j) <= t && j > k {
            let j = choose|j: u64| dom.contains(j) && time_of(j) <= t && j > k;
            lemma_some_latest(dom, t, j);
        }
        assert(latest_at(dom, t, k));
    }
}

/// Between a stamp at or before `t` and the last possible one there is a latest.
proof fn lemma_some_latest(dom: Set<u64>, t: u64, j: u64)
    requires
        dom.contains(j),
        time_of(j) <= t,
    ensures
        exists|k: u64| latest_at(dom, t, k),
    decreases u64::MAX - j,
{
    if latest_at(dom, t, j) {
    } else {
        let m = choose|m: u64| #[trigger] dom.contains(m) && time_of(m) <= t && !(m <= j);
        lemma_some_latest(dom, t, m);
    }
}

/// A sweep keeps what was current at every pinned moment.
pub proof fn law_sweep_keeps_pinned<R>(hist: Map<u64, R>, now: u64, pins: Seq<u64>, i: int)
    requires
        0 <= i < pins.len(),
    ensures
        current_in(swept(hist, now, pins), pins[i]) == current_in(hist, pins[i]),
{
    let t = pins[i];
    let dom = hist.dom();
    let left = swept(hist, now, pins).dom();
    if exists|k: u64| latest_at(dom, t, k) {
        let k = choose|k: u64| latest_at(dom, t, k);
        assert(kept(dom, now, pins, k));
        assert(latest_at(left, t, k));
        lemma_latest(dom, t, k);
        lemma_latest(left, t, k);
    } else if exists|k: u64| latest_at(left, t, k) {
        let k = choose|k: u64| latest_at(left, t, k);
        lemma_some_latest(dom, t, k);
    }
}

/// Sweeping again at once drops nothing more.
pub proof fn law_sweep_is_idempotent<R>(hist: Map<u64, R>, now: u64, pins: Seq<u64>)
    ensures
        swept(swept(hist, now, pins), now, pins) == swept(hist, now, pins),
{
    let once = swept(hist, now, pins);
    assert forall|k: u64| once.dom().contains(k) implies kept(once.dom(), now, pins, k) by {
        assert(kept(hist.dom(), now, pins, k));
        if latest_at(hist.dom(), now, k) {
            assert(latest_at(once.dom(), now, k));
        }
        if exists|i: int| 0 <= i < pins.len() && latest_at(hist.dom(), #[trigger] pins[i], k) {
            let i = choose|i: int|
                0 <= i < pins.len() && latest_at(hist.dom(), #[trigger] pins[i], k);
            assert(latest_at(once.dom(), pins[i], k));
        }
    }
    assert(swept(once, now, pins) =~= once);
}

/// A row stamped in the future changes nothing about the present.
pub proof fn law_future_row_is_hidden<R>(hist: Map<u64, R>, stamp: u64, row: R, now: u64)
    requires
        time_of(stamp) > now,
    ensures
        current_in(hist.insert(stamp, row), now) == current_in(hist, now),
{
    let with = hist.insert(stamp, row).dom();
    if exists|k: u64| latest_at(hist.dom(), now, k) {
        let k = choose|k: u64| latest_at(hist.dom(), now, k);
        assert(latest_at(with, now, k));
        lemma_latest(hist.dom(), now, k);
        lemma_latest(with, now, k);
    } else if exists|k: u64| latest_at(with, now, k) {
        let k = choose|k: u64| latest_at(with, now, k);
        lemma_some_latest(hist.dom(), now, k);
    }
}

/// The newest row becomes current as soon as the clock reaches its time.
pub proof fn law_newest_row_promotes<R>(hist: Map<u64, R>, stamp: u64, row: R, now: u64)
    requires
        time_of(stamp) <= now,
        forall|k: u64| #[trigger] hist.dom().contains(k) && time_of(k) <= now ==> k <= stamp,
    ensures
        current_in(hist.insert(stamp, row), now) == Some(row),
{
    let with = hist.insert(stamp, row).dom();
    assert(latest_at(with, now, stamp));
    lemma_latest(with, now, stamp);
}

/// Dropping a version that was just added restores the store.
pub proof fn law_drop_undoes_insert<R>(m: Map<u64, Map<u64, R>>, id: u64, stamp: u64, row: R)
    requires
        !holds_stamp(m, id, stamp),
        m.dom().contains(id) ==> m[id].dom().finite() && m[id].dom().len() > 0,
    ensures
        without_version(with_version(m, id, stamp, row), id, stamp) == m,
{
    let w = with_version(m, id, stamp, row);
    if m.dom().contains(id) {
        assert(w[id].remove(stamp) =~= m[id]);
        assert(without_version(w, id, stamp) =~= m);
    } else {
        assert(w[id].remove(stamp) =~= Map::empty());
        assert(without_version(w, id, stamp) =~= m);
    }
}

} // verus!
