//! Running tallies by name: calls by reducer, subscriptions by table.
use vstd::prelude::*;

use crate::ordmap::OrdMap;
use crate::text::{chars_of, comes_before};
use crate::wire::{ClientMsg, GateMsg};

verus! {

use crate::text::{lemma_lt_irreflexive, lemma_lt_total, lemma_lt_transitive, text_lt};
use crate::wire::MsgView;

/// The names are in order, each once.
pub open spec fn in_order(names: Seq<String>) -> bool {
    forall|i: int, j: int|
        0 <= i < j < names.len() ==> text_lt((#[trigger] names[i])@, (#[trigger] names[j])@)
}

/// Entries by name, in the order of the names.
pub struct TextMap<V> {
    names: Vec<String>,
    vals: Vec<V>,
}

impl<V> View for TextMap<V> {
    type V = Map<Seq<char>, V>;

    closed spec fn view(&self) -> Map<Seq<char>, V> {
        Map::new(
            |k: Seq<char>| exists|i: int| self.holds(k, i),
            |k: Seq<char>| self.vals@[choose|i: int| self.holds(k, i)],
        )
    }
}

impl<V> TextMap<V> {
    /// The `i`-th entry has this name.
    spec fn holds(&self, k: Seq<char>, i: int) -> bool {
        0 <= i < self.names@.len() && self.names@[i]@ == k
    }
}

impl<V: Copy> TextMap<V> {
    pub closed spec fn wf(&self) -> bool {
        self.names@.len() == self.vals@.len() && in_order(self.names@)
    }

    /// The entry with a name is the one that holds it.
    proof fn lemma_holds(&self, k: Seq<char>, i: int)
        requires
            self.wf(),
            self.holds(k, i),
        ensures
            self@.dom().contains(k),
            self@[k] == self.vals@[i],
    {
        let c = choose|j: int| self.holds(k, j);
        assert(self.holds(k, c));
        if c < i {
            assert(text_lt(self.names@[c]@, self.names@[i]@));
            lemma_lt_irreflexive(k);
        }
        if i < c {
            assert(text_lt(self.names@[i]@, self.names@[c]@));
            lemma_lt_irreflexive(k);
        }
    }

    pub fn new() -> (m: Self)
        ensures
            m.wf(),
            m@ == Map::<Seq<char>, V>::empty(),
    {
        let m = TextMap { names: Vec::new(), vals: Vec::new() };
        assert(m@ =~= Map::empty());
        m
    }

    /// Where a name stands, or would.
    fn locate(&self, name: &String) -> (r: (usize, bool))
        requires
            self.wf(),
        ensures
            r.0 <= self.names@.len(),
            r.1 ==> self.holds(name@, r.0 as int),
            !r.1 ==> !self@.dom().contains(name@),
            forall|j: int| 0 <= j < r.0 ==> text_lt((#[trigger] self.names@[j])@, name@),
            !r.1 ==> forall|j: int|
                r.0 <= j < self.names@.len() ==> text_lt(name@, (#[trigger] self.names@[j])@),
    {
        let key = chars_of(name.as_str());
        let n: usize = self.names.len();
        let mut i: usize = 0;
        while i < n
            invariant
                self.wf(),
                n == self.names@.len(),
                i <= n,
                key@ == name@,
                forall|j: int| 0 <= j < i ==> text_lt((#[trigger] self.names@[j])@, name@),
            decreases n - i,
        {
            if self.names[i] == *name {
                assert(self.holds(name@, i as int));
                return (i, true);
            }
            let at = chars_of(self.names[i].as_str());
            if !comes_before(&at, &key) {
                proof {
                    lemma_lt_total(at@, name@);
                    assert forall|j: int| i <= j < self.names@.len() implies text_lt(
                        name@,
                        (#[trigger] self.names@[j])@,
                    ) by {
                        if j > i {
                            assert(text_lt(self.names@[i as int]@, self.names@[j]@));
                            lemma_lt_transitive(name@, self.names@[i as int]@, self.names@[j]@);
                        }
                    }
                    self.lemma_absent(name@, i as int);
                }
                return (i, false);
            }
            i = i + 1;
        }
        proof {
            self.lemma_absent(name@, n as int);
        }
        (n, false)
    }

    /// A name between all before and all after a place is not held.
    proof fn lemma_absent(&self, name: Seq<char>, at: int)
        requires
            0 <= at <= self.names@.len(),
            forall|j: int| 0 <= j < at ==> text_lt((#[trigger] self.names@[j])@, name),
            forall|j: int|
                at <= j < self.names@.len() ==> text_lt(name, (#[trigger] self.names@[j])@),
        ensures
            !self@.dom().contains(name),
    {
        if self@.dom().contains(name) {
            let c = choose|j: int| self.holds(name, j);
            assert(self.holds(name, c));
            assert(self.names@[c]@ == name);
            lemma_lt_irreflexive(name);
        }
    }

    /// The entry of a name.
    pub fn get(&self, name: &String) -> (r: Option<V>)
        requires
            self.wf(),
        ensures
            r == if self@.dom().contains(name@) {
                Some(self@[name@])
            } else {
                None
            },
    {
        let (i, found) = self.locate(name);
        if found {
            proof {
                self.lemma_holds(name@, i as int);
            }
            Some(self.vals[i])
        } else {
            None
        }
    }

    /// Set the entry of a name.
    pub fn set(&mut self, name: String, v: V)
        requires
            old(self).wf(),
        ensures
            final(self).wf(),
            final(self)@ == old(self)@.insert(name@, v),
    {
        let ghost o = *self;
        let ghost k = name@;
        let (i, found) = self.locate(&name);
        if found {
            self.vals.set(i, v);
        } else {
            self.names.insert(i, name);
            self.vals.insert(i, v);
        }
        proof {
            if !found {
                assert forall|a: int, b: int| 0 <= a < b < self.names@.len() implies text_lt(
                    (#[trigger] self.names@[a])@,
                    (#[trigger] self.names@[b])@,
                ) by {
                    let oa = if a < i {
                        a
                    } else {
                        a - 1
                    };
                    let ob = if b < i {
                        b
                    } else {
                        b - 1
                    };
                    if a == i {
                        assert(self.names@[b]@ == o.names@[ob]@);
                    } else if b == i {
                        assert(self.names@[a]@ == o.names@[oa]@);
                    } else {
                        assert(text_lt(o.names@[oa]@, o.names@[ob]@));
                    }
                }
            }
            assert(self.wf());
            assert(self.holds(k, i as int));
            self.lemma_holds(k, i as int);
            assert forall|x: Seq<char>| #[trigger] self@.dom().contains(x) <==> o@.insert(
                k,
                v,
            ).dom().contains(x) by {
                if self@.dom().contains(x) && x != k {
                    let c = choose|j: int| self.holds(x, j);
                    assert(self.holds(x, c));
                    let d = if c < i || found {
                        c
                    } else {
                        c - 1
                    };
                    assert(o.holds(x, d));
                }
                if o@.dom().contains(x) && x != k {
                    let d = choose|j: int| o.holds(x, j);
                    assert(o.holds(x, d));
                    let c = if d < i || found {
                        d
                    } else {
                        d + 1
                    };
                    assert(self.holds(x, c));
                }
            }
            assert forall|x: Seq<char>| #[trigger] o@.insert(k, v).dom().contains(
                x,
            ) implies self@[x] == o@.insert(k, v)[x] by {
                if x != k {
                    let d = choose|j: int| o.holds(x, j);
                    assert(o.holds(x, d));
                    o.lemma_holds(x, d);
                    let c = if d < i || found {
                        d
                    } else {
                        d + 1
                    };
                    assert(self.holds(x, c));
                    self.lemma_holds(x, c);
                }
            }
            assert(self@ =~= o@.insert(k, v));
        }
    }

    /// The entries, in the order of their names.
    pub fn entries(&self) -> (out: Vec<(String, V)>)
        requires
            self.wf(),
        ensures
            lists_entries(out@, self@),
    {
        let n: usize = self.names.len();
        let mut out: Vec<(String, V)> = Vec::new();
        let mut i: usize = 0;
        while i < n
            invariant
                self.wf(),
                n == self.names@.len(),
                i <= n,
                out@.len() == i,
                forall|j: int|
                    0 <= j < i ==> (#[trigger] out@[j]).0@ == self.names@[j]@ && out@[j].1
                        == self.vals@[j],
            decreases n - i,
        {
            out.push((self.names[i].clone(), self.vals[i]));
            i = i + 1;
        }
        proof {
            assert forall|a: int, b: int| 0 <= a < b < out@.len() implies text_lt(
                (#[trigger] out@[a]).0@,
                (#[trigger] out@[b]).0@,
            ) by {
                assert(text_lt(self.names@[a]@, self.names@[b]@));
            }
            assert forall|j: int| 0 <= j < out@.len() implies self@.dom().contains(
                (#[trigger] out@[j]).0@,
            ) && self@[out@[j].0@] == out@[j].1 by {
                self.lemma_holds(self.names@[j]@, j);
            }
            assert forall|k: Seq<char>| #[trigger] self@.dom().contains(k) implies exists|j: int|
                0 <= j < out@.len() && (#[trigger] out@[j]).0@ == k by {
                let c = choose|j: int| self.holds(k, j);
                assert(self.holds(k, c));
                assert(out@[c].0@ == k);
            }
        }
        out
    }
}

/// `out` lists the entries of a map, in the order of their names.
pub open spec fn lists_entries<V>(out: Seq<(String, V)>, m: Map<Seq<char>, V>) -> bool {
    &&& forall|a: int, b: int|
        0 <= a < b < out.len() ==> text_lt((#[trigger] out[a]).0@, (#[trigger] out[b]).0@)
    &&& forall|j: int|
        0 <= j < out.len() ==> m.dom().contains((#[trigger] out[j]).0@) && m[out[j].0@] == out[j].1
    &&& forall|k: Seq<char>| #[trigger]
        m.dom().contains(k) ==> exists|j: int| 0 <= j < out.len() && (#[trigger] out[j]).0@ == k
}

/// One more, as far as it can be counted.
pub open spec fn one_more(n: u32) -> u32 {
    if n < u32::MAX {
        (n + 1) as u32
    } else {
        n
    }
}

/// A sum, as far as it can be counted.
pub open spec fn sum(a: u64, b: usize) -> u64 {
    if a + b <= u64::MAX {
        (a + b) as u64
    } else {
        u64::MAX
    }
}

fn add_one(n: u32) -> (m: u32)
    ensures
        m == one_more(n),
{
    if n < 0xFFFF_FFFF {
        n + 1
    } else {
        n
    }
}

fn add_bytes(a: u64, b: usize) -> (c: u64)
    ensures
        c == sum(a, b),
{
    a.saturating_add(b as u64)
}

/// The calls of one reducer: how often, how answered, and how many bytes each way.
#[derive(Debug, Clone, Copy, PartialEq, Eq, Structural)]
pub struct CmdStat {
    pub requests: u32,
    pub ok: u32,
    pub err: u32,
    pub promise: u32,
    pub tx_bytes: u64,
    pub rx_bytes: u64,
}

/// No calls.
pub open spec fn no_calls() -> CmdStat {
    CmdStat { requests: 0, ok: 0, err: 0, promise: 0, tx_bytes: 0, rx_bytes: 0 }
}

/// The calls by reducer, and the reducers of those in flight.
#[verifier::ext_equal]
pub ghost struct CallTally {
    pub by_reducer: Map<Seq<char>, CmdStat>,
    pub in_flight: Map<u64, Seq<char>>,
}

impl CallTally {
    /// The calls of one reducer so far.
    pub open spec fn of(self, reducer: Seq<char>) -> CmdStat {
        if self.by_reducer.dom().contains(reducer) {
            self.by_reducer[reducer]
        } else {
            no_calls()
        }
    }

    /// The tally after a call was sent.
    pub open spec fn sent(self, cid: u32, reducer: Seq<char>, bytes: usize) -> CallTally {
        let e = self.of(reducer);
        CallTally {
            by_reducer: self.by_reducer.insert(
                reducer,
                CmdStat {
                    requests: one_more(e.requests),
                    tx_bytes: sum(e.tx_bytes, bytes),
                    ..e
                },
            ),
            in_flight: self.in_flight.insert(cid as u64, reducer),
        }
    }

    /// The tally after a frame arrived: a reply counts for the reducer of its call, and
    /// ends it unless it is a promise; anything else does not count.
    pub open spec fn replied(self, msg: GateMsg, bytes: usize) -> CallTally {
        match msg {
            GateMsg::CallOk { cid, .. } => {
                let e = self.of(self.in_flight[cid as u64]);
                self.counted(
                    cid,
                    CmdStat { ok: one_more(e.ok), rx_bytes: sum(e.rx_bytes, bytes), ..e },
                    true,
                )
            },
            GateMsg::CallErr { cid, .. } => {
                let e = self.of(self.in_flight[cid as u64]);
                self.counted(
                    cid,
                    CmdStat { err: one_more(e.err), rx_bytes: sum(e.rx_bytes, bytes), ..e },
                    true,
                )
            },
            GateMsg::CallPromise { cid, .. } => {
                let e = self.of(self.in_flight[cid as u64]);
                self.counted(
                    cid,
                    CmdStat { promise: one_more(e.promise), rx_bytes: sum(e.rx_bytes, bytes), ..e },
                    false,
                )
            },
            _ => self,
        }
    }

    /// The tally with a new entry for the reducer of a call; unchanged if the call is
    /// not in flight.
    pub open spec fn counted(self, cid: u32, e: CmdStat, ended: bool) -> CallTally {
        if self.in_flight.dom().contains(cid as u64) {
            CallTally {
                by_reducer: self.by_reducer.insert(self.in_flight[cid as u64], e),
                in_flight: if ended {
                    self.in_flight.remove(cid as u64)
                } else {
                    self.in_flight
                },
            }
        } else {
            self
        }
    }
}

/// Calls by reducer.
pub struct CallStats {
    by_reducer: TextMap<CmdStat>,
    cid_reducer: OrdMap<String>,
}

/// Texts by id, as values.
pub open spec fn texts_by(m: Map<u64, String>) -> Map<u64, Seq<char>> {
    m.map_values(|s: String| s@)
}

impl View for CallStats {
    type V = CallTally;

    closed spec fn view(&self) -> CallTally {
        CallTally { by_reducer: self.by_reducer@, in_flight: texts_by(self.cid_reducer@) }
    }
}

impl CallStats {
    pub closed spec fn wf(&self) -> bool {
        self.by_reducer.wf() && self.cid_reducer.wf()
    }

    pub fn new() -> (s: Self)
        ensures
            s.wf(),
            s@ == (CallTally { by_reducer: Map::empty(), in_flight: Map::empty() }),
    {
        let s = CallStats { by_reducer: TextMap::new(), cid_reducer: OrdMap::new() };
        assert(s@.in_flight =~= Map::empty());
        s
    }

    fn of(&self, reducer: &String) -> (e: CmdStat)
        requires
            self.wf(),
        ensures
            e == self@.of(reducer@),
    {
        match self.by_reducer.get(reducer) {
            Some(e) => e,
            None => CmdStat { requests: 0, ok: 0, err: 0, promise: 0, tx_bytes: 0, rx_bytes: 0 },
        }
    }

    /// A call was sent.
    pub fn note_send(&mut self, cid: u32, reducer: &String, bytes: usize)
        requires
            old(self).wf(),
        ensures
            final(self).wf(),
            final(self)@ == old(self)@.sent(cid, reducer@, bytes),
    {
        let ghost o = self@;
        let e = self.of(reducer);
        let next = CmdStat {
            requests: add_one(e.requests),
            tx_bytes: add_bytes(e.tx_bytes, bytes),
            ..e
        };
        self.by_reducer.set(reducer.clone(), next);
        self.cid_reducer.insert(cid as u64, reducer.clone());
        assert(self@.in_flight =~= o.in_flight.insert(cid as u64, reducer@));
    }

    /// A frame arrived.
    pub fn note_reply(&mut self, msg: &GateMsg, bytes: usize)
        requires
            old(self).wf(),
        ensures
            final(self).wf(),
            final(self)@ == old(self)@.replied(*msg, bytes),
    {
        let ghost o = self@;
        let (cid, ended): (u32, bool) = match msg {
            GateMsg::CallOk { cid, .. } => (*cid, true),
            GateMsg::CallErr { cid, .. } => (*cid, true),
            GateMsg::CallPromise { cid, .. } => (*cid, false),
            _ => {
                return ;
            },
        };
        let reducer: String = match self.cid_reducer.get(cid as u64) {
            Some(r) => r.clone(),
            None => {
                return ;
            },
        };
        let e = self.of(&reducer);
        let rx_bytes: u64 = add_bytes(e.rx_bytes, bytes);
        let next = match msg {
            GateMsg::CallOk { .. } => CmdStat { ok: add_one(e.ok), rx_bytes, ..e },
            GateMsg::CallErr { .. } => CmdStat { err: add_one(e.err), rx_bytes, ..e },
            _ => CmdStat { promise: add_one(e.promise), rx_bytes, ..e },
        };
        self.by_reducer.set(reducer, next);
        if ended {
            self.cid_reducer.remove(cid as u64);
            assert(self@.in_flight =~= o.in_flight.remove(cid as u64));
        } else {
            assert(self@.in_flight =~= o.in_flight);
        }
    }

    /// The calls by reducer, in the order of the names.
    pub fn report(&self) -> (out: Vec<(String, CmdStat)>)
        requires
            self.wf(),
        ensures
            lists_entries(out@, self@.by_reducer),
    {
        self.by_reducer.entries()
    }
}

/// The subscriptions of one table: how many are open, how many there ever were, and
/// how many bytes each way.
#[derive(Debug, Clone, Copy, PartialEq, Eq, Structural)]
pub struct TableStat {
    pub active: i32,
    pub total: u32,
    pub tx_bytes: u64,
    pub rx_bytes: u64,
}

impl TableStat {
    /// How many are open, as it is shown: never less than none.
    pub fn shown(&self) -> (n: i32)
        ensures
            n == (if self.active > 0 {
                self.active
            } else {
                0
            }),
    {
        if self.active > 0 {
            self.active
        } else {
            0
        }
    }
}

/// No subscriptions.
pub open spec fn no_subs() -> TableStat {
    TableStat { active: 0, total: 0, tx_bytes: 0, rx_bytes: 0 }
}

/// The subscriptions by table, and the tables of those that are open.
#[verifier::ext_equal]
pub ghost struct SubTally {
    pub by_table: Map<Seq<char>, TableStat>,
    pub open_subs: Map<u64, Seq<char>>,
}

/// A count with something added, as far as it can be counted.
pub open spec fn shifted(n: i32, by: int) -> i32 {
    if n + by > i32::MAX {
        i32::MAX
    } else if n + by < i32::MIN {
        i32::MIN
    } else {
        (n + by) as i32
    }
}

impl SubTally {
    /// The subscriptions of one table so far.
    pub open spec fn of(self, table: Seq<char>) -> TableStat {
        if self.by_table.dom().contains(table) {
            self.by_table[table]
        } else {
            no_subs()
        }
    }

    /// The tally after a frame was sent.
    pub open spec fn sent(self, frame: MsgView, bytes: usize) -> SubTally {
        match frame {
            MsgView::Sub { sid, table, .. } => {
                let e = self.of(table);
                SubTally {
                    by_table: self.by_table.insert(
                        table,
                        TableStat {
                            active: shifted(e.active, 1),
                            total: one_more(e.total),
                            tx_bytes: sum(e.tx_bytes, bytes),
                            ..e
                        },
                    ),
                    open_subs: self.open_subs.insert(sid as u64, table),
                }
            },
            MsgView::Unsub { sid } => if self.open_subs.dom().contains(sid as u64) {
                let table = self.open_subs[sid as u64];
                let e = self.of(table);
                SubTally {
                    by_table: self.by_table.insert(
                        table,
                        TableStat {
                            active: shifted(e.active, -1),
                            tx_bytes: sum(e.tx_bytes, bytes),
                            ..e
                        },
                    ),
                    open_subs: self.open_subs.remove(sid as u64),
                }
            } else {
                self
            },
            MsgView::Call { .. } => self,
        }
    }

    /// The tally with bytes received for a table.
    pub open spec fn received(self, table: Seq<char>, bytes: usize) -> SubTally {
        let e = self.of(table);
        SubTally {
            by_table: self.by_table.insert(
                table,
                TableStat { rx_bytes: sum(e.rx_bytes, bytes), ..e },
            ),
            ..self
        }
    }

    /// The tally after a frame arrived: rows count for their table, acknowledgements
    /// for the table of their subscription.
    pub open spec fn heard(self, msg: GateMsg, bytes: usize) -> SubTally {
        match msg {
            GateMsg::Row { row, .. } => self.received(row.table_spec(), bytes),
            GateMsg::Applied { sid } => if self.open_subs.dom().contains(sid as u64) {
                self.received(self.open_subs[sid as u64], bytes)
            } else {
                self
            },
            _ => self,
        }
    }
}

/// Subscriptions by table.
pub struct SubStats {
    by_table: TextMap<TableStat>,
    sid_table: OrdMap<String>,
}

impl View for SubStats {
    type V = SubTally;

    closed spec fn view(&self) -> SubTally {
        SubTally { by_table: self.by_table@, open_subs: texts_by(self.sid_table@) }
    }
}

impl SubStats {
    pub closed spec fn wf(&self) -> bool {
        self.by_table.wf() && self.sid_table.wf()
    }

    pub fn new() -> (s: Self)
        ensures
            s.wf(),
            s@ == (SubTally { by_table: Map::empty(), open_subs: Map::empty() }),
    {
        let s = SubStats { by_table: TextMap::new(), sid_table: OrdMap::new() };
        assert(s@.open_subs =~= Map::empty());
        s
    }

    fn of(&self, table: &String) -> (e: TableStat)
        requires
            self.wf(),
        ensures
            e == self@.of(table@),
    {
        match self.by_table.get(table) {
            Some(e) => e,
            None => TableStat { active: 0, total: 0, tx_bytes: 0, rx_bytes: 0 },
        }
    }

    /// A frame was sent.
    pub fn note_send(&mut self, frame: &ClientMsg, bytes: usize)
        requires
            old(self).wf(),
        ensures
            final(self).wf(),
            final(self)@ == old(self)@.sent(frame@, bytes),
    {
        let ghost o = self@;
        match frame {
            ClientMsg::Sub { sid, table, .. } => {
                let e = self.of(table);
                let active: i32 = if e.active < 0x7FFF_FFFF {
                    e.active + 1
                } else {
                    e.active
                };
                let next = TableStat {
                    active,
                    total: add_one(e.total),
                    tx_bytes: add_bytes(e.tx_bytes, bytes),
                    ..e
                };
                self.by_table.set(table.clone(), next);
                self.sid_table.insert(*sid as u64, table.clone());
                assert(self@.open_subs =~= o.open_subs.insert(*sid as u64, table@));
            },
            ClientMsg::Unsub { sid } => {
                let table = match self.sid_table.remove(*sid as u64) {
                    Some(t) => t,
                    None => {
                        assert(self@.open_subs =~= o.open_subs);
                        return ;
                    },
                };
                assert(self@.open_subs =~= o.open_subs.remove(*sid as u64));
                let e = self.of(&table);
                let active: i32 = if e.active > -0x8000_0000 {
                    e.active - 1
                } else {
                    e.active
                };
                let next = TableStat { active, tx_bytes: add_bytes(e.tx_bytes, bytes), ..e };
                self.by_table.set(table, next);
            },
            ClientMsg::Call { .. } => {},
        }
    }

    fn receive(&mut self, table: String, bytes: usize)
        requires
            old(self).wf(),
        ensures
            final(self).wf(),
            final(self)@ == old(self)@.received(table@, bytes),
    {
        let e = self.of(&table);
        self.by_table.set(table, TableStat { rx_bytes: add_bytes(e.rx_bytes, bytes), ..e });
    }

    /// A frame arrived.
    pub fn note_inbound(&mut self, msg: &GateMsg, bytes: usize)
        requires
            old(self).wf(),
        ensures
            final(self).wf(),
            final(self)@ == old(self)@.heard(*msg, bytes),
    {
        match msg {
            GateMsg::Row { row, .. } => {
                let table = row.table();
                self.receive(table, bytes);
            },
            GateMsg::Applied { sid } => {
                let table: String = match self.sid_table.get(*sid as u64) {
                    Some(t) => t.clone(),
                    None => {
                        return ;
                    },
                };
                self.receive(table, bytes);
            },
            _ => {},
        }
    }

    /// The subscriptions by table, in the order of the names.
    pub fn report(&self) -> (out: Vec<(String, TableStat)>)
        requires
            self.wf(),
        ensures
            lists_entries(out@, self@.by_table),
    {
        self.by_table.entries()
    }
}

/// A promise keeps its call open for the reply that follows; the reply ends it.
pub proof fn law_promise_keeps_call(t: CallTally, cid: u32, timeout_ms: u64, bytes: usize)
    requires
        t.in_flight.dom().contains(cid as u64),
    ensures
        t.replied((GateMsg::CallPromise { cid, timeout_ms }), bytes).in_flight == t.in_flight,
{
}

/// Closing a subscription undoes what opening it counted as open.
pub proof fn law_unsub_undoes_sub(
    t: SubTally,
    sid: u32,
    table: Seq<char>,
    filter: Option<Seq<char>>,
    tx: usize,
    ux: usize,
)
    requires
        t.of(table).active < i32::MAX,
    ensures
        t.sent((MsgView::Sub { sid, table, filter }), tx).sent((MsgView::Unsub { sid }), ux).of(
            table,
        ).active == t.of(table).active,
{
}

} // verus!
