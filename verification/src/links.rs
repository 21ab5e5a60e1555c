//! Subscription ids: which is open for which zone, region or table.
use vstd::prelude::*;

use crate::ordmap::OrdMap;
use crate::text::with_number;
use crate::wire::ClientMsg;
use crate::zones::{DataType, ZoneIntent};

verus! {

use crate::pulse::id_after;
use crate::subs::SubKey;
use crate::text::decimal;
use crate::wire::{msgs, MsgView};

/// The subscription ids, as values.
pub ghost struct LinkState {
    pub next_sid: u32,
    pub zones: Map<SubKey, u32>,
    pub regions: Map<u64, u32>,
}

/// The table a zone subscription reads.
pub open spec fn table_of(data: DataType) -> Seq<char> {
    match data {
        DataType::Card => "cards"@,
        DataType::Zone => "zones"@,
    }
}

impl LinkState {
    /// The ids after one decision was carried out. Opening what is open, and closing
    /// what is not, changes nothing; a region is always subscribed anew.
    pub open spec fn after(self, x: ZoneIntent) -> LinkState {
        match x {
            ZoneIntent::Subscribe { zone, data, on } => {
                let k = (zone, data);
                if on {
                    if self.zones.dom().contains(k) {
                        self
                    } else {
                        LinkState {
                            next_sid: id_after(self.next_sid),
                            zones: self.zones.insert(k, self.next_sid),
                            ..self
                        }
                    }
                } else {
                    LinkState { zones: self.zones.remove(k), ..self }
                }
            },
            ZoneIntent::Region { region, subscribed } => if subscribed {
                LinkState {
                    next_sid: id_after(self.next_sid),
                    regions: self.regions.insert(region, self.next_sid),
                    ..self
                }
            } else {
                LinkState { regions: self.regions.remove(region), ..self }
            },
        }
    }

    /// The frame that carries out one decision, if it takes one.
    pub open spec fn frame(self, x: ZoneIntent) -> Option<MsgView> {
        match x {
            ZoneIntent::Subscribe { zone, data, on } => {
                let k = (zone, data);
                if on {
                    if self.zones.dom().contains(k) {
                        None
                    } else {
                        Some(
                            MsgView::Sub {
                                sid: self.next_sid,
                                table: table_of(data),
                                filter: Some("macro_zone = "@ + decimal(zone as nat)),
                            },
                        )
                    }
                } else if self.zones.dom().contains(k) {
                    Some(MsgView::Unsub { sid: self.zones[k] })
                } else {
                    None
                }
            },
            ZoneIntent::Region { region, subscribed } => if subscribed {
                Some(
                    MsgView::Sub {
                        sid: self.next_sid,
                        table: "regions"@,
                        filter: Some("macro_region = "@ + decimal(region as nat)),
                    },
                )
            } else if self.regions.dom().contains(region) {
                Some(MsgView::Unsub { sid: self.regions[region] })
            } else {
                None
            },
        }
    }

    /// The ids after a list of decisions.
    pub open spec fn after_all(self, said: Seq<ZoneIntent>) -> LinkState
        decreases said.len(),
    {
        if said.len() == 0 {
            self
        } else {
            self.after_all(said.drop_last()).after(said.last())
        }
    }

    /// The frames that carry out a list of decisions, in order.
    pub open spec fn frames(self, said: Seq<ZoneIntent>) -> Seq<MsgView>
        decreases said.len(),
    {
        if said.len() == 0 {
            Seq::empty()
        } else {
            let before = self.frames(said.drop_last());
            match self.after_all(said.drop_last()).frame(said.last()) {
                Some(f) => before.push(f),
                None => before,
            }
        }
    }
}

/// Open subscription ids.
pub struct Links {
    next_sid: u32,
    card: OrdMap<u32>,
    zone: OrdMap<u32>,
    region: OrdMap<u32>,
}

impl View for Links {
    type V = LinkState;

    closed spec fn view(&self) -> LinkState {
        LinkState {
            next_sid: self.next_sid,
            zones: Map::new(
                |k: SubKey| self.of(k.1).dom().contains(k.0),
                |k: SubKey| self.of(k.1)[k.0],
            ),
            regions: self.region@,
        }
    }
}

impl Links {
    spec fn of(&self, data: DataType) -> Map<u64, u32> {
        match data {
            DataType::Card => self.card@,
            DataType::Zone => self.zone@,
        }
    }

    pub closed spec fn wf(&self) -> bool {
        self.card.wf() && self.zone.wf() && self.region.wf()
    }

    pub fn new() -> (l: Self)
        ensures
            l.wf(),
            l@ == (LinkState { next_sid: 1, zones: Map::empty(), regions: Map::empty() }),
    {
        let l = Links {
            next_sid: 1,
            card: OrdMap::new(),
            zone: OrdMap::new(),
            region: OrdMap::new(),
        };
        assert(l@.zones =~= Map::empty());
        l
    }

    /// Mint a subscription id.
    pub fn sid(&mut self) -> (sid: u32)
        requires
            old(self).wf(),
        ensures
            final(self).wf(),
            sid == old(self)@.next_sid,
            final(self)@ == (LinkState { next_sid: id_after(sid), ..old(self)@ }),
    {
        let s: u32 = self.next_sid;
        if s < 0xFFFF_FFFF {
            self.next_sid = s + 1;
        }
        assert(self@.zones =~= old(self)@.zones);
        s
    }

    /// Carry out one decision.
    fn carry_out(&mut self, x: &ZoneIntent) -> (m: Option<ClientMsg>)
        requires
            old(self).wf(),
        ensures
            final(self).wf(),
            final(self)@ == old(self)@.after(*x),
            m is Some <==> old(self)@.frame(*x) is Some,
            m matches Some(f) ==> Some(f@) == old(self)@.frame(*x),
    {
        let ghost o = *self;
        match *x {
            ZoneIntent::Subscribe { zone, data, on } => {
                let ghost k = (zone, data);
                if on {
                    let open: bool = match data {
                        DataType::Card => self.card.contains_key(zone),
                        DataType::Zone => self.zone.contains_key(zone),
                    };
                    if open {
                        return None;
                    }
                    let sid: u32 = self.sid();
                    let table: String = match data {
                        DataType::Card => {
                            self.card.insert(zone, sid);
                            "cards".to_owned()
                        },
                        DataType::Zone => {
                            self.zone.insert(zone, sid);
                            "zones".to_owned()
                        },
                    };
                    let filter = with_number("macro_zone = ", zone);
                    assert(self@.zones =~= o@.zones.insert(k, sid));
                    Some(ClientMsg::Sub { sid, table, filter: Some(filter) })
                } else {
                    let gone: Option<u32> = match data {
                        DataType::Card => self.card.remove(zone),
                        DataType::Zone => self.zone.remove(zone),
                    };
                    assert(self@.zones =~= o@.zones.remove(k));
                    match gone {
                        Some(sid) => Some(ClientMsg::Unsub { sid }),
                        None => None,
                    }
                }
            },
            ZoneIntent::Region { region, subscribed } => {
                if subscribed {
                    let sid: u32 = self.sid();
                    self.region.insert(region, sid);
                    let filter = with_number("macro_region = ", region);
                    assert(self@.zones =~= o@.zones);
                    Some(ClientMsg::Sub { sid, table: "regions".to_owned(), filter: Some(filter) })
                } else {
                    let gone = self.region.remove(region);
                    assert(self@.zones =~= o@.zones);
                    match gone {
                        Some(sid) => Some(ClientMsg::Unsub { sid }),
                        None => None,
                    }
                }
            },
        }
    }

    /// Carry out the zone manager's decisions.
    pub fn carry_out_all(&mut self, said: &Vec<ZoneIntent>) -> (out: Vec<ClientMsg>)
        requires
            old(self).wf(),
        ensures
            final(self).wf(),
            final(self)@ == old(self)@.after_all(said@),
            msgs(out@) == old(self)@.frames(said@),
    {
        let ghost o = *self;
        let n: usize = said.len();
        let mut out: Vec<ClientMsg> = Vec::new();
        let mut i: usize = 0;
        assert(said@.take(0) =~= Seq::empty());
        assert(msgs(out@) =~= o@.frames(said@.take(0)));
        while i < n
            invariant
                self.wf(),
                n == said@.len(),
                i <= n,
                self@ == o@.after_all(said@.take(i as int)),
                msgs(out@) == o@.frames(said@.take(i as int)),
            decreases n - i,
        {
            let ghost before = out@;
            proof {
                assert(said@.take(i + 1).drop_last() =~= said@.take(i as int));
                assert(said@.take(i + 1).last() == said@[i as int]);
            }
            let m = self.carry_out(&said[i]);
            if let Some(f) = m {
                let ghost v = f@;
                out.push(f);
                assert(msgs(out@) =~= msgs(before).push(v));
            }
            i = i + 1;
        }
        assert(said@.take(n as int) =~= said@);
        out
    }
}

/// A driver that carries out decisions on a fresh set of links ends up with exactly
/// the subscriptions that the decisions leave open.
pub proof fn law_links_follow_decisions(l: LinkState, said: Seq<ZoneIntent>)
    ensures
        l.after_all(said).zones.dom() == crate::subs::replayed(l.zones.dom(), said),
        l.after_all(said).regions.dom() == crate::subs::replayed_regions(l.regions.dom(), said),
    decreases said.len(),
{
    if said.len() > 0 {
        law_links_follow_decisions(l, said.drop_last());
        let before = l.after_all(said.drop_last());
        assert(l.after_all(said).zones.dom() =~= crate::subs::replayed(l.zones.dom(), said));
        assert(l.after_all(said).regions.dom() =~= crate::subs::replayed_regions(
            l.regions.dom(),
            said,
        ));
    }
}

} // verus!
