//! A connection that numbers what it sends.
use vstd::prelude::*;

use crate::wire::{ClientCall, ClientMsg};

verus! {

use crate::pulse::id_after;
use crate::wire::{text_of, CallView, MsgView};

/// A transport with the ids of subscriptions and calls.
pub struct GateConnection<T> {
    pub transport: T,
    pub next_sid: u32,
    pub next_cid: u32,
}

/// The id after this one.
fn count_up(id: u32) -> (next: u32)
    ensures
        next == id_after(id),
{
    if id < 0xFFFF_FFFF {
        id + 1
    } else {
        id
    }
}

impl<T> GateConnection<T> {
    /// Wrap a connected transport.
    pub fn new(transport: T) -> (c: Self)
        ensures
            c == (GateConnection { transport, next_sid: 1, next_cid: 1 }),
    {
        GateConnection { transport, next_sid: 1, next_cid: 1 }
    }

    /// Subscribe to a table: the id, and the frame to send.
    pub fn subscribe(&mut self, table: &str, filter: Option<String>) -> (r: (u32, ClientMsg))
        ensures
            r.0 == old(self).next_sid,
            r.1@ == (MsgView::Sub { sid: r.0, table: table@, filter: text_of(filter) }),
            *final(self) == (GateConnection { next_sid: id_after(r.0), ..*old(self) }),
    {
        let sid: u32 = self.next_sid;
        self.next_sid = count_up(sid);
        (sid, ClientMsg::Sub { sid, table: table.to_owned(), filter })
    }

    /// Drop a subscription: the frame to send.
    pub fn unsubscribe(&self, sid: u32) -> (m: ClientMsg)
        ensures
            m@ == (MsgView::Unsub { sid }),
    {
        ClientMsg::Unsub { sid }
    }

    /// Call a reducer: the id, and the frame to send.
    pub fn call(&mut self, reducer: &str, args: serde_json::Value) -> (r: (u32, ClientMsg))
        ensures
            r.0 == old(self).next_cid,
            r.1@ == (MsgView::Call {
                cid: r.0,
                call: CallView::Raw { reducer: reducer@, args },
            }),
            *final(self) == (GateConnection { next_cid: id_after(r.0), ..*old(self) }),
    {
        let cid: u32 = self.next_cid;
        self.next_cid = count_up(cid);
        (cid, ClientMsg::Call { cid, call: ClientCall::Raw { reducer: reducer.to_owned(), args } })
    }
}

} // verus!
