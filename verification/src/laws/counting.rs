//! What is counted of the traffic.
use vstd::prelude::*;

use crate::wire::GateMsg;

verus! {

use crate::tally::{CallTally, SubTally};
use crate::wire::MsgView;

/// A call that is sent is one more request of its reducer, with its bytes, and is in flight
/// under its number; nothing else is counted, and no other reducer.
pub proof fn law_sent_calls_are_counted(
    t: CallTally,
    cid: u32,
    reducer: Seq<char>,
    bytes: usize,
    other: Seq<char>,
    c: u64,
)
    requires
        other != reducer,
        t.of(reducer).requests < u32::MAX,
        t.of(reducer).tx_bytes + bytes <= u64::MAX,
    ensures
        ({
            let after = t.sent(cid, reducer, bytes);
            let a = t.of(reducer);
            let b = after.of(reducer);
            &&& b.requests == a.requests + 1
            &&& b.tx_bytes == a.tx_bytes + bytes
            &&& (b.ok, b.err, b.promise, b.rx_bytes) == (a.ok, a.err, a.promise, a.rx_bytes)
            &&& after.of(other) == t.of(other)
            &&& after.in_flight.dom().contains(cid as u64)
            &&& after.in_flight[cid as u64] == reducer
            &&& c != cid ==> (after.in_flight.dom().contains(c) <==> t.in_flight.dom().contains(c))
        }),
{
}

/// A reply counts for the reducer of its call, with its bytes: as well done, as failed or as
/// promised; the first two end the call. A reply to no call, and any other frame, counts for
/// nothing.
pub proof fn law_replies_are_counted(
    t: CallTally,
    msg: GateMsg,
    cid: u32,
    bytes: usize,
    other: Seq<char>,
)
    requires
        match msg {
            GateMsg::CallOk { cid: c, .. } => c == cid,
            GateMsg::CallErr { cid: c, .. } => c == cid,
            GateMsg::CallPromise { cid: c, .. } => c == cid,
            _ => true,
        },
        t.in_flight.dom().contains(cid as u64) ==> {
            let a = t.of(t.in_flight[cid as u64]);
            &&& a.ok < u32::MAX
            &&& a.err < u32::MAX
            &&& a.promise < u32::MAX
            &&& a.rx_bytes + bytes <= u64::MAX
            &&& other != t.in_flight[cid as u64]
        },
    ensures
        ({
            let after = t.replied(msg, bytes);
            let known = t.in_flight.dom().contains(cid as u64);
            let reducer = t.in_flight[cid as u64];
            let a = t.of(reducer);
            let b = after.of(reducer);
            let is_reply = msg is CallOk || msg is CallErr || msg is CallPromise;
            &&& !known || !is_reply ==> after == t
            &&& known && is_reply ==> {
                &&& b.ok == a.ok + (if msg is CallOk {
                    1int
                } else {
                    0
                })
                &&& b.err == a.err + (if msg is CallErr {
                    1int
                } else {
                    0
                })
                &&& b.promise == a.promise + (if msg is CallPromise {
                    1int
                } else {
                    0
                })
                &&& b.rx_bytes == a.rx_bytes + bytes
                &&& (b.requests, b.tx_bytes) == (a.requests, a.tx_bytes)
                &&& after.of(other) == t.of(other)
                &&& after.in_flight.dom().contains(cid as u64) <==> msg is CallPromise
            }
        }),
{
}

/// A subscription that is sent is one more of its table, open and in all, with its bytes; its
/// end is one less open. A call, and the end of what is not open, counts for nothing here.
pub proof fn law_sent_subscriptions_are_counted(
    t: SubTally,
    frame: MsgView,
    bytes: usize,
    other: Seq<char>,
)
    requires
        frame matches MsgView::Sub { table, .. } ==> other != table && t.of(table).active < i32::MAX
            && t.of(table).total < u32::MAX && t.of(table).tx_bytes + bytes <= u64::MAX,
        frame matches MsgView::Unsub { sid } ==> t.open_subs.dom().contains(sid as u64) ==> {
            let table = t.open_subs[sid as u64];
            other != table && t.of(table).active > i32::MIN && t.of(table).tx_bytes + bytes
                <= u64::MAX
        },
    ensures
        ({
            let after = t.sent(frame, bytes);
            &&& frame matches MsgView::Sub { sid, table, .. } ==> {
                let (a, b) = (t.of(table), after.of(table));
                &&& b.active == a.active + 1
                &&& b.total == a.total + 1
                &&& b.tx_bytes == a.tx_bytes + bytes
                &&& b.rx_bytes == a.rx_bytes
                &&& after.open_subs == t.open_subs.insert(sid as u64, table)
                &&& after.of(other) == t.of(other)
            }
            &&& frame matches MsgView::Unsub { sid } ==> {
                let table = t.open_subs[sid as u64];
                let (a, b) = (t.of(table), after.of(table));
                &&& !t.open_subs.dom().contains(sid as u64) ==> after == t
                &&& t.open_subs.dom().contains(sid as u64) ==> {
                    &&& b.active == a.active - 1
                    &&& b.total == a.total
                    &&& b.tx_bytes == a.tx_bytes + bytes
                    &&& b.rx_bytes == a.rx_bytes
                    &&& after.open_subs == t.open_subs.remove(sid as u64)
                    &&& after.of(other) == t.of(other)
                }
            }
            &&& frame is Call ==> after == t
        }),
{
}

/// A row's bytes count for its table, an acknowledgement's for the table of its
/// subscription; nothing else that arrives is counted here.
pub proof fn law_received_rows_are_counted(t: SubTally, msg: GateMsg, bytes: usize, other: Seq<char>)
    requires
        msg matches GateMsg::Row { row, .. } ==> other != row.table_spec() && t.of(
            row.table_spec(),
        ).rx_bytes + bytes <= u64::MAX,
        msg matches GateMsg::Applied { sid } ==> t.open_subs.dom().contains(sid as u64) ==> other
            != t.open_subs[sid as u64] && t.of(t.open_subs[sid as u64]).rx_bytes + bytes
            <= u64::MAX,
    ensures
        ({
            let after = t.heard(msg, bytes);
            &&& msg matches GateMsg::Row { row, .. } ==> {
                let (a, b) = (t.of(row.table_spec()), after.of(row.table_spec()));
                &&& b.rx_bytes == a.rx_bytes + bytes
                &&& (b.active, b.total, b.tx_bytes) == (a.active, a.total, a.tx_bytes)
                &&& after.of(other) == t.of(other)
            }
            &&& msg matches GateMsg::Applied { sid } ==> {
                let table = t.open_subs[sid as u64];
                let (a, b) = (t.of(table), after.of(table));
                &&& t.open_subs.dom().contains(sid as u64) ==> b.rx_bytes == a.rx_bytes + bytes && (
                b.active, b.total, b.tx_bytes) == (a.active, a.total, a.tx_bytes) && after.of(other)
                    == t.of(other)
                &&& !t.open_subs.dom().contains(sid as u64) ==> after == t
            }
            &&& !(msg is Row) && !(msg is Applied) ==> after == t
            &&& after.open_subs == t.open_subs
        }),
{
}

} // verus!
