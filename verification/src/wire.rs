//! Messages to and from the server, as plain values.
use vstd::prelude::*;

use crate::rows::{CardRow, RegionRow, RowOp, ZoneRow};
use crate::zones::AnchorRadii;

verus! {

use crate::actions::deep;

/// `serde_json::Value`, carried through untouched: the arguments of a call that
/// the core does not look into.
#[verifier::external_type_specification]
#[verifier::external_body]
pub struct ExValue(serde_json::Value);

/// Lowest packed definition of a player soul.
pub const PLAYER_SOUL_PACKED_MIN: u16 = 0xFFF0;

/// An intent issued to the client.
#[derive(Debug)]
pub enum Command {
    /// Log in by name, and watch our row in `players`.
    Login { name: String },
    /// Mint a card. `macro_zone == 0` leaves the place to the shard.
    CreateCard { owner: u32, card_key: String, surface: u8, macro_zone: u64, q: u8, r: u8 },
    /// Subscribe to a table.
    Subscribe { table: String, filter: Option<String> },
    /// Place or move a named zone anchor.
    SetAnchor { name: String, surface: u8, owner: u32, q: i32, r: i32, radii: AnchorRadii },
    /// Call any reducer.
    Call { reducer: String, args: serde_json::Value },
}

/// A reducer call with its arguments.
#[derive(Debug)]
pub enum ClientCall {
    ClaimOrLogin { client_time_ms: u64, name: String },
    CreateCard {
        client_time_ms: u64,
        owner_id: u32,
        surface: u8,
        card_key: String,
        macro_zone: u64,
        q: u8,
        r: u8,
    },
    RequestZone { client_time_ms: u64, macro_zone: u64 },
    EnsureRegion { client_time_ms: u64, macro_zone: u64 },
    MoveCards {
        client_time_ms: u64,
        caller_player_id: u32,
        card_ids: Vec<u32>,
        macro_zones: Vec<u64>,
        micro_locations: Vec<u32>,
        stack_states: Vec<u8>,
    },
    ProposeAction {
        recipe_id: u16,
        surface: u8,
        macro_zone: u64,
        micro_location: u32,
        root: u32,
        bindings: Vec<Vec<u32>>,
        caller_player_id: u32,
        client_time_ms: u64,
    },
    Raw { reducer: String, args: serde_json::Value },
}

/// A frame to the server.
#[derive(Debug)]
pub enum ClientMsg {
    Sub { sid: u32, table: String, filter: Option<String> },
    Unsub { sid: u32 },
    Call { cid: u32, call: ClientCall },
}

/// A reducer call, as values.
pub ghost enum CallView {
    ClaimOrLogin { client_time_ms: u64, name: Seq<char> },
    CreateCard {
        client_time_ms: u64,
        owner_id: u32,
        surface: u8,
        card_key: Seq<char>,
        macro_zone: u64,
        q: u8,
        r: u8,
    },
    RequestZone { client_time_ms: u64, macro_zone: u64 },
    EnsureRegion { client_time_ms: u64, macro_zone: u64 },
    MoveCards {
        client_time_ms: u64,
        caller_player_id: u32,
        card_ids: Seq<u32>,
        macro_zones: Seq<u64>,
        micro_locations: Seq<u32>,
        stack_states: Seq<u8>,
    },
    ProposeAction {
        recipe_id: u16,
        surface: u8,
        macro_zone: u64,
        micro_location: u32,
        root: u32,
        bindings: Seq<Seq<u32>>,
        caller_player_id: u32,
        client_time_ms: u64,
    },
    Raw { reducer: Seq<char>, args: serde_json::Value },
}

impl View for ClientCall {
    type V = CallView;

    open spec fn view(&self) -> CallView {
        match *self {
            ClientCall::ClaimOrLogin { client_time_ms, name } => CallView::ClaimOrLogin {
                client_time_ms,
                name: name@,
            },
            ClientCall::CreateCard { client_time_ms, owner_id, surface, card_key, macro_zone, q, r } =>
            CallView::CreateCard {
                client_time_ms,
                owner_id,
                surface,
                card_key: card_key@,
                macro_zone,
                q,
                r,
            },
            ClientCall::RequestZone { client_time_ms, macro_zone } => CallView::RequestZone {
                client_time_ms,
                macro_zone,
            },
            ClientCall::EnsureRegion { client_time_ms, macro_zone } => CallView::EnsureRegion {
                client_time_ms,
                macro_zone,
            },
            ClientCall::MoveCards {
                client_time_ms,
                caller_player_id,
                card_ids,
                macro_zones,
                micro_locations,
                stack_states,
            } => CallView::MoveCards {
                client_time_ms,
                caller_player_id,
                card_ids: card_ids@,
                macro_zones: macro_zones@,
                micro_locations: micro_locations@,
                stack_states: stack_states@,
            },
            ClientCall::ProposeAction {
                recipe_id,
                surface,
                macro_zone,
                micro_location,
                root,
                bindings,
                caller_player_id,
                client_time_ms,
            } => CallView::ProposeAction {
                recipe_id,
                surface,
                macro_zone,
                micro_location,
                root,
                bindings: deep(bindings@),
                caller_player_id,
                client_time_ms,
            },
            ClientCall::Raw { reducer, args } => CallView::Raw { reducer: reducer@, args },
        }
    }
}

/// A text that may be missing, as values.
pub open spec fn text_of(s: Option<String>) -> Option<Seq<char>> {
    match s {
        Some(s) => Some(s@),
        None => None,
    }
}

/// A frame to the server, as values.
pub ghost enum MsgView {
    Sub { sid: u32, table: Seq<char>, filter: Option<Seq<char>> },
    Unsub { sid: u32 },
    Call { cid: u32, call: CallView },
}

impl View for ClientMsg {
    type V = MsgView;

    open spec fn view(&self) -> MsgView {
        match *self {
            ClientMsg::Sub { sid, table, filter } => MsgView::Sub {
                sid,
                table: table@,
                filter: text_of(filter),
            },
            ClientMsg::Unsub { sid } => MsgView::Unsub { sid },
            ClientMsg::Call { cid, call } => MsgView::Call { cid, call: call@ },
        }
    }
}

/// Frames, as values.
pub open spec fn msgs(v: Seq<ClientMsg>) -> Seq<MsgView> {
    v.map_values(|m: ClientMsg| m@)
}

impl ClientCall {
    /// The reducer a call names.
    pub open spec fn reducer_spec(&self) -> Seq<char> {
        match self {
            ClientCall::ClaimOrLogin { .. } => "claim_or_login"@,
            ClientCall::CreateCard { .. } => "create_card"@,
            ClientCall::RequestZone { .. } => "request_zone"@,
            ClientCall::EnsureRegion { .. } => "ensure_region"@,
            ClientCall::MoveCards { .. } => "move_cards"@,
            ClientCall::ProposeAction { .. } => "propose_action"@,
            ClientCall::Raw { reducer, .. } => reducer@,
        }
    }

    pub fn reducer(&self) -> (name: String)
        ensures
            name@ == self.reducer_spec(),
    {
        match self {
            ClientCall::ClaimOrLogin { .. } => "claim_or_login".to_owned(),
            ClientCall::CreateCard { .. } => "create_card".to_owned(),
            ClientCall::RequestZone { .. } => "request_zone".to_owned(),
            ClientCall::EnsureRegion { .. } => "ensure_region".to_owned(),
            ClientCall::MoveCards { .. } => "move_cards".to_owned(),
            ClientCall::ProposeAction { .. } => "propose_action".to_owned(),
            ClientCall::Raw { reducer, .. } => reducer.clone(),
        }
    }
}

/// A row as the server streamed it.
#[derive(Debug)]
pub enum RowData {
    Card(CardRow),
    Zone(ZoneRow),
    Region(RegionRow),
    /// A `players` row; a field that was missing or malformed is `None`.
    Player { name: Option<String>, player_id: Option<u32> },
    /// A row of a known table that could not be decoded.
    Undecodable { table: String, error: String },
    /// A row of a table the core does not model.
    Other { table: String },
}

impl RowData {
    /// The table a row is of.
    pub open spec fn table_spec(&self) -> Seq<char> {
        match self {
            RowData::Card(_) => "cards"@,
            RowData::Zone(_) => "zones"@,
            RowData::Region(_) => "regions"@,
            RowData::Player { .. } => "players"@,
            RowData::Undecodable { table, .. } => table@,
            RowData::Other { table } => table@,
        }
    }

    pub fn table(&self) -> (name: String)
        ensures
            name@ == self.table_spec(),
    {
        match self {
            RowData::Card(_) => "cards".to_owned(),
            RowData::Zone(_) => "zones".to_owned(),
            RowData::Region(_) => "regions".to_owned(),
            RowData::Player { .. } => "players".to_owned(),
            RowData::Undecodable { table, .. } => table.clone(),
            RowData::Other { table } => table.clone(),
        }
    }
}

/// A frame from the server. Large numbers ride as decimal text.
#[derive(Debug)]
pub enum GateMsg {
    Time { server_micros: String },
    Applied { sid: u32 },
    Error { error: String },
    CallOk { cid: u32, server_micros: String },
    CallErr { cid: u32, error: String, server_micros: String },
    CallPromise { cid: u32, timeout_ms: u64 },
    Row { op: RowOp, row: RowData },
    ContentChanged { version: String },
    ZoneObservers { macro_zone: String, observers: u32 },
}

/// What the core observed while folding a frame.
#[derive(Debug, PartialEq)]
pub enum Event {
    Clock { ms: u64 },
    PlayerId { id: u32 },
    Applied { sid: u32 },
    CardUpserted { card_id: u32 },
    CardRemoved { card_id: u32 },
    ZoneUpserted { macro_zone: u64 },
    CallOk { cid: u32 },
    CallErr { cid: u32, error: String },
    Error { error: String },
}

/// What the core observed, as values.
pub ghost enum EventView {
    Clock { ms: u64 },
    PlayerId { id: u32 },
    Applied { sid: u32 },
    CardUpserted { card_id: u32 },
    CardRemoved { card_id: u32 },
    ZoneUpserted { macro_zone: u64 },
    CallOk { cid: u32 },
    CallErr { cid: u32, error: Seq<char> },
    Error { error: Seq<char> },
}

impl View for Event {
    type V = EventView;

    open spec fn view(&self) -> EventView {
        match *self {
            Event::Clock { ms } => EventView::Clock { ms },
            Event::PlayerId { id } => EventView::PlayerId { id },
            Event::Applied { sid } => EventView::Applied { sid },
            Event::CardUpserted { card_id } => EventView::CardUpserted { card_id },
            Event::CardRemoved { card_id } => EventView::CardRemoved { card_id },
            Event::ZoneUpserted { macro_zone } => EventView::ZoneUpserted { macro_zone },
            Event::CallOk { cid } => EventView::CallOk { cid },
            Event::CallErr { cid, error } => EventView::CallErr { cid, error: error@ },
            Event::Error { error } => EventView::Error { error: error@ },
        }
    }
}

/// Events, as values.
pub open spec fn events(v: Seq<Event>) -> Seq<EventView> {
    v.map_values(|e: Event| e@)
}

/// Player souls are told by their definition.
pub open spec fn is_player_soul_spec(packed_definition: u16) -> bool {
    packed_definition >= PLAYER_SOUL_PACKED_MIN
}

pub fn is_player_soul(packed_definition: u16) -> (b: bool)
    ensures
        b == is_player_soul_spec(packed_definition),
{
    packed_definition >= PLAYER_SOUL_PACKED_MIN
}

} // verus!
