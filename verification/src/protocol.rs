//! Wire frames and their classification.
//!
//! Every frame, inbound or outbound, is a typed record: a `type` tag, a
//! `data` record, and a server timestamp in milliseconds. The router
//! classifies inbound frames by their tag; the services build outbound
//! frames with exact shapes.

use vstd::prelude::*;

use crate::record::{lemma_rec_get_index, rec_get, FieldV, Record, Value, ValueV};
use crate::store::EntityKind;
use crate::strutil::str_eq;

verus! {

/// One protocol frame.
pub struct Frame {
    pub typ: String,
    pub data: Record,
    pub timestamp: i64,
}

/// The mathematical value of a `Frame`.
pub struct FrameV {
    pub typ: Seq<char>,
    pub data: Seq<FieldV>,
    pub timestamp: int,
}

impl View for Frame {
    type V = FrameV;

    open spec fn view(&self) -> FrameV {
        FrameV { typ: self.typ@, data: self.data@, timestamp: self.timestamp as int }
    }
}

impl Frame {
    /// An exact copy of the frame.
    pub fn dup(&self) -> (r: Frame)
        ensures
            r@ == self@,
    {
        Frame { typ: self.typ.clone(), data: self.data.dup(), timestamp: self.timestamp }
    }
}

/// A frame addressed to one client's outbound channel.
pub struct Outgoing {
    pub client_id: String,
    pub frame: Frame,
}

/// The mathematical value of an `Outgoing`.
pub struct OutgoingV {
    pub client_id: Seq<char>,
    pub frame: FrameV,
}

impl View for Outgoing {
    type V = OutgoingV;

    open spec fn view(&self) -> OutgoingV {
        OutgoingV { client_id: self.client_id@, frame: self.frame@ }
    }
}

/// The views of the elements of a vector.
pub open spec fn outgoing_view(outs: Seq<Outgoing>) -> Seq<OutgoingV> {
    outs.map(|i: int, o: Outgoing| o@)
}

/// The classification of an inbound frame's type tag.
#[derive(PartialEq, Eq, Structural, Clone, Copy, Debug)]
pub enum MessageType {
    /// The credential handshake, the only frame accepted before
    /// authentication.
    AuthenticationRequest,
    /// A request to replay the server's delta since the client's watermarks.
    SyncRequest,
    /// The client declares its own upload finished.
    SyncComplete,
    /// A liveness probe; answered with a pong.
    Ping,
    /// A mutation of one entity kind, to ingest and fan out.
    EntityUpdate(EntityKind),
    /// Anything else: logged and ignored.
    Unknown,
}

/// The type tag of one entity kind's update frames.
pub open spec fn kind_type(kind: EntityKind) -> Seq<char> {
    match kind {
        EntityKind::User => "user_update"@,
        EntityKind::Sawmill => "sawmill_update"@,
        EntityKind::Contract => "contract_update"@,
        EntityKind::Location => "location_update"@,
        EntityKind::Shipment => "shipment_update"@,
        EntityKind::Note => "note_update"@,
        EntityKind::Photo => "photo_update"@,
    }
}

/// The type tag of one entity kind's update frames.
pub fn kind_type_name(kind: EntityKind) -> (r: String)
    ensures
        r@ == kind_type(kind),
{
    match kind {
        EntityKind::User => String::from_str("user_update"),
        EntityKind::Sawmill => String::from_str("sawmill_update"),
        EntityKind::Contract => String::from_str("contract_update"),
        EntityKind::Location => String::from_str("location_update"),
        EntityKind::Shipment => String::from_str("shipment_update"),
        EntityKind::Note => String::from_str("note_update"),
        EntityKind::Photo => String::from_str("photo_update"),
    }
}

/// How a type tag classifies.
pub open spec fn spec_classify(t: Seq<char>) -> MessageType {
    if t == "authentication_request"@ {
        MessageType::AuthenticationRequest
    } else if t == "sync_request"@ {
        MessageType::SyncRequest
    } else if t == "sync_complete"@ {
        MessageType::SyncComplete
    } else if t == "ping"@ {
        MessageType::Ping
    } else if t == kind_type(EntityKind::User) {
        MessageType::EntityUpdate(EntityKind::User)
    } else if t == kind_type(EntityKind::Sawmill) {
        MessageType::EntityUpdate(EntityKind::Sawmill)
    } else if t == kind_type(EntityKind::Contract) {
        MessageType::EntityUpdate(EntityKind::Contract)
    } else if t == kind_type(EntityKind::Location) {
        MessageType::EntityUpdate(EntityKind::Location)
    } else if t == kind_type(EntityKind::Shipment) {
        MessageType::EntityUpdate(EntityKind::Shipment)
    } else if t == kind_type(EntityKind::Note) {
        MessageType::EntityUpdate(EntityKind::Note)
    } else if t == kind_type(EntityKind::Photo) {
        MessageType::EntityUpdate(EntityKind::Photo)
    } else {
        MessageType::Unknown
    }
}

/// Classifies an inbound frame's type tag.
pub fn classify(typ: &str) -> (r: MessageType)
    ensures
        r == spec_classify(typ@),
{
    if str_eq(typ, "authentication_request") {
        MessageType::AuthenticationRequest
    } else if str_eq(typ, "sync_request") {
        MessageType::SyncRequest
    } else if str_eq(typ, "sync_complete") {
        MessageType::SyncComplete
    } else if str_eq(typ, "ping") {
        MessageType::Ping
    } else if str_eq(typ, "user_update") {
        MessageType::EntityUpdate(EntityKind::User)
    } else if str_eq(typ, "sawmill_update") {
        MessageType::EntityUpdate(EntityKind::Sawmill)
    } else if str_eq(typ, "contract_update") {
        MessageType::EntityUpdate(EntityKind::Contract)
    } else if str_eq(typ, "location_update") {
        MessageType::EntityUpdate(EntityKind::Location)
    } else if str_eq(typ, "shipment_update") {
        MessageType::EntityUpdate(EntityKind::Shipment)
    } else if str_eq(typ, "note_update") {
        MessageType::EntityUpdate(EntityKind::Note)
    } else if str_eq(typ, "photo_update") {
        MessageType::EntityUpdate(EntityKind::Photo)
    } else {
        MessageType::Unknown
    }
}

/// No kind's update tag is the replay-completion tag; conveniently, every
/// update tag is shorter.
pub proof fn lemma_frame_type_names()
    ensures
        forall|k: EntityKind| #[trigger] kind_type(k) != "sync_from_server_complete"@,
{
    reveal_strlit("user_update");
    reveal_strlit("sawmill_update");
    reveal_strlit("contract_update");
    reveal_strlit("location_update");
    reveal_strlit("shipment_update");
    reveal_strlit("note_update");
    reveal_strlit("photo_update");
    reveal_strlit("sync_from_server_complete");
    assert("sync_from_server_complete"@.len() == 25);
    assert forall|k: EntityKind| #[trigger] kind_type(k) != "sync_from_server_complete"@ by {
        assert(kind_type(k).len() <= 15);
    }
}

/// The data record of a replay marker: one column, the client's next
/// watermark.
pub open spec fn marker_data(new_sync_date: int) -> Seq<FieldV> {
    seq![FieldV { name: "newSyncDate"@, value: ValueV::Int(new_sync_date) }]
}

/// A replay marker frame: the terminal frame of one kind's delta replay.
pub fn marker_frame(kind: EntityKind, new_sync_date: i64, now: i64) -> (r: Frame)
    ensures
        r@.typ == kind_type(kind),
        r@.data == marker_data(new_sync_date as int),
        r@.timestamp == now as int,
{
    let mut data = Record::new();
    data.push_field(String::from_str("newSyncDate"), Value::Int(new_sync_date));
    proof {
        assert(data@ =~= marker_data(new_sync_date as int));
    }
    Frame { typ: kind_type_name(kind), data, timestamp: now }
}

/// The data record of an acknowledgement: the entity id and a sync flag.
pub open spec fn ack_data(id: ValueV) -> Seq<FieldV> {
    seq![
        FieldV { name: "id"@, value: id },
        FieldV { name: "synced"@, value: ValueV::Int(1) },
    ]
}

/// An acknowledgement frame: returned to the originator of a non-delete
/// mutation that changed state.
pub fn ack_frame(typ: &str, entity_id: &Value, now: i64) -> (r: Frame)
    ensures
        r@.typ == typ@,
        r@.data == ack_data(entity_id@),
        r@.timestamp == now as int,
{
    let mut data = Record::new();
    data.push_field(String::from_str("id"), entity_id.dup());
    proof {
        reveal_strlit("id");
        reveal_strlit("synced");
        assert("id"@.len() == 2);
        assert("synced"@.len() == 6);
        lemma_rec_get_index(data@, "synced"@);
        assert(data@.len() == 1 && data@[0].name == "id"@);
    }
    data.push_field(String::from_str("synced"), Value::Int(1));
    proof {
        assert(data@ =~= ack_data(entity_id@));
    }
    Frame { typ: typ.to_owned(), data, timestamp: now }
}

/// A frame with an empty data record: pongs and the two sync terminators.
pub fn empty_frame(typ: &str, now: i64) -> (r: Frame)
    ensures
        r@.typ == typ@,
        r@.data == Seq::<FieldV>::empty(),
        r@.timestamp == now as int,
{
    Frame { typ: typ.to_owned(), data: Record::new(), timestamp: now }
}

/// Whether a frame's data record is a mutation marked as a tombstone.
pub open spec fn is_delete_frame(data: Seq<FieldV>) -> bool {
    rec_get(data, "deleted"@) == Some(ValueV::Int(1))
}

/// Whether a frame's data record marks a tombstone.
pub fn frame_is_delete(data: &Record) -> (r: bool)
    ensures
        r == is_delete_frame(data@),
{
    match data.get("deleted") {
        Some(Value::Int(n)) => *n == 1,
        _ => false,
    }
}

} // verus!
