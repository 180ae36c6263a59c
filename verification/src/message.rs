use vstd::prelude::*;

use crate::backlog::BacklogRequest;
use crate::backlog::BacklogResponse;
use crate::broadcasting::BroadcastRequest;
use crate::broadcasting::BroadcastResponse;
use crate::routing::RouteAdvertisement;
use crate::routing::RouteRecall;
use crate::ticket::ticket_message_eqv;
use crate::ticket::TicketRequest;
use crate::ticket::TicketResponse;
use crate::tracing::TraceEvent;
use crate::tracing::TraceRequest;
use crate::tracing::TraceResponse;

verus! {

/// Everything one node can say to another in a batch.
pub enum Message {
    RouteAdvertisement(RouteAdvertisement),
    RouteRecall(RouteRecall),
    BacklogResponse(BacklogResponse),
    BacklogRequest(BacklogRequest),
    Ping,
    Pong,
    TraceRequest(TraceRequest),
    TraceResponse(TraceResponse),
    TraceEvent(TraceEvent),
    TicketRequest(TicketRequest),
    TicketResponse(TicketResponse),
    BroadcastRequest(BroadcastRequest),
    BroadcastResponse(BroadcastResponse),
}

/// The transport unit: an ordered batch of messages, stamped with the
/// sender's id and an optional final destination.  `None` means the batch
/// is addressed to whoever receives it.
pub struct MessageCollection {
    pub messages: Vec<Message>,
    pub origin_id: String,
    pub destination_id: Option<String>,
}

/// Deep equality of messages, strings compared by contents.
pub open spec fn message_eqv(a: Message, b: Message) -> bool
    decreases a,
{
    match (a, b) {
        (Message::RouteAdvertisement(x), Message::RouteAdvertisement(y)) => x.eqv(y),
        (Message::RouteRecall(x), Message::RouteRecall(y)) => x.eqv(y),
        (Message::BacklogResponse(x), Message::BacklogResponse(y)) => collection_seq_eqv(
            x.message_collections@,
            y.message_collections@,
        ),
        (Message::BacklogRequest(x), Message::BacklogRequest(y)) => x.gateway_id@ == y.gateway_id@,
        (Message::Ping, Message::Ping) => true,
        (Message::Pong, Message::Pong) => true,
        (Message::TraceRequest(x), Message::TraceRequest(y)) => x.eqv(y),
        (Message::TraceResponse(x), Message::TraceResponse(y)) => x.eqv(y),
        (Message::TraceEvent(x), Message::TraceEvent(y)) => x.eqv(y),
        (Message::TicketRequest(x), Message::TicketRequest(y)) => ticket_message_eqv(
            x.ticket_message,
            y.ticket_message,
        ) && x.ticket_id@ == y.ticket_id@,
        (Message::TicketResponse(x), Message::TicketResponse(y)) => ticket_message_eqv(
            x.ticket_message,
            y.ticket_message,
        ) && x.ticket_id@ == y.ticket_id@,
        (Message::BroadcastRequest(x), Message::BroadcastRequest(y)) => x.eqv(y),
        (Message::BroadcastResponse(x), Message::BroadcastResponse(y)) => x.eqv(y),
        _ => false,
    }
}

/// Deep equality of message sequences, elementwise.
pub open spec fn message_seq_eqv(a: Seq<Message>, b: Seq<Message>) -> bool
    decreases a,
{
    if a.len() != b.len() {
        false
    } else if a.len() == 0 {
        true
    } else {
        message_eqv(a[0], b[0]) && message_seq_eqv(a.drop_first(), b.drop_first())
    }
}

/// Deep equality of batches, strings compared by contents.
pub open spec fn collection_eqv(a: MessageCollection, b: MessageCollection) -> bool
    decreases a,
{
    &&& message_seq_eqv(a.messages@, b.messages@)
    &&& a.origin_id@ == b.origin_id@
    &&& crate::seq_util::opt_str_eqv(a.destination_id, b.destination_id)
}

/// Deep equality of batch sequences, elementwise.
pub open spec fn collection_seq_eqv(a: Seq<MessageCollection>, b: Seq<MessageCollection>) -> bool
    decreases a,
{
    if a.len() != b.len() {
        false
    } else if a.len() == 0 {
        true
    } else {
        collection_eqv(a[0], b[0]) && collection_seq_eqv(a.drop_first(), b.drop_first())
    }
}

} // verus!
