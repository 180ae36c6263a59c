use vstd::prelude::*;

use crate::broadcasting::BroadcastEntry;
use crate::broadcasting::HistoryEntry;
use crate::config::Configuration;
use crate::message::MessageCollection;
use crate::peering::Peer;
use crate::routing::Route;
use crate::ticket::TicketEntry;
use crate::tracing::TraceEntry;

verus! {

/// The process-wide state container: the configuration and the shared
/// tables.  The keyed tables are association lists whose keys the
/// operations keep unique.
pub struct Singleton {
    pub configuration: Configuration,
    pub peers: Vec<Peer>,
    pub routes: Vec<Route>,
    pub backlog: Vec<MessageCollection>,
    pub tickets: Vec<TicketEntry>,
    pub traces: Vec<TraceEntry>,
    pub broadcasts: Vec<BroadcastEntry>,
    pub broadcast_history: Vec<HistoryEntry>,
}

impl Singleton {
    /// A fresh node state: the given configuration and empty tables.
    pub fn new(configuration: Configuration) -> (r: Singleton)
        ensures
            r.configuration == configuration,
            r.peers@ =~= Seq::<Peer>::empty(),
            r.routes@ =~= Seq::<Route>::empty(),
            r.backlog@ =~= Seq::<MessageCollection>::empty(),
            r.tickets@ =~= Seq::<TicketEntry>::empty(),
            r.traces@ =~= Seq::<TraceEntry>::empty(),
            r.broadcasts@ =~= Seq::<BroadcastEntry>::empty(),
            r.broadcast_history@ =~= Seq::<HistoryEntry>::empty(),
    {
        Singleton {
            configuration,
            peers: Vec::new(),
            routes: Vec::new(),
            backlog: Vec::new(),
            tickets: Vec::new(),
            traces: Vec::new(),
            broadcasts: Vec::new(),
            broadcast_history: Vec::new(),
        }
    }
}

/// A fresh id for a request or a ticket, drawn from the process-wide
/// generator.  Relies on rand::random: two draws are unrelated, so nothing
/// is promised of the value.
#[verifier::external_body]
pub(crate) fn fresh_request_id() -> String {
    rand::random::<u64>().to_string()
}

} // verus!
