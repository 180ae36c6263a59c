use vstd::prelude::*;

use crate::peering::Peer;

verus! {

/// Settings of the public, encrypted peer-to-peer endpoint.
#[derive(Clone)]
pub struct PublicHttp {
    pub secret: String,
    pub tracing: bool,
    pub host: String,
    pub port: u16,
    pub endpoint: String,
}

/// Settings of the private operator endpoints.
#[derive(Clone)]
pub struct PrivateHttp {
    pub tracing: bool,
    pub host: String,
    pub port: u16,
    pub ticket_sync_endpoint: String,
    pub ticket_async_endpoint: String,
}

/// A scheduled ping toward a destination, every `delay` seconds.
#[derive(Clone)]
pub struct Ping {
    pub destination_id: String,
    pub delay: u32,
}

/// A scheduled ticket test toward a destination, every `delay` seconds.
#[derive(Clone)]
pub struct TicketTest {
    pub destination_id: String,
    pub delay: u32,
}

/// A scheduled trace toward a destination, every `delay` seconds, with an
/// optional fixed request id.
#[derive(Clone)]
pub struct Trace {
    pub destination_id: String,
    pub delay: u32,
    pub request_id: Option<String>,
}

/// The command line surface: where to find the configuration file.
pub struct CommandLineArguments {
    pub config_path: String,
}

/// The node's static configuration.  `id` is its mesh identity; the
/// expirations and the backlog period are in milliseconds.
pub struct Configuration {
    pub id: String,
    pub peer: Vec<Peer>,
    pub ping: Vec<Ping>,
    pub trace: Vec<Trace>,
    pub maxrouteweight: usize,
    pub loglevel: String,
    pub ticketexpiration: u64,
    pub public_http: PublicHttp,
    pub private_http: PrivateHttp,
    pub broadcastexpiration: u64,
    pub backlog_period: u64,
}

} // verus!
