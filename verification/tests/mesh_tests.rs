use stembot::broadcasting::Broadcast;
use stembot::broadcasting::BroadcastMessage;
use stembot::config::Configuration;
use stembot::config::PrivateHttp;
use stembot::config::PublicHttp;
use stembot::message::MessageCollection;
use stembot::peering::record_peer_origin;
use stembot::peering::Peer;
use stembot::processing::advertise;
use stembot::processing::complete_forward;
use stembot::processing::process_message_collection;
use stembot::routing::initialize_routes;
use stembot::routing::resolve_gateway_id;
use stembot::state::Singleton;
use stembot::ticket::process_ticket_request;
use stembot::ticket::send_ticket;
use stembot::ticket::take_ticket_response;
use stembot::ticket::TicketMessage;
use stembot::ticket::TicketPoll;
use stembot::ticket::TicketRequest;
use stembot::tracing::Direction;
use stembot::tracing::Trace;

fn test_configuration(id: &str) -> Configuration {
    Configuration {
        id: id.to_string(),
        peer: Vec::new(),
        ping: Vec::new(),
        trace: Vec::new(),
        maxrouteweight: 16,
        loglevel: "warn".to_string(),
        public_http: PublicHttp {
            secret: "SECRET-REDACTED".to_string(),
            tracing: false,
            host: "127.0.0.1".to_string(),
            port: 8080,
            endpoint: "/api".to_string(),
        },
        private_http: PrivateHttp {
            tracing: false,
            host: "127.0.0.1".to_string(),
            port: 8090,
            ticket_sync_endpoint: "/sync".to_string(),
            ticket_async_endpoint: "/async".to_string(),
        },
        ticketexpiration: 1000,
        broadcastexpiration: 100000,
        backlog_period: 10,
    }
}

const IDS: [&str; 5] = ["a", "b", "c", "d", "e"];

fn url_of(id: &str) -> String {
    let mut url = "http://".to_string();
    url.push_str(id);
    url
}

fn url_index(url: &str) -> usize {
    for (k, id) in IDS.iter().enumerate() {
        if url == url_of(id) {
            return k;
        }
    }
    panic!("unknown endpoint {}", url);
}

/// A five-node chain a-b-c-d-e, each node linked only to its immediate
/// neighbors, polling disabled.
fn chain() -> Vec<Singleton> {
    let mut nodes = Vec::new();
    for (k, id) in IDS.iter().enumerate() {
        let mut s = Singleton::new(test_configuration(id));
        initialize_routes(&mut s);
        if k > 0 {
            s.peers.push(Peer { id: None, url: Some(url_of(IDS[k - 1])), polling: false });
        }
        if k + 1 < IDS.len() {
            s.peers.push(Peer { id: None, url: Some(url_of(IDS[k + 1])), polling: false });
        }
        nodes.push(s);
    }
    nodes
}

fn two(nodes: &mut [Singleton], i: usize, j: usize) -> (&mut Singleton, &mut Singleton) {
    assert!(i != j);
    if i < j {
        let (left, right) = nodes.split_at_mut(j);
        (&mut left[i], &mut right[0])
    } else {
        let (left, right) = nodes.split_at_mut(i);
        (&mut right[0], &mut left[j])
    }
}

/// One advertisement round: every node sends its table to each neighbor,
/// learns the neighbor's id from the reply and feeds the reply back into
/// its processor, as the periodic advertise loop does.
fn advertise_round(nodes: &mut Vec<Singleton>, now: u64) {
    for i in 0..nodes.len() {
        let orders = advertise(&nodes[i]);
        for order in orders {
            let j = url_index(&order.url);
            let url = order.url.clone();
            let reply = {
                let (_, target) = two(nodes, i, j);
                process_message_collection(order.message_collection, target, now).0
            };
            record_peer_origin(&mut nodes[i], &url, &reply.origin_id.clone());
            process_message_collection(reply, &mut nodes[i], now);
        }
    }
}

/// Deliver one forwarding order over the simulated transport: the target
/// processes the batch as its public endpoint would, forwarding onward in
/// turn, and its reply travels back.
fn deliver(nodes: &mut Vec<Singleton>, order: stembot::processing::ForwardOrder, now: u64) -> MessageCollection {
    let j = url_index(&order.url);
    let copy = duplicate_collection(&order.message_collection);
    let (reply, onward) = process_message_collection(copy, &mut nodes[j], now);
    if let Some(next_order) = onward {
        let next_reply = deliver(nodes, duplicate_order(&next_order), now);
        complete_forward(next_order, Some(next_reply), &mut nodes[j]);
    }
    reply
}

fn duplicate_order(order: &stembot::processing::ForwardOrder) -> stembot::processing::ForwardOrder {
    stembot::processing::ForwardOrder {
        url: order.url.clone(),
        message_collection: duplicate_collection(&order.message_collection),
    }
}

/// One backlog round: every node drains and condenses its backlog and
/// processes each condensed batch, sending forwards over the simulated
/// transport and queueing replies, as the periodic backlog loop does.
fn pump(nodes: &mut Vec<Singleton>, now: u64) {
    for i in 0..nodes.len() {
        let batches = stembot::backlog::process_backlog(&mut nodes[i]);
        for mc in batches {
            let (outbound, forward) = process_message_collection(mc, &mut nodes[i], now);
            stembot::backlog::push_message_collection_to_backlog(outbound, &mut nodes[i]);
            if let Some(order) = forward {
                let reply = deliver(nodes, duplicate_order(&order), now);
                complete_forward(order, Some(reply), &mut nodes[i]);
            }
        }
    }
}

fn duplicate_collection(mc: &MessageCollection) -> MessageCollection {
    let bytes = stembot::codec::encode_message_collection(mc);
    stembot::codec::decode_message_collection(&bytes).expect("an encoded batch must decode")
}

fn converged_chain(now: u64) -> Vec<Singleton> {
    let mut nodes = chain();
    for _ in 0..5 {
        advertise_round(&mut nodes, now);
    }
    nodes
}

#[test]
fn chain_converges_to_hop_distances_within_five_rounds() {
    let nodes = converged_chain(0);
    for (i, id_i) in IDS.iter().enumerate() {
        for (j, id_j) in IDS.iter().enumerate() {
            if i == j {
                continue;
            }
            let distance = if i < j { j - i } else { i - j };
            let mut found = None;
            for r in &nodes[i].routes {
                if r.destination_id == *id_j {
                    if found.is_none() || r.weight < found {
                        found = r.weight;
                    }
                }
            }
            assert_eq!(
                found,
                Some(distance),
                "node {} should reach {} in {} hops",
                id_i,
                id_j,
                distance
            );
        }
    }
}

#[test]
fn trace_across_the_chain_collects_both_directions() {
    let mut nodes = converged_chain(0);
    let trace = Trace {
        events: vec![],
        request_id: Some("t1".to_string()),
        destination_id: "e".to_string(),
        start_time: None,
        stop_time: None,
    };
    process_ticket_request(
        TicketRequest {
            ticket_message: TicketMessage::BeginTrace(trace),
            ticket_id: "k1".to_string(),
        },
        &mut nodes[0],
        10,
    );
    for _ in 0..15 {
        pump(&mut nodes, 20);
    }
    assert_eq!(nodes[0].traces.len(), 1);
    let stored = &nodes[0].traces[0].trace;
    assert!(stored.stop_time.is_some(), "the trace should be closed");
    let mut outbound: Vec<(usize, String)> = vec![];
    let mut inbound: Vec<(usize, String)> = vec![];
    for e in &stored.events {
        match e.direction {
            Direction::Outbound => outbound.push((e.hop_count, e.id.clone())),
            Direction::Inbound => inbound.push((e.hop_count, e.id.clone())),
        }
    }
    outbound.sort();
    inbound.sort();
    let outbound_ids: Vec<String> = outbound.iter().map(|p| p.1.clone()).collect();
    let inbound_ids: Vec<String> = inbound.iter().map(|p| p.1.clone()).collect();
    // the initiator reports its own outbound hop at send time, then each
    // node along the path reports in hop order; the reply is reported on
    // the way back at every node up to and including the initiator
    assert_eq!(outbound_ids, vec!["a", "b", "c", "d", "e"]);
    assert_eq!(inbound_ids, vec!["d", "c", "b", "a"]);
}

#[test]
fn ticket_test_reaches_the_far_end_and_comes_back() {
    let mut nodes = converged_chain(0);
    let id = send_ticket(
        TicketMessage::Test,
        Some("k2".to_string()),
        Some("e".to_string()),
        &mut nodes[0],
        30,
    );
    for _ in 0..12 {
        pump(&mut nodes, 40);
    }
    match take_ticket_response(&id, &mut nodes[0]) {
        TicketPoll::Ready(m) => assert!(matches!(m, TicketMessage::Test)),
        _ => panic!("the echoed answer should have arrived"),
    }
    assert_eq!(nodes[0].tickets.len(), 0);
}

#[test]
fn broadcast_ping_collects_a_pong_from_every_node_once() {
    let mut nodes = converged_chain(0);
    let seed = Broadcast::new(
        BroadcastMessage::Ping,
        Some("br1".to_string()),
        Some("collector".to_string()),
    );
    process_ticket_request(
        TicketRequest {
            ticket_message: TicketMessage::BeginBroadcast(seed),
            ticket_id: "k3".to_string(),
        },
        &mut nodes[0],
        50,
    );
    for _ in 0..15 {
        pump(&mut nodes, 60);
    }
    let drained = process_ticket_request(
        TicketRequest {
            ticket_message: TicketMessage::DrainBroadcast(Broadcast::new(
                BroadcastMessage::Ping,
                Some("br1".to_string()),
                None,
            )),
            ticket_id: "k4".to_string(),
        },
        &mut nodes[0],
        70,
    );
    let responses = match drained.ticket_message {
        TicketMessage::DrainBroadcast(b) => b.responses,
        _ => panic!("expected the drained broadcast"),
    };
    for id in ["b", "c", "d", "e"] {
        let mut found = false;
        for r in &responses {
            if r.origin_id == id {
                assert!(matches!(r.response.broadcast, BroadcastMessage::Pong));
                found = true;
            }
        }
        assert!(found, "no answer from {}", id);
    }
    // a second seeding under the same id is deduplicated everywhere
    let seed_again = Broadcast::new(
        BroadcastMessage::Ping,
        Some("br1".to_string()),
        Some("collector".to_string()),
    );
    process_ticket_request(
        TicketRequest {
            ticket_message: TicketMessage::BeginBroadcast(seed_again),
            ticket_id: "k5".to_string(),
        },
        &mut nodes[0],
        80,
    );
    for _ in 0..10 {
        pump(&mut nodes, 90);
    }
    let drained_again = process_ticket_request(
        TicketRequest {
            ticket_message: TicketMessage::DrainBroadcast(Broadcast::new(
                BroadcastMessage::Ping,
                Some("br1".to_string()),
                None,
            )),
            ticket_id: "k6".to_string(),
        },
        &mut nodes[0],
        100,
    );
    match drained_again.ticket_message {
        TicketMessage::DrainBroadcast(b) => assert_eq!(b.responses.len(), 0),
        _ => panic!("expected the drained broadcast"),
    }
}

#[test]
fn forwarding_survives_a_broken_link() {
    let mut nodes = converged_chain(0);
    // a routes toward e through b; the transport to b is dead
    let gw = resolve_gateway_id(&"e".to_string(), &nodes[0]);
    assert_eq!(gw, Some("b".to_string()));
    // a detour row toward b through c: its destination is an id bound to
    // the dead endpoint, so the failure must drop it
    nodes[0].routes.push(stembot::routing::Route {
        gateway_id: "c".to_string(),
        destination_id: "b".to_string(),
        weight: Some(9),
    });
    let mc = MessageCollection {
        messages: vec![stembot::message::Message::Ping],
        origin_id: "a".to_string(),
        destination_id: Some("e".to_string()),
    };
    let (_, forward) = process_message_collection(mc, &mut nodes[0], 0);
    let order = forward.expect("the batch should have been routed through b");
    assert_eq!(order.url, url_of("b"));
    complete_forward(order, None, &mut nodes[0]);
    // the batch waits in the backlog for another attempt; no row toward
    // the dead peer through a detour survives, while rows whose
    // destination equals their gateway are deliberately retained
    let last = nodes[0].backlog.last().unwrap();
    assert_eq!(last.destination_id, Some("e".to_string()));
    for r in &nodes[0].routes {
        assert!(!(r.destination_id == "b" && r.gateway_id == "c"));
    }
    let self_gw = resolve_gateway_id(&"a".to_string(), &nodes[0]);
    assert_eq!(self_gw, Some("a".to_string()));
}
